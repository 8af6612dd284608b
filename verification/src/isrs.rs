use vstd::prelude::*;

verus! {

/// The start of the declaration of an interrupt entry stub:
/// `extern "x86-interrupt" {fn isr`.
pub const ISR_PREFIX: [u8; 30] = [
    101, 120, 116, 101, 114, 110, 32, 34, 120, 56, 54, 45,
    105, 110, 116, 101, 114, 114, 117, 112, 116, 34, 32, 123,
    102, 110, 32, 105, 115, 114,
];

/// The end of the declaration of an interrupt entry stub:
/// `(stack: InterruptStackFrame, error_code: u64);}`.
pub const ISR_SUFFIX: [u8; 47] = [
    40, 115, 116, 97, 99, 107, 58, 32, 73, 110, 116, 101,
    114, 114, 117, 112, 116, 83, 116, 97, 99, 107, 70, 114,
    97, 109, 101, 44, 32, 101, 114, 114, 111, 114, 95, 99,
    111, 100, 101, 58, 32, 117, 54, 52, 41, 59, 125,
];

/// Number of interrupt vectors.
pub const ISR_COUNT: u32 = 256;

/// The decimal digits of `n`, most significant first, in ASCII.
pub open spec fn decimal(n: nat) -> Seq<u8>
    decreases n,
{
    if n < 10 {
        seq![(48 + n) as u8]
    } else {
        decimal(n / 10).push((48 + n % 10) as u8)
    }
}

/// The source text that declares the entry stub `isr<i>`.
pub open spec fn isr_declaration(i: nat) -> Seq<u8> {
    ISR_PREFIX@ + decimal(i) + ISR_SUFFIX@
}

/// The declarations of the stubs `isr0` to `isr<n - 1>`, one per line.
pub open spec fn isr_declarations(n: nat) -> Seq<u8>
    decreases n,
{
    if n == 0 {
        Seq::empty()
    } else if n == 1 {
        isr_declaration(0)
    } else {
        isr_declarations((n - 1) as nat) + seq![10u8] + isr_declaration((n - 1) as nat)
    }
}

/// Appends the decimal digits of `n` to `out`.
fn push_decimal(out: &mut Vec<u8>, n: u32)
    ensures
        final(out)@ == old(out)@ + decimal(n as nat),
    decreases n,
{
    if n >= 10 {
        push_decimal(out, n / 10);
        out.push((48 + n % 10) as u8);
    } else {
        out.push((48 + n) as u8);
    }
}

/// Appends `bytes` to `out`.
fn push_bytes(out: &mut Vec<u8>, bytes: &[u8])
    ensures
        final(out)@ == old(out)@ + bytes@,
{
    for i in 0..bytes.len()
        invariant
            out@ == old(out)@ + bytes@.subrange(0, i as int),
    {
        out.push(bytes[i]);
        proof {
            assert(old(out)@ + bytes@.subrange(0, i + 1) =~= (old(out)@ + bytes@.subrange(0, i as int)).push(bytes@[i as int]));
        }
    }
    proof {
        assert(bytes@.subrange(0, bytes@.len() as int) =~= bytes@);
    }
}

/// The source text that declares the interrupt entry stubs `isr0` to
/// `isr255`, one per line, each taking the interrupt stack frame and an
/// error code.
pub fn import_isrs() -> (r: Vec<u8>)
    ensures
        r@ == isr_declarations(ISR_COUNT as nat),
{
    let mut isrs: Vec<u8> = Vec::new();
    for i in 0..ISR_COUNT
        invariant
            isrs@ == isr_declarations(i as nat),
    {
        let ghost before = isrs@;
        if i > 0 {
            isrs.push(10);
        }
        let ghost start = isrs@;
        push_bytes(&mut isrs, &ISR_PREFIX);
        push_decimal(&mut isrs, i);
        push_bytes(&mut isrs, &ISR_SUFFIX);
        proof {
            assert(isrs@ =~= start + isr_declaration(i as nat));
            if i > 0 {
                assert(isr_declarations((i + 1) as nat) == before + seq![10u8] + isr_declaration(i as nat));
                assert(isrs@ =~= before + seq![10u8] + isr_declaration(i as nat));
            } else {
                assert(isrs@ =~= isr_declaration(0));
            }
        }
    }
    isrs
}

} // verus!
