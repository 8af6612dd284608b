use vstd::prelude::*;
use crate::memory::{
    Memory, allocate, map_to, frame_of, present, translate, walk_entries, l4_index, low_tree, lemma_low_tree_walk,
    lemma_low_tree_map, lemma_low_tree_keeps, other_low_page, walk_defined, only_walk_changed, mapped_walk, walk_slot,
    tables_to_create,
};

verus! {

/// Number of general purpose registers saved for a process.
pub const REGISTER_COUNT: usize = 16;

/// A process: its page tables, the saved stack pointer, instruction pointer
/// and registers, and its neighbours in the round-robin ring.
pub struct Process {
    pub _pid: isize,
    pub _active: Option<u64>,
    /// The frame of the process's level-4 page table.
    pub pagemap: u64,
    pub stack: usize,
    pub rip: usize,
    pub regs: Vec<usize>,
    /// The process scheduled after this one.
    pub next: Option<usize>,
    /// The process scheduled before this one.
    pub prev: Option<usize>,
}

/// The processes in `ring` form a ring in `procs`: each one's `next` is the
/// one after it and its `prev` the one before it, the last and the first
/// closing the circle.
pub open spec fn linked_ring(procs: Seq<Process>, ring: Seq<usize>) -> bool {
    let n = ring.len();
    &&& forall|k: int| 0 <= k < n ==> (#[trigger] ring[k]) < procs.len()
    &&& forall|k: int| 0 <= k < n - 1 ==> procs[#[trigger] ring[k] as int].next == Some(ring[k + 1])
    &&& forall|k: int| 1 <= k < n ==> procs[#[trigger] ring[k] as int].prev == Some(ring[k - 1])
    &&& n > 0 ==> procs[ring[n - 1] as int].next == Some(ring[0])
    &&& n > 0 ==> procs[ring[0] as int].prev == Some(ring[n - 1])
}

/// Changing anything but the links of processes keeps the ring linked.
proof fn lemma_same_links(a: Seq<Process>, b: Seq<Process>, ring: Seq<usize>)
    requires
        a.len() == b.len(),
        forall|i: int| 0 <= i < a.len() ==> (#[trigger] b[i]).next == a[i].next && b[i].prev == a[i].prev,
        linked_ring(a, ring),
    ensures
        linked_ring(b, ring),
{
    let n = ring.len();
    assert forall|k: int| 0 <= k < n - 1 implies b[#[trigger] ring[k] as int].next == Some(ring[k + 1]) by {
        assert(a[ring[k] as int].next == Some(ring[k + 1]));
    }
    assert forall|k: int| 1 <= k < n implies b[#[trigger] ring[k] as int].prev == Some(ring[k - 1]) by {
        assert(a[ring[k] as int].prev == Some(ring[k - 1]));
    }
}

/// The kernel's process state: every process, the one running now, and what
/// is needed to return to the kernel.
pub struct Scheduler {
    processes: Vec<Process>,
    current: Option<usize>,
    kernel_pagemap: Option<usize>,
    kernel_rip: Option<usize>,
    ring: Ghost<Seq<usize>>,
}

impl Scheduler {
    pub closed spec fn processes(&self) -> Seq<Process> {
        self.processes@
    }

    /// The processes in the order they will run, the current one first.
    pub closed spec fn ring(&self) -> Seq<usize> {
        self.ring@
    }

    pub closed spec fn current(&self) -> Option<usize> {
        self.current
    }

    pub closed spec fn kernel_pagemap(&self) -> Option<usize> {
        self.kernel_pagemap
    }

    pub closed spec fn kernel_rip(&self) -> Option<usize> {
        self.kernel_rip
    }

    pub open spec fn wf(&self) -> bool {
        let n = self.processes().len();
        &&& self.ring().len() == n
        &&& self.ring().no_duplicates()
        &&& linked_ring(self.processes(), self.ring())
        &&& forall|i: int| 0 <= i < n ==> (#[trigger] self.processes()[i]).regs@.len() == REGISTER_COUNT
        &&& self.current() == if n == 0 { None::<usize> } else { Some(self.ring()[0]) }
    }

    /// No process yet.
    pub fn new() -> (s: Scheduler)
        ensures
            s.wf(),
            s.processes() == Seq::<Process>::empty(),
            s.kernel_pagemap() == None::<usize>,
            s.kernel_rip() == None::<usize>,
    {
        Scheduler {
            processes: Vec::new(),
            current: None,
            kernel_pagemap: None,
            kernel_rip: None,
            ring: Ghost(Seq::empty()),
        }
    }

    /// The kernel's level-4 table frame, once stored.
    pub fn saved_kernel_pagemap(&self) -> (r: Option<usize>)
        ensures r == self.kernel_pagemap(),
    {
        self.kernel_pagemap
    }

    /// Where the kernel resumes, once stored.
    pub fn saved_kernel_rip(&self) -> (r: Option<usize>)
        ensures r == self.kernel_rip(),
    {
        self.kernel_rip
    }

    /// The frame of the level-4 table of process `i`.
    pub fn pagemap_of(&self, i: usize) -> (r: u64)
        requires
            i < self.processes().len(),
        ensures
            r == self.processes()[i as int].pagemap,
    {
        self.processes[i].pagemap
    }

    pub fn current_process(&self) -> (r: Option<usize>)
        ensures r == self.current(),
    {
        self.current
    }

    pub fn process_count(&self) -> (r: usize)
        ensures r == self.processes().len(),
    {
        self.processes.len()
    }

    /// Adds the process `p` to the ring, just before the current process,
    /// so that it runs last in the round; the first process becomes the
    /// current one.
    pub fn insert(&mut self, p: Process)
        requires
            old(self).wf(),
            p.regs@.len() == REGISTER_COUNT,
            old(self).processes().len() < usize::MAX,
        ensures
            final(self).wf(),
            final(self).kernel_pagemap() == old(self).kernel_pagemap(),
            final(self).kernel_rip() == old(self).kernel_rip(),
            final(self).ring() == old(self).ring().push(old(self).processes().len() as usize),
            final(self).processes().len() == old(self).processes().len() + 1,
            ({
                let n = old(self).processes().len() as int;
                let q = final(self).processes()[n];
                &&& q._pid == p._pid
                &&& q._active == p._active
                &&& q.pagemap == p.pagemap
                &&& q.stack == p.stack
                &&& q.rip == p.rip
                &&& q.regs@ == p.regs@
            }),
            old(self).processes().len() == 0 ==> {
                let q = final(self).processes()[0];
                &&& final(self).current() == Some(0usize)
                &&& q.next == Some(0usize)
                &&& q.prev == Some(0usize)
            },
            old(self).processes().len() > 0 ==> {
                let n = old(self).processes().len() as int;
                let q = final(self).processes()[n];
                let c = old(self).ring()[0];
                let l = old(self).ring()[n - 1];
                &&& final(self).current() == old(self).current()
                &&& q.next == Some(c)
                &&& q.prev == Some(l)
                &&& final(self).processes()[l as int].next == Some(n as usize)
                &&& final(self).processes()[c as int].prev == Some(n as usize)
            },
            forall|i: int| 0 <= i < old(self).processes().len() ==> {
                let a = #[trigger] final(self).processes()[i];
                let b = old(self).processes()[i];
                &&& a._pid == b._pid
                &&& a._active == b._active
                &&& a.pagemap == b.pagemap
                &&& a.stack == b.stack
                &&& a.rip == b.rip
                &&& a.regs@ == b.regs@
            },
    {
        let ghost ring = self.ring@;
        let n = self.processes.len();
        let mut p = p;
        match self.current {
            Some(current) => {
                let last = self.processes[current].prev.unwrap();
                p.next = Some(current);
                p.prev = Some(last);
                self.processes.push(p);
                self.processes[last].next = Some(n);
                self.processes[current].prev = Some(n);
            },
            None => {
                p.next = Some(n);
                p.prev = Some(n);
                self.processes.push(p);
                self.current = Some(n);
            },
        }
        self.ring = Ghost(ring.push(n));
    }

    /// Switches to the next process in the ring; the one that ran goes to
    /// the back.
    pub fn schedule_next(&mut self)
        requires
            old(self).wf(),
            old(self).current().is_some(),
        ensures
            final(self).wf(),
            final(self).ring() == rotate(old(self).ring()),
            final(self).processes() == old(self).processes(),
            final(self).kernel_pagemap() == old(self).kernel_pagemap(),
            final(self).kernel_rip() == old(self).kernel_rip(),
    {
        let ghost ring = self.ring@;
        let current = self.current.unwrap();
        self.current = Some(self.processes[current].next.unwrap());
        self.ring = Ghost(rotate(ring));
        proof {
            let r2 = rotate(ring);
            let n = ring.len();
            let procs = self.processes@;
            assert forall|k: int| 0 <= k < n - 1 implies procs[#[trigger] r2[k] as int].next == Some(r2[k + 1]) by {
                assert(r2[k] == ring[k + 1]);
                if k + 1 < n - 1 {
                    assert(r2[k + 1] == ring[k + 2]);
                }
            }
            assert forall|k: int| 1 <= k < n implies procs[#[trigger] r2[k] as int].prev == Some(r2[k - 1]) by {
                if k < n - 1 {
                    assert(r2[k] == ring[k + 1]);
                    assert(r2[k - 1] == ring[k]);
                }
            }
            assert forall|k: int| 0 <= k < n implies (#[trigger] r2[k]) < procs.len() by {
                if k < n - 1 {
                    assert(r2[k] == ring[k + 1]);
                }
            }
            assert(r2.no_duplicates()) by {
                assert forall|a: int, b: int| 0 <= a < n && 0 <= b < n && a != b implies r2[a] != r2[b] by {
                    let ia = if a < n - 1 { a + 1 } else { 0 };
                    let ib = if b < n - 1 { b + 1 } else { 0 };
                    assert(r2[a] == ring[ia]);
                    assert(r2[b] == ring[ib]);
                }
            }
        }
    }

    /// Register `register` saved for the current process.
    pub fn restore_register(&self, register: usize) -> (r: usize)
        requires
            self.wf(),
            self.current().is_some(),
            register < REGISTER_COUNT,
        ensures
            r == saved_register(*self, register as int),
    {
        let current = self.current.unwrap();
        self.processes[current].regs[register]
    }

    /// Saves `value` as register `register` of the current process.
    #[verifier::spinoff_prover]
    #[verifier::rlimit(30)]
    pub fn store_register(&mut self, register: usize, value: usize)
        requires
            old(self).wf(),
            old(self).current().is_some(),
            register < REGISTER_COUNT,
        ensures
            final(self).wf(),
            final(self).ring() == old(self).ring(),
            final(self).kernel_pagemap() == old(self).kernel_pagemap(),
            final(self).kernel_rip() == old(self).kernel_rip(),
            final(self).processes().len() == old(self).processes().len(),
            ({
                let c = old(self).current().unwrap() as int;
                &&& final(self).processes()[c].regs@ == old(self).processes()[c].regs@.update(register as int, value)
                &&& final(self).processes()[c].stack == old(self).processes()[c].stack
                &&& final(self).processes()[c].rip == old(self).processes()[c].rip
                &&& final(self).processes()[c].pagemap == old(self).processes()[c].pagemap
            }),
            forall|i: int| 0 <= i < old(self).processes().len() && i != old(self).current().unwrap() ==> #[trigger] final(self).processes()[i] == old(self).processes()[i],
    {
        let current = self.current.unwrap();
        let mut p = self.processes.remove(current);
        p.regs.set(register, value);
        self.processes.insert(current, p);
        proof {
            let procs = self.processes@;
            let old_procs = old(self).processes@;
            assert forall|i: int| 0 <= i < procs.len() && i != current implies procs[i] == old_procs[i] by {
            }
        }
    }

    /// The saved stack pointer of the current process.
    pub fn restore_stack(&self) -> (r: usize)
        requires
            self.wf(),
            self.current().is_some(),
        ensures
            r == saved_stack(*self),
    {
        let current = self.current.unwrap();
        self.processes[current].stack
    }

    /// Saves `value` as the stack pointer of the current process.
    #[verifier::spinoff_prover]
    #[verifier::rlimit(30)]
    pub fn store_stack(&mut self, value: usize)
        requires
            old(self).wf(),
            old(self).current().is_some(),
        ensures
            final(self).wf(),
            final(self).ring() == old(self).ring(),
            final(self).kernel_pagemap() == old(self).kernel_pagemap(),
            final(self).kernel_rip() == old(self).kernel_rip(),
            final(self).processes().len() == old(self).processes().len(),
            ({
                let c = old(self).current().unwrap() as int;
                &&& final(self).processes()[c].stack == value
                &&& final(self).processes()[c].regs@ == old(self).processes()[c].regs@
                &&& final(self).processes()[c].rip == old(self).processes()[c].rip
                &&& final(self).processes()[c].pagemap == old(self).processes()[c].pagemap
            }),
            forall|i: int| 0 <= i < old(self).processes().len() && i != old(self).current().unwrap() ==> #[trigger] final(self).processes()[i] == old(self).processes()[i],
    {
        let current = self.current.unwrap();
        let mut p = self.processes.remove(current);
        p.stack = value;
        self.processes.insert(current, p);
        proof {
            let procs = self.processes@;
            let old_procs = old(self).processes@;
            assert forall|i: int| 0 <= i < procs.len() implies (#[trigger] procs[i]).next == old_procs[i].next
                && procs[i].prev == old_procs[i].prev && procs[i].regs@.len() == REGISTER_COUNT by {
            }
            lemma_same_links(old_procs, procs, self.ring@);
        }
    }

    /// The saved instruction pointer of the current process.
    pub fn restore_rip(&self) -> (r: usize)
        requires
            self.wf(),
            self.current().is_some(),
        ensures
            r == saved_rip(*self),
    {
        let current = self.current.unwrap();
        self.processes[current].rip
    }

    /// Saves `value` as the instruction pointer of the current process.
    #[verifier::spinoff_prover]
    #[verifier::rlimit(30)]
    pub fn store_rip(&mut self, value: usize)
        requires
            old(self).wf(),
            old(self).current().is_some(),
        ensures
            final(self).wf(),
            final(self).ring() == old(self).ring(),
            final(self).kernel_pagemap() == old(self).kernel_pagemap(),
            final(self).kernel_rip() == old(self).kernel_rip(),
            final(self).processes().len() == old(self).processes().len(),
            ({
                let c = old(self).current().unwrap() as int;
                &&& final(self).processes()[c].rip == value
                &&& final(self).processes()[c].regs@ == old(self).processes()[c].regs@
                &&& final(self).processes()[c].stack == old(self).processes()[c].stack
                &&& final(self).processes()[c].pagemap == old(self).processes()[c].pagemap
            }),
            forall|i: int| 0 <= i < old(self).processes().len() && i != old(self).current().unwrap() ==> #[trigger] final(self).processes()[i] == old(self).processes()[i],
    {
        let current = self.current.unwrap();
        let mut p = self.processes.remove(current);
        p.rip = value;
        self.processes.insert(current, p);
        proof {
            let procs = self.processes@;
            let old_procs = old(self).processes@;
            assert forall|i: int| 0 <= i < procs.len() implies (#[trigger] procs[i]).next == old_procs[i].next
                && procs[i].prev == old_procs[i].prev && procs[i].regs@.len() == REGISTER_COUNT by {
            }
            lemma_same_links(old_procs, procs, self.ring@);
        }
    }

    /// The frame of the current process's level-4 page table.
    pub fn restore_pagemap(&self) -> (r: usize)
        requires
            self.wf(),
            self.current().is_some(),
        ensures
            r == self.processes()[self.current().unwrap() as int].pagemap as usize,
    {
        let current = self.current.unwrap();
        self.processes[current].pagemap as usize
    }

    /// Remembers the frame of the kernel's level-4 page table.
    pub fn store_kernel_pagemap(&mut self, pagemap: usize)
        requires
            old(self).wf(),
        ensures
            final(self).wf(),
            final(self).kernel_pagemap() == Some(pagemap),
            final(self).kernel_rip() == old(self).kernel_rip(),
            final(self).processes() == old(self).processes(),
            final(self).ring() == old(self).ring(),
    {
        self.kernel_pagemap = Some(pagemap);
    }

    /// The frame of the kernel's level-4 page table.
    pub fn restore_kernel_pagemap(&self) -> (r: usize)
        requires
            self.kernel_pagemap().is_some(),
        ensures
            r == self.kernel_pagemap().unwrap(),
    {
        self.kernel_pagemap.unwrap()
    }

    /// Remembers where the kernel resumes when a process gives up the processor.
    pub fn store_kernel_rip(&mut self, value: usize)
        requires
            old(self).wf(),
        ensures
            final(self).wf(),
            final(self).kernel_rip() == Some(value),
            final(self).kernel_pagemap() == old(self).kernel_pagemap(),
            final(self).processes() == old(self).processes(),
            final(self).ring() == old(self).ring(),
    {
        self.kernel_rip = Some(value);
    }

    /// Where the kernel resumes.
    pub fn restore_kernel_rip(&self) -> (r: usize)
        requires
            self.kernel_rip().is_some(),
        ensures
            r == self.kernel_rip().unwrap(),
    {
        self.kernel_rip.unwrap()
    }
}

/// Register `register` as saved for the current process of `s`.
pub open spec fn saved_register(s: Scheduler, register: int) -> usize {
    s.processes()[s.current().unwrap() as int].regs@[register]
}

/// The stack pointer saved for the current process of `s`.
pub open spec fn saved_stack(s: Scheduler) -> usize {
    s.processes()[s.current().unwrap() as int].stack
}

/// The instruction pointer saved for the current process of `s`.
pub open spec fn saved_rip(s: Scheduler) -> usize {
    s.processes()[s.current().unwrap() as int].rip
}

/// A register saved for the current process reads back as the value saved,
/// and its other registers, its stack and instruction pointers read back as
/// before: `store_register` followed by `restore_register`.
pub proof fn lemma_register_read_back(before: Scheduler, after: Scheduler, register: usize, value: usize, other: usize)
    requires
        before.wf(),
        after.wf(),
        before.current().is_some(),
        register < REGISTER_COUNT,
        other < REGISTER_COUNT,
        after.ring() == before.ring(),
        after.processes().len() == before.processes().len(),
        ({
            let c = before.current().unwrap() as int;
            &&& after.processes()[c].regs@ == before.processes()[c].regs@.update(register as int, value)
            &&& after.processes()[c].stack == before.processes()[c].stack
            &&& after.processes()[c].rip == before.processes()[c].rip
        }),
    ensures
        after.current() == before.current(),
        saved_register(after, register as int) == value,
        other != register ==> saved_register(after, other as int) == saved_register(before, other as int),
        saved_stack(after) == saved_stack(before),
        saved_rip(after) == saved_rip(before),
{
}

/// A stack or instruction pointer saved for the current process reads back
/// as the value saved: `store_stack` followed by `restore_stack`, and
/// `store_rip` followed by `restore_rip`.
pub proof fn lemma_pointers_read_back(before: Scheduler, after: Scheduler, stack: usize, rip: usize)
    requires
        before.wf(),
        after.wf(),
        before.current().is_some(),
        after.ring() == before.ring(),
        after.processes().len() == before.processes().len(),
        after.processes()[before.current().unwrap() as int].stack == stack,
        after.processes()[before.current().unwrap() as int].rip == rip,
    ensures
        after.current() == before.current(),
        saved_stack(after) == stack,
        saved_rip(after) == rip,
{
}

/// The ring after one switch: the first process moves to the back.
pub open spec fn rotate(ring: Seq<usize>) -> Seq<usize> {
    ring.skip(1).push(ring[0])
}

/// The ring after `k` switches.
pub open spec fn rotate_times(ring: Seq<usize>, k: nat) -> Seq<usize>
    decreases k,
{
    if k == 0 {
        ring
    } else {
        rotate(rotate_times(ring, (k - 1) as nat))
    }
}

proof fn lemma_rotate_split(ring: Seq<usize>, k: nat)
    requires
        0 < ring.len(),
        k <= ring.len(),
    ensures
        rotate_times(ring, k) == ring.skip(k as int) + ring.take(k as int),
    decreases k,
{
    if k == 0 {
        assert(ring.skip(0) + ring.take(0) =~= ring);
    } else {
        lemma_rotate_split(ring, (k - 1) as nat);
        let prev = rotate_times(ring, (k - 1) as nat);
        assert(prev[0] == ring[k - 1]);
        assert(rotate(prev) =~= ring.skip(k as int) + ring.take(k as int));
    }
}

/// After `k` switches the ring is the old one turned by `k` places: the
/// process `k` places behind the current one runs, and after one switch per
/// process the ring is back where it started.
pub proof fn lemma_round_robin(ring: Seq<usize>, k: nat)
    requires
        0 < ring.len(),
        k <= ring.len(),
    ensures
        rotate_times(ring, k) == ring.skip(k as int) + ring.take(k as int),
        k < ring.len() ==> rotate_times(ring, k)[0] == ring[k as int],
        rotate_times(ring, ring.len()) == ring,
{
    lemma_rotate_split(ring, k);
    lemma_rotate_split(ring, ring.len());
    assert(ring.skip(ring.len() as int) + ring.take(ring.len() as int) =~= ring);
    if k < ring.len() {
        assert((ring.skip(k as int) + ring.take(k as int))[0] == ring[k as int]);
    }
}

proof fn lemma_rotate_add(ring: Seq<usize>, a: nat, b: nat)
    ensures
        rotate_times(ring, a + b) == rotate_times(rotate_times(ring, a), b),
    decreases b,
{
    if b > 0 {
        lemma_rotate_add(ring, a, (b - 1) as nat);
        assert(rotate_times(ring, a + b) == rotate(rotate_times(ring, (a + b - 1) as nat)));
    }
}

/// However many switches there are, the ring after `k` of them is the ring
/// after `k % n` of them, for a ring of `n` processes: the process `k % n`
/// places behind the first one runs, and each process runs once in every `n`
/// consecutive switches.
pub proof fn lemma_round_robin_forever(ring: Seq<usize>, k: nat)
    requires
        0 < ring.len(),
    ensures
        rotate_times(ring, k) == rotate_times(ring, k % ring.len()),
        rotate_times(ring, k)[0] == ring[(k % ring.len()) as int],
    decreases k,
{
    let n = ring.len();
    if k < n {
        assert(k % n == k) by (nonlinear_arith)
            requires k < n;
    } else {
        lemma_rotate_add(ring, n, (k - n) as nat);
        lemma_round_robin(ring, n);
        lemma_round_robin_forever(ring, (k - n) as nat);
        assert(((k - n) as nat) % n == k % n) by (nonlinear_arith)
            requires k >= n, n > 0;
    }
    lemma_round_robin(ring, k % n);
}

/// In a ring of processes the links go both ways: the process after each
/// one has it as the one before, and the process before each one has it as
/// the one after.
pub proof fn lemma_ring_links(s: Scheduler, k: int)
    requires
        s.wf(),
        0 <= k < s.ring().len(),
    ensures
        ({
            let n = s.ring().len() as int;
            let q = s.ring()[k];
            let next = s.ring()[(k + 1) % n];
            let prev = s.ring()[(k + n - 1) % n];
            &&& s.processes()[q as int].next == Some(next)
            &&& s.processes()[next as int].prev == Some(q)
            &&& s.processes()[q as int].prev == Some(prev)
            &&& s.processes()[prev as int].next == Some(q)
        }),
{
    let n = s.ring().len() as int;
    if k + 1 < n {
        assert((k + 1) % n == k + 1) by (nonlinear_arith)
            requires 0 <= k, k + 1 < n;
        assert(s.ring()[k + 1] == s.ring()[(k + 1) % n]);
    } else {
        assert((k + 1) % n == 0) by (nonlinear_arith)
            requires k + 1 == n, n > 0;
    }
    if k >= 1 {
        assert((k + n - 1) % n == k - 1) by (nonlinear_arith)
            requires 1 <= k < n;
        assert(s.ring()[k - 1] == s.ring()[(k + n - 1) % n]);
    } else {
        assert((k + n - 1) % n == n - 1) by (nonlinear_arith)
            requires k == 0, n > 0;
    }
}

/// Where a process's code is mapped, and where it starts running.
pub const PROCESS_ENTRY: u64 = 0x2000;

/// Where a process's own `Process` page is mapped.
pub const PROCESS_PAGE: u64 = 0x1000;

/// Number of stack pages a process gets, mapped right after its code.
pub const STACK_PAGES: u64 = 8;

/// Present, writable and accessible from user mode.
pub const USER_PAGE_FLAGS: u64 = 7;

/// The bits of a physical address that name its frame.
pub const FRAME_MASK: u64 = 0x0000FFFFFFFFF000;

/// Takes a frame from the free list for a process's level-4 table and fills
/// it with a copy of the kernel's table in the frame `kernel_pagemap`, with
/// the entry for the lowest 512 GiB cleared.
pub fn create_new_pagemap(memory: &mut Memory, kernel_pagemap: u64) -> (r: Option<u64>)
    requires
        old(memory).wf(),
        old(memory).frames_fresh(),
        old(memory).tables().contains_key(kernel_pagemap),
    ensures
        final(memory).wf(),
        final(memory).frames_fresh(),
        final(memory).hhdm_offset() == old(memory).hhdm_offset(),
        match r {
            Some(p) => {
                &&& old(memory).free_frames().len() > 0
                &&& p == old(memory).free_frames().last()
                &&& !old(memory).tables().contains_key(p)
                &&& final(memory).free_frames() == old(memory).free_frames().drop_last()
                &&& final(memory).tables() == old(memory).tables().insert(
                    p,
                    old(memory).tables()[kernel_pagemap].update(0, 0),
                )
            },
            None => {
                &&& old(memory).free_frames().len() == 0
                &&& final(memory).free_frames() == old(memory).free_frames()
                &&& final(memory).tables() == old(memory).tables()
            },
        },
{
    let pagemap = match allocate(memory) {
        Ok(p) => p,
        Err(_) => {
            return None;
        },
    };
    proof {
        let of = old(memory).free_frames();
        assert(of[of.len() - 1] == pagemap);
    }
    memory.copy_table(pagemap, kernel_pagemap);
    memory.write_entry(pagemap, 0, 0);
    proof {
        let f = memory.free_frames();
        let of = old(memory).free_frames();
        assert(memory.tables() =~= old(memory).tables().insert(pagemap, old(memory).tables()[kernel_pagemap].update(0, 0)));
        assert forall|i: int| 0 <= i < f.len() implies !memory.tables().contains_key(#[trigger] f[i]) by {
            assert(f[i] == of[i]);
            assert(of[of.len() - 1] == pagemap);
        }
    }
    Some(pagemap)
}

/// The virtual address of the `k`-th page of a process: its code pages
/// first, then its stack pages.
pub open spec fn process_vaddr(k: int) -> u64 {
    (PROCESS_ENTRY + 0x1000 * k) as u64
}

/// The frame of the `k`-th 4096-byte chunk of an image at `image_addr`.
pub open spec fn image_frame(image_addr: u64, k: int) -> u64 {
    ((image_addr + 4096 * k) as u64) & FRAME_MASK
}

/// The stack pointer a process with an image of `image_len` bytes starts
/// with: near the top of its eight stack pages.
pub open spec fn initial_stack(image_len: usize) -> usize {
    (PROCESS_ENTRY + (image_len & !0xFFFusize) + 0x7f00) as usize
}

/// The initial stack pointer is `0x7f00` past the start of the page that
/// holds the image's last byte (past the whole pages of the image): above
/// the image's own pages and inside the eight stack pages after them.
pub proof fn lemma_initial_stack(image_len: usize)
    requires
        image_len + 0x9f00 <= usize::MAX,
    ensures
        initial_stack(image_len) == 0x2000 + (image_len / 4096) * 4096 + 0x7f00,
        0x2000 + 0x1000 * image_pages(image_len) <= initial_stack(image_len),
        initial_stack(image_len) < 0x2000 + 0x1000 * (image_pages(image_len) + 8),
{
    assert((image_len & !0xFFFusize) == (image_len / 4096) * 4096) by (bit_vector);
    assert((image_len / 4096) * 4096 <= image_len) by (nonlinear_arith);
    assert(image_pages(image_len) == (image_len + 4095) / 4096);
    assert(0x1000 * ((image_len + 4095) / 4096) <= (image_len / 4096) * 4096 + 0x1000) by (nonlinear_arith);
    assert((image_len / 4096) * 4096 <= 0x1000 * ((image_len + 4095) / 4096)) by (nonlinear_arith);
}

/// Number of 4096-byte chunks of an image of `image_len` bytes.
pub open spec fn image_pages(image_len: usize) -> int {
    (image_len + 4095) / 4096
}

/// A process with an image of `image_len` bytes at `image_addr` fits: the
/// image's addresses, its pages and its stack all lie below the first
/// level-4 entry's 512 GiB, and the stack pointer is a `usize`.
pub open spec fn process_fits(image_addr: u64, image_len: usize) -> bool {
    &&& image_addr + image_len <= u64::MAX
    &&& PROCESS_ENTRY + 0x1000 * (image_pages(image_len) + STACK_PAGES) <= 0x80_0000_0000
    &&& image_len + 0x9f00 <= usize::MAX
}

/// The tables `map_to` creates for page `p` when pages 2 to `p - 1` are
/// mapped already: a level-1 table at the start of each 2 MiB, and a
/// level-2 table too at the start of each 1 GiB.
pub open spec fn new_tables(p: int) -> int {
    (if p % 512 == 0 { 1int } else { 0int }) + (if p % 262144 == 0 { 1int } else { 0int })
}

/// The tables created while mapping pages 2 to `hi` in order into an empty
/// tree below entry 0: three for the first page, then `new_tables`.
pub open spec fn tables_for(hi: int) -> int
    decreases hi,
{
    if hi < 2 {
        0
    } else if hi == 2 {
        3
    } else {
        tables_for(hi - 1) + new_tables(hi)
    }
}

/// The frames `create_process` takes for an image of `image_len` bytes: the
/// level-4 table, the lower tables for its pages (three, plus one more for
/// each 2 MiB and 1 GiB boundary crossed), eight stack pages and the
/// process page.
pub open spec fn process_frames(image_len: usize) -> int {
    let hi = image_pages(image_len) + STACK_PAGES + 1;
    13 + hi / 512 + hi / 262144
}

proof fn lemma_tables_for(hi: int)
    requires
        hi >= 2,
    ensures
        tables_for(hi) == 3 + hi / 512 + hi / 262144,
    decreases hi,
{
    if hi > 2 {
        lemma_tables_for(hi - 1);
        assert(hi / 512 == (hi - 1) / 512 + (if hi % 512 == 0 { 1int } else { 0int })) by (nonlinear_arith)
            requires hi >= 3;
        assert(hi / 262144 == (hi - 1) / 262144 + (if hi % 262144 == 0 { 1int } else { 0int })) by (nonlinear_arith)
            requires hi >= 3;
    }
}

/// The indices of the page numbered `p` (below 2^27): level 4 is 0, level 3
/// is `p / 2^18`, level 2 is `(p / 512) % 512` and level 1 is `p % 512`.
proof fn lemma_page_indices(p: u64)
    requires
        p < 0x800_0000,
    ensures
        l4_index((p * 4096) as u64) == 0,
        crate::memory::l3_index((p * 4096) as u64) == p / 262144,
        crate::memory::l2_index((p * 4096) as u64) == (p / 512) % 512,
        crate::memory::l1_index((p * 4096) as u64) == p % 512,
{
    assert(p < 0x800_0000 ==> (((p * 4096) as u64) >> 39u64) & 0x1FFu64 == 0) by (bit_vector);
    assert(p < 0x800_0000 ==> (((p * 4096) as u64) >> 30u64) & 0x1FFu64 == p / 262144) by (bit_vector);
    assert(p < 0x800_0000 ==> (((p * 4096) as u64) >> 21u64) & 0x1FFu64 == (p / 512) % 512) by (bit_vector);
    assert(p < 0x800_0000 ==> (((p * 4096) as u64) >> 12u64) & 0x1FFu64 == p % 512) by (bit_vector);
}

/// The pages 2 to `hi` and no others are mapped in the tree below entry 0 of
/// `root`, as far as its level-3 and level-2 entries show: entry 0 is
/// present once a page is, a level-3 entry is present for each 1 GiB up to
/// the one of `hi`, and a level-2 entry for each 2 MiB up to the one of `hi`.
pub open spec fn pages_mapped_to(t: Map<u64, Seq<u64>>, root: u64, hi: int) -> bool {
    let t3 = frame_of(t[root][0]);
    &&& (hi >= 2 <==> present(t[root][0]))
    &&& hi >= 2 ==> forall|g: int| 0 <= g < 512 ==> (present(#[trigger] t[t3][g]) <==> g <= hi / 262144)
    &&& hi >= 2 ==> forall|g: int, b: int|
        0 <= g < 512 && 0 <= b < 512 && present(t[t3][g]) ==> (present(#[trigger] t[frame_of(t[t3][g])][b])
            <==> g * 512 + b <= hi / 512)
}

proof fn lemma_floor_step(p: int, d: int)
    requires
        p >= 1,
        d >= 2,
    ensures
        (p - 1) / d <= p / d <= (p - 1) / d + 1,
        p / d <= (p - 1) / d <==> p % d != 0,
{
    assert((p - 1) / d <= p / d <= (p - 1) / d + 1) by (nonlinear_arith)
        requires p >= 1, d >= 2;
    assert(p / d <= (p - 1) / d <==> p % d != 0) by (nonlinear_arith)
        requires p >= 1, d >= 2;
}

/// With pages 2 to `hi` mapped, page `hi + 1` needs `new_tables` new
/// tables, three for the first page.
proof fn lemma_pages_need(t: Map<u64, Seq<u64>>, root: u64, a3: Set<u64>, a2: Set<u64>, a1: Set<u64>, hi: int)
    requires
        low_tree(t, root, a3, a2, a1),
        pages_mapped_to(t, root, hi),
        1 <= hi,
        hi + 1 < 0x800_0000,
    ensures
        tables_to_create(t, root, ((hi + 1) * 4096) as u64) == if hi == 1 { 3 } else { new_tables(hi + 1) },
{
    let p = hi + 1;
    let v = (p * 4096) as u64;
    lemma_page_indices(p as u64);
    let l3 = p / 262144;
    let l2 = (p / 512) % 512;
    assert(p / 512 == l3 * 512 + l2) by (nonlinear_arith)
        requires p >= 0, l3 == p / 262144, l2 == (p / 512) % 512;
    lemma_floor_step(p, 512);
    lemma_floor_step(p, 262144);
    assert(p % 262144 == 0 ==> p % 512 == 0) by (nonlinear_arith)
        requires p >= 0;
    let (e4, e3, e2, e1) = walk_entries(t, root, v);
    if hi >= 2 {
        assert(present(e3) <==> l3 <= hi / 262144);
        if present(e3) {
            assert(present(e2) <==> l3 * 512 + l2 <= hi / 512);
        }
    }
}

/// Mapping page `hi + 1` after pages 2 to `hi` creates `new_tables`
/// tables (three for the first page), and then pages 2 to `hi + 1` are
/// mapped.
proof fn lemma_pages_step(
    before: Map<u64, Seq<u64>>,
    after: Map<u64, Seq<u64>>,
    root: u64,
    a3: Set<u64>,
    a2: Set<u64>,
    a1: Set<u64>,
    b3: Set<u64>,
    b2: Set<u64>,
    b1: Set<u64>,
    hi: int,
    entry: u64,
)
    requires
        low_tree(before, root, a3, a2, a1),
        low_tree(after, root, b3, b2, b1),
        pages_mapped_to(before, root, hi),
        1 <= hi,
        hi + 1 < 0x800_0000,
        forall|x: u64| #[trigger] before.contains_key(x) ==> after.contains_key(x),
        only_walk_changed(before, after, root, ((hi + 1) * 4096) as u64),
        mapped_walk(before, after, root, ((hi + 1) * 4096) as u64, entry),
        ({
            let (f4, f3, f2, f1) = walk_entries(after, root, ((hi + 1) * 4096) as u64);
            &&& b3 == a3.insert(frame_of(f4))
            &&& b2 == a2.insert(frame_of(f3))
            &&& b1 == a1.insert(frame_of(f2))
        }),
    ensures
        pages_mapped_to(after, root, hi + 1),
        tables_to_create(before, root, ((hi + 1) * 4096) as u64) == if hi == 1 {
            3
        } else {
            new_tables(hi + 1)
        },
{
    let p = hi + 1;
    let v = (p * 4096) as u64;
    lemma_page_indices(p as u64);
    crate::memory::lemma_indices(v);
    let l3 = p / 262144;
    let l2 = (p / 512) % 512;
    assert(p / 512 == l3 * 512 + l2) by (nonlinear_arith)
        requires p >= 0, l3 == p / 262144, l2 == (p / 512) % 512;
    lemma_floor_step(p, 512);
    lemma_floor_step(p, 262144);
    assert(p % 262144 == 0 ==> p % 512 == 0) by (nonlinear_arith)
        requires p >= 0;
    let (e4, e3, e2, e1) = walk_entries(before, root, v);
    let (f4, f3, f2, f1) = walk_entries(after, root, v);
    let t3 = frame_of(f4);
    let t2 = frame_of(f3);
    let t1 = frame_of(f2);
    assert(b3.contains(t3) && b2.contains(t2) && b1.contains(t1));
    assert(after[root][0] == f4);
    if hi >= 2 {
        assert(f4 == e4);
        assert(present(e3) <==> l3 <= hi / 262144);
        if present(e3) {
            assert(present(e2) <==> l3 * 512 + l2 <= hi / 512);
        }
    }
    // Level-3 entries.
    assert forall|g: int| 0 <= g < 512 implies (present(#[trigger] after[t3][g]) <==> g <= p / 262144) by {
        assert(!present(0u64)) by (bit_vector);
        if g != l3 {
            assert(!walk_slot(after, root, v, t3, g));
            if before.contains_key(t3) {
                assert(hi >= 2);
                assert(after[t3][g] == before[t3][g]);
            } else {
                assert(after[t3][g] == 0);
            }
        }
    }
    // Level-2 entries.
    assert forall|g: int, b: int|
        0 <= g < 512 && 0 <= b < 512 && present(after[t3][g]) implies (present(
            #[trigger] after[frame_of(after[t3][g])][b],
        ) <==> g * 512 + b <= p / 512) by {
        assert(!present(0u64)) by (bit_vector);
        if g == l3 {
            if b != l2 {
                assert(g * 512 + b != p / 512);
                assert(!walk_slot(after, root, v, t2, b));
                if before.contains_key(t2) {
                    assert(hi >= 2 && present(e3));
                    assert(after[t2][b] == before[t2][b]);
                } else {
                    assert(after[t2][b] == 0);
                    assert(hi == 1 || !present(e3) || (present(e3) && false));
                }
            }
        } else {
            assert(hi >= 2);
            assert(after[t3][g] == before[t3][g]);
            let x = frame_of(before[t3][g]);
            assert(a2.contains(x));
            if before.contains_key(t2) {
                assert(present(e3));
                assert(x != t2);
            }
            assert(!walk_slot(after, root, v, x, b));
            assert(after[x][b] == before[x][b]);
            assert(g * 512 + b != p / 512) by (nonlinear_arith)
                requires g != l3, 0 <= b < 512, p / 512 == l3 * 512 + ((p / 512) % 512), 0 <= (p / 512) % 512 < 512;
        }
    }
}

/// Mapping page `hi + 1` after pages 2 to `hi` adds the tables that
/// `lemma_pages_need` counts.
proof fn lemma_tables_for_step(hi: int)
    requires
        hi >= 1,
    ensures
        tables_for(hi + 1) == tables_for(hi) + if hi == 1 { 3 } else { new_tables(hi + 1) },
        0 <= tables_for(hi) <= tables_for(hi + 1),
{
    if hi >= 2 {
        lemma_tables_for(hi);
    }
}

proof fn lemma_tables_for_monotone(h: int, k: int)
    requires
        1 <= h <= k,
    ensures
        0 <= tables_for(h) <= tables_for(k),
{
    if h >= 2 {
        lemma_tables_for(h);
        lemma_tables_for(k);
        assert(h / 512 <= k / 512 && h / 262144 <= k / 262144) by (nonlinear_arith)
            requires 2 <= h <= k;
    } else if k >= 2 {
        lemma_tables_for(k);
    }
}

/// The page of `v` in the tables rooted at `root` maps to `frame`, through a
/// level-1 entry of `frame` with the user flags.
pub open spec fn user_mapped(t: Map<u64, Seq<u64>>, root: u64, v: u64, frame: u64) -> bool {
    &&& translate(t, root, v) == Some(frame)
    &&& walk_entries(t, root, v).3 == frame | USER_PAGE_FLAGS
}

/// Where in a free list of `n` frames `create_process` takes the frame for
/// stack page `s` of an image of `image_len` bytes: after the level-4 table,
/// the tables for the pages before it and the stack pages before it.
pub open spec fn stack_slot(image_len: usize, n: int, s: int) -> int {
    n - 2 - tables_for(image_pages(image_len) + s + 1) - s
}

/// Where in a free list of `n` frames `create_process` takes the frame for
/// the process page: the last of the frames it takes.
pub open spec fn process_slot(image_len: usize, n: int) -> int {
    n - process_frames(image_len)
}

proof fn lemma_stack_slots(image_len: usize, n: int)
    ensures
        forall|s: int| 0 <= s < STACK_PAGES ==> process_slot(image_len, n) < #[trigger] stack_slot(image_len, n, s) < n,
        forall|s1: int, s2: int|
            0 <= s1 < s2 < STACK_PAGES ==> #[trigger] stack_slot(image_len, n, s2) < #[trigger] stack_slot(image_len, n, s1),
{
    let c = image_pages(image_len);
    assert(c >= 0);
    lemma_tables_for(c + STACK_PAGES + 1);
    assert forall|s: int| 0 <= s < STACK_PAGES implies process_slot(image_len, n) < #[trigger] stack_slot(image_len, n, s) < n by {
        lemma_tables_for_monotone(c + s + 1, c + STACK_PAGES + 1);
    }
    assert forall|s1: int, s2: int| 0 <= s1 < s2 < STACK_PAGES implies #[trigger] stack_slot(image_len, n, s2)
        < #[trigger] stack_slot(image_len, n, s1) by {
        lemma_tables_for_monotone(c + s1 + 1, c + s2 + 1);
    }
}

/// A frame of `fs` past its first `len` frames is not among them.
proof fn lemma_not_in_prefix(fs: Seq<u64>, len: int, idx: int)
    requires
        fs.no_duplicates(),
        0 <= len <= idx < fs.len(),
    ensures
        !fs.subrange(0, len).contains(fs[idx]),
{
    if fs.subrange(0, len).contains(fs[idx]) {
        let k = fs.subrange(0, len).index_of(fs[idx]);
        assert(fs[k] == fs[idx]);
    }
}

/// A `map_to` into a process's own tables leaves the tables that existed
/// before the process was created as they were, and the tables of its walk
/// are none of them.
proof fn lemma_map_keeps_old(
    before: Map<u64, Seq<u64>>,
    after: Map<u64, Seq<u64>>,
    old_t: Map<u64, Seq<u64>>,
    fs: Seq<u64>,
    len: int,
    free_before: Seq<u64>,
    free_after: Seq<u64>,
    pagemap: u64,
    a3: Set<u64>,
    a2: Set<u64>,
    a1: Set<u64>,
    vaddr: u64,
)
    requires
        forall|t: u64| #[trigger] old_t.contains_key(t) ==> before.contains_key(t) && before[t] == old_t[t],
        forall|t: u64| #[trigger] before.contains_key(t) ==> before[t].len() == 512,
        forall|t: u64| #[trigger] after.contains_key(t) ==> after[t].len() == 512,
        !old_t.contains_key(pagemap),
        forall|x: u64| #[trigger] a3.contains(x) ==> !old_t.contains_key(x),
        forall|x: u64| #[trigger] a2.contains(x) ==> !old_t.contains_key(x),
        forall|x: u64| #[trigger] a1.contains(x) ==> !old_t.contains_key(x),
        forall|j: int| 0 <= j < fs.len() ==> !old_t.contains_key(#[trigger] fs[j]),
        0 <= len <= fs.len(),
        free_before == fs.subrange(0, len),
        forall|t: u64|
            #[trigger] after.contains_key(t) <==> (before.contains_key(t) || (free_before.contains(t)
                && !free_after.contains(t))),
        only_walk_changed(before, after, pagemap, vaddr),
        walk_defined(after, pagemap, vaddr),
        ({
            let (f4, f3, f2, f1) = walk_entries(after, pagemap, vaddr);
            &&& present(f4) && present(f3) && present(f2)
            &&& before.contains_key(frame_of(f4)) ==> a3.contains(frame_of(f4))
            &&& before.contains_key(frame_of(f3)) ==> a2.contains(frame_of(f3))
            &&& before.contains_key(frame_of(f2)) ==> a1.contains(frame_of(f2))
        }),
    ensures
        forall|t: u64| #[trigger] old_t.contains_key(t) ==> after.contains_key(t) && after[t] == old_t[t],
        ({
            let (f4, f3, f2, f1) = walk_entries(after, pagemap, vaddr);
            &&& !old_t.contains_key(frame_of(f4))
            &&& !old_t.contains_key(frame_of(f3))
            &&& !old_t.contains_key(frame_of(f2))
        }),
{
    let (f4, f3, f2, f1) = walk_entries(after, pagemap, vaddr);
    assert forall|x: u64| after.contains_key(x) && !before.contains_key(x) implies !old_t.contains_key(x) by {
        assert(free_before.contains(x));
        let k = free_before.index_of(x);
        assert(fs[k] == x);
    }
    assert forall|t: u64| #[trigger] old_t.contains_key(t) implies after.contains_key(t) && after[t] == old_t[t] by {
        assert(before.contains_key(t));
        assert(after.contains_key(t));
        assert(after[t].len() == 512 && before[t].len() == 512);
        assert forall|i: int| 0 <= i < 512 implies after[t][i] == before[t][i] by {
            assert(!walk_slot(after, pagemap, vaddr, t, i));
        }
        assert(after[t] =~= before[t]);
    }
}

/// Once pages 2 to `hi` are mapped, page 1 needs no new table.
proof fn lemma_first_page_ready(t: Map<u64, Seq<u64>>, root: u64, hi: int)
    requires
        pages_mapped_to(t, root, hi),
        hi >= 2,
    ensures
        tables_to_create(t, root, PROCESS_PAGE) == 0,
{
    lemma_page_indices(1);
    assert(PROCESS_PAGE == (1u64 * 4096) as u64);
    assert(0 <= hi / 262144 && 0 <= hi / 512) by (nonlinear_arith)
        requires hi >= 2;
    let t3 = frame_of(t[root][0]);
    assert(present(t[t3][0]));
    assert(present(t[frame_of(t[t3][0])][0]));
}

/// Addresses below 512 GiB use entry 0 of the level-4 table, and two of them
/// on different pages differ in some lower index.
proof fn lemma_low_pages(u: u64, v: u64)
    requires
        u < 0x80_0000_0000,
        v < 0x80_0000_0000,
        u % 4096 == 0,
        v % 4096 == 0,
    ensures
        l4_index(u) == 0,
        u != v ==> other_low_page(u, v),
{
    assert(u < 0x80_0000_0000 ==> (u >> 39u64) & 0x1FFu64 == 0) by (bit_vector);
    assert(v < 0x80_0000_0000 ==> (v >> 39u64) & 0x1FFu64 == 0) by (bit_vector);
    assert(u < 0x80_0000_0000 && v < 0x80_0000_0000 && u % 4096 == 0 && v % 4096 == 0
        && (u >> 30u64) & 0x1FFu64 == (v >> 30u64) & 0x1FFu64 && (u >> 21u64) & 0x1FFu64 == (v >> 21u64) & 0x1FFu64
        && (u >> 12u64) & 0x1FFu64 == (v >> 12u64) & 0x1FFu64 ==> u == v) by (bit_vector);
}

proof fn lemma_process_vaddr(k: int)
    requires
        0 <= k,
        PROCESS_ENTRY + 0x1000 * k < 0x80_0000_0000,
    ensures
        process_vaddr(k) == PROCESS_ENTRY + 0x1000 * k,
        process_vaddr(k) % 4096 == 0,
{
    assert((0x2000 + 0x1000 * k) % 4096 == 0) by (nonlinear_arith)
        requires k >= 0;
}

/// One `map_to` of a page below 512 GiB, seen from the tree below entry 0:
/// the tree grows by the walk's tables, the other entries of the level-4
/// table stay, every other page mapped before keeps its frame, and the page
/// is mapped to the frame of `entry`.
proof fn lemma_process_map(
    before: Map<u64, Seq<u64>>,
    after: Map<u64, Seq<u64>>,
    pagemap: u64,
    a3: Set<u64>,
    a2: Set<u64>,
    a1: Set<u64>,
    vaddr: u64,
    entry: u64,
) -> (sets: (Set<u64>, Set<u64>, Set<u64>))
    requires
        low_tree(before, pagemap, a3, a2, a1),
        vaddr < 0x80_0000_0000,
        vaddr % 4096 == 0,
        present(entry),
        forall|x: u64| #[trigger] before.contains_key(x) ==> after.contains_key(x),
        walk_defined(after, pagemap, vaddr),
        only_walk_changed(before, after, pagemap, vaddr),
        mapped_walk(before, after, pagemap, vaddr, entry),
    ensures
        low_tree(after, pagemap, sets.0, sets.1, sets.2),
        ({
            let (f4, f3, f2, f1) = walk_entries(after, pagemap, vaddr);
            sets == (a3.insert(frame_of(f4)), a2.insert(frame_of(f3)), a1.insert(frame_of(f2)))
        }),
        forall|i: int| 1 <= i < 512 ==> after[pagemap][i] == before[pagemap][i],
        forall|u: u64|
            u < 0x80_0000_0000 && u % 4096 == 0 && u != vaddr && (#[trigger] translate(before, pagemap, u)).is_some()
                ==> walk_entries(after, pagemap, u) == walk_entries(before, pagemap, u),
        forall|u: u64|
            u < 0x80_0000_0000 && u % 4096 == 0 && u != vaddr && (#[trigger] translate(after, pagemap, u)).is_some()
                ==> translate(before, pagemap, u).is_some(),
        translate(after, pagemap, vaddr) == Some(frame_of(entry)),
        walk_entries(after, pagemap, vaddr).3 == entry,
        ({
            let (f4, f3, f2, f1) = walk_entries(after, pagemap, vaddr);
            &&& before.contains_key(frame_of(f4)) ==> a3.contains(frame_of(f4))
            &&& before.contains_key(frame_of(f3)) ==> a2.contains(frame_of(f3))
            &&& before.contains_key(frame_of(f2)) ==> a1.contains(frame_of(f2))
        }),
{
    lemma_low_pages(vaddr, vaddr);
    crate::memory::lemma_indices(vaddr);
    let (e4, e3, e2, e1) = walk_entries(before, pagemap, vaddr);
    let (f4, f3, f2, f1) = walk_entries(after, pagemap, vaddr);
    lemma_low_tree_map(before, after, pagemap, a3, a2, a1, vaddr, entry);
    if before.contains_key(frame_of(f4)) {
        assert(present(e4));
        assert(a3.contains(frame_of(f4)));
    }
    if before.contains_key(frame_of(f3)) {
        assert(present(e4) && present(e3));
        assert(a2.contains(frame_of(f3)));
    }
    if before.contains_key(frame_of(f2)) {
        assert(present(e4) && present(e3) && present(e2));
        assert(a1.contains(frame_of(f2)));
    }
    let sets = (a3.insert(frame_of(f4)), a2.insert(frame_of(f3)), a1.insert(frame_of(f2)));
    assert forall|i: int| 1 <= i < 512 implies after[pagemap][i] == before[pagemap][i] by {
        assert(sets.0.contains(frame_of(f4)) && sets.1.contains(frame_of(f3)) && sets.2.contains(frame_of(f2)));
        assert(!walk_slot(after, pagemap, vaddr, pagemap, i));
    }
    assert forall|u: u64|
        u < 0x80_0000_0000 && u % 4096 == 0 && u != vaddr && (#[trigger] translate(before, pagemap, u)).is_some()
            implies walk_entries(after, pagemap, u) == walk_entries(before, pagemap, u) by {
        lemma_low_pages(u, vaddr);
        lemma_low_tree_keeps(before, after, pagemap, a3, a2, a1, vaddr, entry, u);
    }
    assert forall|u: u64|
        u < 0x80_0000_0000 && u % 4096 == 0 && u != vaddr && (#[trigger] translate(after, pagemap, u)).is_some()
            implies translate(before, pagemap, u).is_some() by {
        lemma_low_pages(u, vaddr);
        crate::memory::lemma_low_tree_no_new(before, after, pagemap, a3, a2, a1, vaddr, entry, u);
    }
    sets
}

/// Below 512 GiB, the tables rooted at `root` map only the `n` pages from
/// `PROCESS_ENTRY` on, and the process page where `process_page` holds.
pub open spec fn low_mapped_within(t: Map<u64, Seq<u64>>, root: u64, n: int, process_page: bool) -> bool {
    forall|u: u64|
        u < 0x80_0000_0000 && u % 4096 == 0 && (#[trigger] translate(t, root, u)).is_some() ==> (PROCESS_ENTRY <= u
            < PROCESS_ENTRY + 0x1000 * n) || (process_page && u == PROCESS_PAGE)
}

proof fn lemma_user_entry(frame: u64)
    ensures
        present((frame & FRAME_MASK) | USER_PAGE_FLAGS),
        frame_of((frame & FRAME_MASK) | USER_PAGE_FLAGS) == frame & FRAME_MASK,
        (frame & FRAME_MASK) % 4096 == 0,
{
    assert(((frame & 0x0000FFFFFFFFF000u64) | 7u64) & 1u64 != 0) by (bit_vector);
    assert((((frame & 0x0000FFFFFFFFF000u64) | 7u64) & !0xFFFu64) == frame & 0x0000FFFFFFFFF000u64) by (bit_vector);
    assert((frame & 0x0000FFFFFFFFF000u64) % 4096 == 0) by (bit_vector);
}

/// Creates a process from the image of `image_len` bytes at `image_addr`:
/// a new level-4 table copied from the kernel's at `kernel_pagemap`, the
/// image's chunks mapped from `PROCESS_ENTRY` on, eight fresh stack pages
/// after them, and a fresh page for the process at `PROCESS_PAGE`, each
/// mapped with the user flags. The page tables that existed before are left
/// as they were. The process joins the ring just before the current one.
/// `None` where the free list ran out.
pub fn create_process(
    scheduler: &mut Scheduler,
    memory: &mut Memory,
    kernel_pagemap: u64,
    image_addr: u64,
    image_len: usize,
) -> (r: Option<()>)
    requires
        old(scheduler).wf(),
        old(scheduler).processes().len() < usize::MAX,
        old(memory).wf(),
        old(memory).frames_fresh(),
        old(memory).tables().contains_key(kernel_pagemap),
        process_fits(image_addr, image_len),
    ensures
        final(memory).wf(),
        final(memory).frames_fresh(),
        final(memory).hhdm_offset() == old(memory).hhdm_offset(),
        final(scheduler).wf(),
        r.is_some() <==> old(memory).free_frames().len() >= process_frames(image_len),
        r.is_none() ==> final(memory).free_frames().len() == 0 && *final(scheduler) == *old(scheduler),
        r.is_some() ==> ({
            let n = old(scheduler).processes().len() as int;
            let p = final(scheduler).processes()[n];
            let t = final(memory).tables();
            let f = old(memory).free_frames();
            let c = image_pages(image_len);
            &&& final(memory).free_frames() == f.subrange(0, f.len() - process_frames(image_len))
            &&& final(scheduler).processes().len() == n + 1
            &&& final(scheduler).ring() == old(scheduler).ring().push(n as usize)
            &&& n == 0 ==> final(scheduler).current() == Some(0usize) && p.next == Some(0usize) && p.prev == Some(0usize)
            &&& n > 0 ==> {
                let c = old(scheduler).ring()[0];
                let l = old(scheduler).ring()[n - 1];
                &&& final(scheduler).current() == old(scheduler).current()
                &&& p.next == Some(c)
                &&& p.prev == Some(l)
                &&& final(scheduler).processes()[l as int].next == Some(n as usize)
                &&& final(scheduler).processes()[c as int].prev == Some(n as usize)
            }
            &&& p._pid == 1
            &&& p._active == None::<u64>
            &&& p.rip == PROCESS_ENTRY
            &&& p.stack == initial_stack(image_len)
            &&& p.stack == PROCESS_ENTRY + (image_len / 4096) * 4096 + 0x7f00
            &&& p.regs@ == Seq::new(REGISTER_COUNT as nat, |i: int| 0usize)
            &&& p.pagemap == f.last()
            &&& !old(memory).tables().contains_key(p.pagemap)
            &&& t[p.pagemap][0] != 0
            &&& forall|i: int| 1 <= i < 512 ==> t[p.pagemap][i] == old(memory).tables()[kernel_pagemap][i]
            &&& forall|x: u64| #[trigger] old(memory).tables().contains_key(x)
                ==> t.contains_key(x) && t[x] == old(memory).tables()[x]
            &&& forall|k: int| 0 <= k < c ==> user_mapped(t, p.pagemap, #[trigger] process_vaddr(k), image_frame(image_addr, k))
            &&& forall|s: int| 0 <= s < STACK_PAGES ==> user_mapped(
                t,
                p.pagemap,
                #[trigger] process_vaddr(c + s),
                f[stack_slot(image_len, f.len() as int, s)] & FRAME_MASK,
            )
            &&& user_mapped(t, p.pagemap, PROCESS_PAGE, f[process_slot(image_len, f.len() as int)] & FRAME_MASK)
            &&& forall|s: int| 0 <= s < STACK_PAGES ==> process_slot(image_len, f.len() as int) < #[trigger] stack_slot(
                image_len,
                f.len() as int,
                s,
            ) < f.len()
            &&& forall|s1: int, s2: int| 0 <= s1 < s2 < STACK_PAGES ==> #[trigger] f[stack_slot(image_len, f.len() as int, s1)]
                != #[trigger] f[stack_slot(image_len, f.len() as int, s2)]
            &&& forall|s: int| 0 <= s < STACK_PAGES ==> #[trigger] f[stack_slot(image_len, f.len() as int, s)]
                != f[process_slot(image_len, f.len() as int)]
            &&& forall|s: int| 0 <= s < STACK_PAGES ==> !t.contains_key(#[trigger] f[stack_slot(image_len, f.len() as int, s)])
            &&& !t.contains_key(f[process_slot(image_len, f.len() as int)])
            &&& low_mapped_within(t, p.pagemap, c + STACK_PAGES, true)
        }),
{
    let ghost f0 = old(memory).free_frames().len() as int;
    let ghost fs = old(memory).free_frames();
    let ghost old_t = old(memory).tables();
    let ghost kernel = old(memory).tables()[kernel_pagemap];
    let ghost total = process_frames(image_len);
    let ghost top = image_pages(image_len) + STACK_PAGES + 1;
    proof {
        lemma_tables_for(top);
        assert(total == 1 + tables_for(top) + STACK_PAGES + 1);
        lemma_stack_slots(image_len, f0);
        old(memory).lemma_all_tables_len();
    }
    let pagemap = match create_new_pagemap(memory, kernel_pagemap) {
        Some(p) => p,
        None => {
            return None;
        },
    };
    let ghost mut a3: Set<u64> = Set::empty();
    let ghost mut a2: Set<u64> = Set::empty();
    let ghost mut a1: Set<u64> = Set::empty();
    proof {
        assert(!present(0u64)) by (bit_vector);
        old(memory).lemma_table_len(kernel_pagemap);
        assert(memory.tables()[pagemap][0] == 0);
        assert(memory.free_frames() =~= fs.subrange(0, f0 - 1));
        assert forall|x: u64| #[trigger] old_t.contains_key(x) implies memory.tables().contains_key(x)
            && memory.tables()[x] == old_t[x] by {
            assert(x != pagemap);
        }
        assert forall|u: u64| u < 0x80_0000_0000 && u % 4096 == 0 implies !(#[trigger] translate(memory.tables(), pagemap,
            u)).is_some() by {
            lemma_low_pages(u, u);
        }
    }
    let chunks: u64 = (image_len as u64 + 4095) / 4096;
    let mut page_number: u64 = 0;
    while page_number < chunks
        invariant
            memory.wf(),
            memory.frames_fresh(),
            memory.hhdm_offset() == old(memory).hhdm_offset(),
            process_fits(image_addr, image_len),
            chunks == image_pages(image_len),
            f0 == old(memory).free_frames().len(),
            fs == old(memory).free_frames(),
            old_t == old(memory).tables(),
            fs.no_duplicates(),
            forall|j: int| 0 <= j < f0 ==> !old_t.contains_key(#[trigger] fs[j]),
            f0 >= 1,
            pagemap == fs.last(),
            !old_t.contains_key(pagemap),
            total == process_frames(image_len),
            top == chunks + STACK_PAGES + 1,
            total == 1 + tables_for(top) + STACK_PAGES + 1,
            kernel == old(memory).tables()[kernel_pagemap],
            kernel.len() == 512,
            scheduler.wf(),
            *scheduler == *old(scheduler),
            scheduler.processes().len() < usize::MAX,
            0 <= page_number <= chunks,
            low_tree(memory.tables(), pagemap, a3, a2, a1),
            pages_mapped_to(memory.tables(), pagemap, page_number + 1),
            0 <= f0 - 1 - tables_for(page_number + 1),
            memory.free_frames() == fs.subrange(0, f0 - 1 - tables_for(page_number + 1)),
            forall|i: int| 1 <= i < 512 ==> memory.tables()[pagemap][i] == kernel[i],
            forall|x: u64| #[trigger] old_t.contains_key(x) ==> memory.tables().contains_key(x) && memory.tables()[x] == old_t[x],
            forall|x: u64| #[trigger] a3.contains(x) ==> !old_t.contains_key(x),
            forall|x: u64| #[trigger] a2.contains(x) ==> !old_t.contains_key(x),
            forall|x: u64| #[trigger] a1.contains(x) ==> !old_t.contains_key(x),
            low_mapped_within(memory.tables(), pagemap, page_number as int, false),
            forall|k: int| 0 <= k < page_number ==> user_mapped(memory.tables(), pagemap, #[trigger] process_vaddr(k), image_frame(image_addr, k)),
        decreases chunks - page_number,
    {
        proof {
            lemma_process_vaddr(page_number as int);
            lemma_tables_for_monotone(page_number + 2, top);
        }
        let vaddr = PROCESS_ENTRY + 0x1000 * page_number;
        let chunk_addr = image_addr + 4096 * page_number;
        let chunk = chunk_addr & FRAME_MASK;
        let ghost before = memory.tables();
        let ghost free_before = memory.free_frames();
        proof {
            lemma_low_pages(vaddr, vaddr);
            lemma_low_tree_walk(before, pagemap, a3, a2, a1, vaddr);
            lemma_user_entry(chunk_addr);
            assert(vaddr == ((page_number + 2) * 4096) as u64);
            lemma_pages_need(before, pagemap, a3, a2, a1, page_number + 1);
            lemma_tables_for_step(page_number + 1);
            memory.lemma_all_tables_len();
        }
        match map_to(memory, pagemap, vaddr, chunk, USER_PAGE_FLAGS) {
            Some(_) => {},
            None => {
                return None;
            },
        }
        proof {
            let after = memory.tables();
            memory.lemma_all_tables_len();
            let sets = lemma_process_map(before, after, pagemap, a3, a2, a1, vaddr, chunk | USER_PAGE_FLAGS);
            lemma_pages_step(before, after, pagemap, a3, a2, a1, sets.0, sets.1, sets.2, page_number + 1, chunk | USER_PAGE_FLAGS);
            lemma_map_keeps_old(before, after, old_t, fs, f0 - 1 - tables_for(page_number + 1), free_before,
                memory.free_frames(), pagemap, a3, a2, a1, vaddr);
            assert forall|u: u64| u < 0x80_0000_0000 && u % 4096 == 0 && (#[trigger] translate(after, pagemap, u)).is_some()
                implies PROCESS_ENTRY <= u < PROCESS_ENTRY + 0x1000 * (page_number + 1) by {
                if u != vaddr {
                    assert(translate(before, pagemap, u).is_some());
                }
            }
            assert forall|k: int| 0 <= k < page_number + 1 implies user_mapped(after, pagemap, #[trigger] process_vaddr(k),
                image_frame(image_addr, k)) by {
                if k < page_number {
                    lemma_process_vaddr(k);
                }
            }
            assert(memory.free_frames() =~= fs.subrange(0, f0 - 1 - tables_for(page_number + 2)));
            a3 = sets.0;
            a2 = sets.1;
            a1 = sets.2;
        }
        page_number = page_number + 1;
    }
    let mut stack_page: u64 = 0;
    while stack_page < STACK_PAGES
        invariant
            memory.wf(),
            memory.frames_fresh(),
            memory.hhdm_offset() == old(memory).hhdm_offset(),
            process_fits(image_addr, image_len),
            chunks == image_pages(image_len),
            f0 == old(memory).free_frames().len(),
            fs == old(memory).free_frames(),
            old_t == old(memory).tables(),
            fs.no_duplicates(),
            forall|j: int| 0 <= j < f0 ==> !old_t.contains_key(#[trigger] fs[j]),
            f0 >= 1,
            pagemap == fs.last(),
            !old_t.contains_key(pagemap),
            total == process_frames(image_len),
            top == chunks + STACK_PAGES + 1,
            total == 1 + tables_for(top) + STACK_PAGES + 1,
            kernel == old(memory).tables()[kernel_pagemap],
            kernel.len() == 512,
            scheduler.wf(),
            *scheduler == *old(scheduler),
            scheduler.processes().len() < usize::MAX,
            0 <= stack_page <= STACK_PAGES,
            page_number == chunks + stack_page,
            low_tree(memory.tables(), pagemap, a3, a2, a1),
            pages_mapped_to(memory.tables(), pagemap, page_number + 1),
            0 <= f0 - 1 - tables_for(page_number + 1) - stack_page,
            memory.free_frames() == fs.subrange(0, f0 - 1 - tables_for(page_number + 1) - stack_page),
            forall|i: int| 1 <= i < 512 ==> memory.tables()[pagemap][i] == kernel[i],
            forall|x: u64| #[trigger] old_t.contains_key(x) ==> memory.tables().contains_key(x) && memory.tables()[x] == old_t[x],
            forall|x: u64| #[trigger] a3.contains(x) ==> !old_t.contains_key(x),
            forall|x: u64| #[trigger] a2.contains(x) ==> !old_t.contains_key(x),
            forall|x: u64| #[trigger] a1.contains(x) ==> !old_t.contains_key(x),
            low_mapped_within(memory.tables(), pagemap, page_number as int, false),
            forall|k: int| 0 <= k < chunks ==> user_mapped(memory.tables(), pagemap, #[trigger] process_vaddr(k), image_frame(image_addr, k)),
            forall|s: int| 0 <= s < stack_page ==> user_mapped(memory.tables(), pagemap, #[trigger] process_vaddr(chunks + s),
                fs[stack_slot(image_len, f0, s)] & FRAME_MASK),
            forall|s: int| 0 <= s < stack_page ==> f0 - 1 - tables_for(page_number + 1) - stack_page
                <= #[trigger] stack_slot(image_len, f0, s) < f0,
            forall|s: int| 0 <= s < stack_page ==> !memory.tables().contains_key(#[trigger] fs[stack_slot(image_len, f0, s)]),
        decreases STACK_PAGES - stack_page,
    {
        proof {
            lemma_tables_for_step(page_number + 1);
            lemma_tables_for_monotone(page_number + 2, top);
        }
        let ghost len0 = f0 - 1 - tables_for(page_number + 1) - stack_page;
        let frame = match allocate(memory) {
            Ok(f) => f,
            Err(_) => {
                return None;
            },
        };
        proof {
            lemma_process_vaddr(page_number as int);
            assert(stack_slot(image_len, f0, stack_page as int) == len0 - 1);
            assert(frame == fs[len0 - 1]);
        }
        let vaddr = PROCESS_ENTRY + 0x1000 * page_number;
        let page = frame & FRAME_MASK;
        let ghost before = memory.tables();
        let ghost free_before = memory.free_frames();
        proof {
            lemma_low_pages(vaddr, vaddr);
            lemma_low_tree_walk(before, pagemap, a3, a2, a1, vaddr);
            lemma_user_entry(frame);
            assert(vaddr == ((page_number + 2) * 4096) as u64);
            lemma_pages_need(before, pagemap, a3, a2, a1, page_number + 1);
            assert(memory.free_frames() =~= fs.subrange(0, len0 - 1));
            assert(!before.contains_key(frame)) by {
                assert(old(memory).free_frames()[len0 - 1] == frame);
                let pf = fs.subrange(0, len0);
                assert(pf[len0 - 1] == frame);
            }
            memory.lemma_all_tables_len();
        }
        match map_to(memory, pagemap, vaddr, page, USER_PAGE_FLAGS) {
            Some(_) => {},
            None => {
                return None;
            },
        }
        proof {
            let after = memory.tables();
            memory.lemma_all_tables_len();
            let sets = lemma_process_map(before, after, pagemap, a3, a2, a1, vaddr, page | USER_PAGE_FLAGS);
            lemma_pages_step(before, after, pagemap, a3, a2, a1, sets.0, sets.1, sets.2, page_number + 1, page | USER_PAGE_FLAGS);
            lemma_map_keeps_old(before, after, old_t, fs, len0 - 1, free_before, memory.free_frames(), pagemap, a3, a2,
                a1, vaddr);
            assert forall|k: int| 0 <= k < chunks implies user_mapped(after, pagemap, #[trigger] process_vaddr(k),
                image_frame(image_addr, k)) by {
                lemma_process_vaddr(k);
            }
            assert forall|u: u64| u < 0x80_0000_0000 && u % 4096 == 0 && (#[trigger] translate(after, pagemap, u)).is_some()
                implies PROCESS_ENTRY <= u < PROCESS_ENTRY + 0x1000 * (page_number + 1) by {
                if u != vaddr {
                    assert(translate(before, pagemap, u).is_some());
                }
            }
            assert forall|s: int| 0 <= s < stack_page + 1 implies user_mapped(after, pagemap,
                #[trigger] process_vaddr(chunks + s), fs[stack_slot(image_len, f0, s)] & FRAME_MASK) by {
                if s < stack_page {
                    lemma_process_vaddr(chunks + s);
                } else {
                    assert(process_vaddr(chunks + s) == vaddr);
                }
            }
            assert forall|s: int| 0 <= s < stack_page + 1 implies !after.contains_key(
                #[trigger] fs[stack_slot(image_len, f0, s)]) by {
                lemma_not_in_prefix(fs, len0 - 1, stack_slot(image_len, f0, s));
            }
            assert(memory.free_frames() =~= fs.subrange(0, f0 - 1 - tables_for(page_number + 2) - stack_page - 1));
            a3 = sets.0;
            a2 = sets.1;
            a1 = sets.2;
        }
        page_number = page_number + 1;
        stack_page = stack_page + 1;
    }
    let ghost len0 = f0 - 1 - tables_for(page_number + 1) - stack_page;
    let process_frame = match allocate(memory) {
        Ok(f) => f,
        Err(_) => {
            return None;
        },
    };
    let process_page = process_frame & FRAME_MASK;
    let ghost before = memory.tables();
    let ghost free_before = memory.free_frames();
    proof {
        assert(len0 - 1 == f0 - total);
        assert(process_frame == fs[f0 - total]);
        lemma_low_pages(PROCESS_PAGE, PROCESS_PAGE);
        lemma_low_tree_walk(before, pagemap, a3, a2, a1, PROCESS_PAGE);
        lemma_user_entry(process_frame);
        lemma_first_page_ready(before, pagemap, page_number + 1);
        assert(memory.free_frames() =~= fs.subrange(0, f0 - total));
        assert(!before.contains_key(process_frame)) by {
            let pf = fs.subrange(0, len0);
            assert(pf[len0 - 1] == process_frame);
        }
        memory.lemma_all_tables_len();
    }
    match map_to(memory, pagemap, PROCESS_PAGE, process_page, USER_PAGE_FLAGS) {
        Some(_) => {},
        None => {
            return None;
        },
    }
    proof {
        let after = memory.tables();
        memory.lemma_all_tables_len();
        let sets = lemma_process_map(before, after, pagemap, a3, a2, a1, PROCESS_PAGE, process_page | USER_PAGE_FLAGS);
        lemma_map_keeps_old(before, after, old_t, fs, f0 - total, free_before, memory.free_frames(), pagemap, a3, a2, a1,
            PROCESS_PAGE);
        assert forall|k: int| 0 <= k < chunks implies user_mapped(after, pagemap, #[trigger] process_vaddr(k),
            image_frame(image_addr, k)) by {
            lemma_process_vaddr(k);
        }
        assert forall|u: u64| u < 0x80_0000_0000 && u % 4096 == 0 && (#[trigger] translate(after, pagemap, u)).is_some()
            implies (PROCESS_ENTRY <= u < PROCESS_ENTRY + 0x1000 * page_number) || u == PROCESS_PAGE by {
            if u != PROCESS_PAGE {
                assert(translate(before, pagemap, u).is_some());
            }
        }
        assert forall|s: int| 0 <= s < STACK_PAGES implies user_mapped(after, pagemap, #[trigger] process_vaddr(chunks + s),
            fs[stack_slot(image_len, f0, s)] & FRAME_MASK) by {
            lemma_process_vaddr(chunks + s);
        }
        assert forall|s: int| 0 <= s < STACK_PAGES implies !after.contains_key(#[trigger] fs[stack_slot(image_len, f0, s)]) by {
            lemma_not_in_prefix(fs, f0 - total, stack_slot(image_len, f0, s));
        }
        lemma_not_in_prefix(fs, f0 - total, f0 - total);
        assert(memory.free_frames() =~= fs.subrange(0, f0 - total));
    }
    proof {
        assert((image_len & !0xFFFusize) <= image_len) by (bit_vector);
        lemma_initial_stack(image_len);
    }
    let stack: usize = PROCESS_ENTRY as usize + (image_len & !0xFFFusize) + 0x7f00;
    let regs: Vec<usize> = vec![0usize; REGISTER_COUNT];
    let process = Process {
        _pid: 1,
        _active: None,
        pagemap,
        stack,
        rip: PROCESS_ENTRY as usize,
        regs,
        next: None,
        prev: None,
    };
    scheduler.insert(process);
    Some(())
}

} // verus!
