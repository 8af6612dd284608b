use kernel::isrs::import_isrs;

#[test]
fn declares_one_stub_per_vector() {
    let text = String::from_utf8(import_isrs()).unwrap();
    let lines: Vec<&str> = text.split('\n').collect();
    assert_eq!(lines.len(), 256);
    assert_eq!(lines[0], "extern \"x86-interrupt\" {fn isr0(stack: InterruptStackFrame, error_code: u64);}");
    assert_eq!(lines[44], "extern \"x86-interrupt\" {fn isr44(stack: InterruptStackFrame, error_code: u64);}");
    assert_eq!(lines[255], "extern \"x86-interrupt\" {fn isr255(stack: InterruptStackFrame, error_code: u64);}");
}
