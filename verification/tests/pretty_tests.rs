use rvet::item::{Bits, Context, Privilege, Trap};
use rvet::pretty::Printer;

#[test]
fn insn_line_layout() {
    let mut p = Printer::new(32, false);
    let mut out = Vec::new();
    p.process_insn(&mut out, 0x80000000, &Bits::Bit32(0x00000297), b"auipc t0, 0x0", false, 0, false, &vec![]);
    let expected = format!("{:8x}  {:<8}  {:<32}\n", 0x80000000u64, "00000297", "auipc t0, 0x0");
    assert_eq!(String::from_utf8(out).unwrap(), expected);
}

#[test]
fn insn_line_stack_and_symbols() {
    let mut p = Printer::new(64, true);
    let mut out = Vec::new();
    let syms = vec![b"".to_vec(), b"main".to_vec(), b"_start".to_vec()];
    p.process_insn(&mut out, 0x1000, &Bits::Bit16(0x8082), b"ret", true, 3, false, &syms);
    let expected = format!(
        "{:16x}  {:<8}  {:<32}{:|>3} main, _start\n",
        0x1000u64, "8082", "ret", '<'
    );
    assert_eq!(String::from_utf8(out).unwrap(), expected);
    let mut out = Vec::new();
    p.process_insn(&mut out, 0x1000, &Bits::Bit16(0x8082), b"x", false, 1, true, &vec![b"f".to_vec()]);
    let expected = format!("{:16x}  {:<8}  {:<32}> f\n", 0x1000u64, "8082", "x");
    assert_eq!(String::from_utf8(out).unwrap(), expected);
}

#[test]
fn address_width_rounds_up() {
    let mut p = Printer::new(39, false);
    let mut out = Vec::new();
    p.process_trap(&mut out, 0xabc, &Trap { ecause: 5, tval: Some(0x10) });
    assert_eq!(
        String::from_utf8(out).unwrap(),
        format!("{:10x}  exception (ecause: 5, tval: 10)\n", 0xabcu64)
    );
}

#[test]
fn context_printed_once() {
    let mut p = Printer::new(32, false);
    let ctx = Context { privilege: Privilege::Machine, context: 7 };
    let mut out = Vec::new();
    p.process_ctx(&mut out, &ctx);
    assert_eq!(String::from_utf8(out.clone()).unwrap(), "          Context: M-mode, ctx: 7\n");
    p.process_ctx(&mut out, &ctx);
    assert_eq!(String::from_utf8(out).unwrap(), "          Context: M-mode, ctx: 7\n");
    let mut q = Printer::new(32, true);
    let mut out = Vec::new();
    q.process_ctx(&mut out, &Context { privilege: Privilege::VirtUser, context: 1 });
    assert_eq!(String::from_utf8(out).unwrap(), "          Context: VU-mode\n");
}

#[test]
fn report_and_blank_lines() {
    let mut p = Printer::new(32, false);
    let mut out = Vec::new();
    p.report(&mut out, &vec![b"error".to_vec(), b"cause".to_vec()], true);
    assert_eq!(String::from_utf8(out.clone()).unwrap(), "--- error\n    cause\n");
    p.process_trap(&mut out, 0x4, &Trap { ecause: 1, tval: None });
    assert_eq!(
        String::from_utf8(out).unwrap(),
        format!("--- error\n    cause\n\n{:8x}  interrupt (ecause: 1)\n", 4)
    );
    let mut out = Vec::new();
    p.report(&mut out, &vec![b"a".to_vec()], true);
    p.report(&mut out, &vec![b"b".to_vec()], false);
    assert_eq!(String::from_utf8(out).unwrap(), "--- a\n\n--- b\n");
    let mut out = Vec::new();
    p.report(&mut out, &vec![], true);
    assert!(out.is_empty());
}
