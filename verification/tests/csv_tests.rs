use rvet::csv::{fields_or_default, header_line, Field, Line, Writer, DEFAULT_FIELDS};
use rvet::item::{Bits, Context, Item, ItemKind, Privilege, Trap};

#[test]
fn headers() {
    assert_eq!(Field::Source.header(), "SOURCE");
    assert_eq!(Field::ECause.header(), "ECAUSE");
    assert_eq!(Field::TVal.header(), "TVAL");
    assert_eq!(
        header_line(&DEFAULT_FIELDS),
        b"SOURCE,ADDRESS,INSTRUCTION,PRIVILEGE,EXCEPTION,ECAUSE,TVAL,INTERRUPT\n".to_vec()
    );
    assert_eq!(header_line(&[]), b"\n".to_vec());
}

#[test]
fn line_render() {
    let line = Line {
        src_id: 3,
        context: Context { privilege: Privilege::Machine, context: 42 },
        pc: 0x8000_0000,
        insn: Bits::Bit16(0x4501),
        exception: false,
        interrupt: false,
        cause: 0,
        tval: 0,
    };
    assert_eq!(line.render(&DEFAULT_FIELDS), b"3,80000000,4501,3,0,0,0,0\n".to_vec());
    assert_eq!(line.render(&[Field::Context, Field::Address]), b"42,80000000\n".to_vec());
    assert_eq!(line.render(&[]), b"\n".to_vec());
}

fn trap_item() -> Item {
    Item { pc: 0x1000, kind: ItemKind::Trap(Trap { ecause: 0xb, tval: None }) }
}

#[test]
fn writer_buffers_and_flushes() {
    let fields = vec![Field::Source, Field::Address, Field::Exception, Field::Interrupt, Field::ECause];
    let mut w = Writer::new(fields, 1, 32);
    // "1,1000,1,1,b\n" is 13 bytes
    assert_eq!(w.feed(&trap_item()).unwrap(), Vec::<u8>::new());
    assert_eq!(w.feed(&trap_item()).unwrap(), Vec::<u8>::new());
    let out = w.feed(&trap_item()).unwrap();
    assert_eq!(out, b"1,1000,1,1,b\n1,1000,1,1,b\n".to_vec());
    assert_eq!(w.flush(), b"1,1000,1,1,b\n".to_vec());
    assert_eq!(w.flush(), Vec::<u8>::new());
}

#[test]
fn writer_context_items() {
    let fields = vec![Field::Privilege, Field::Context, Field::Instruction];
    let mut w = Writer::new(fields, 0, 1024);
    let ctx = Context { privilege: Privilege::Supervisor, context: 9 };
    assert_eq!(w.feed(&Item { pc: 0, kind: ItemKind::Context(ctx) }).unwrap(), Vec::<u8>::new());
    w.feed(&Item { pc: 4, kind: ItemKind::Regular(Bits::Bit32(0x13)) }).unwrap();
    assert_eq!(w.flush(), b"1,9,00000013\n".to_vec());
}

#[test]
fn writer_line_too_long() {
    let mut w = Writer::new(vec![Field::Address], 0, 4);
    w.feed(&Item { pc: 0x1, kind: ItemKind::Regular(Bits::zero()) }).unwrap();
    let err = w.feed(&Item { pc: 0x12345, kind: ItemKind::Regular(Bits::zero()) }).unwrap_err();
    assert_eq!(err.flushed, b"1\n".to_vec());
}

#[test]
fn default_fields_for_none() {
    assert_eq!(fields_or_default(Vec::new()), DEFAULT_FIELDS.to_vec());
    assert_eq!(
        fields_or_default(vec![Field::TVal, Field::Source]),
        vec![Field::TVal, Field::Source]
    );
}

#[test]
fn writer_keeps_lines_in_order() {
    let mut w = Writer::new(vec![Field::Address, Field::Privilege], 0, 16);
    let mut written = Vec::new();
    let mut expected = String::new();
    for pc in 0..20u64 {
        if pc % 7 == 3 {
            let ctx = Context { privilege: Privilege::Machine, context: pc };
            written.extend(w.feed(&Item { pc, kind: ItemKind::Context(ctx) }).unwrap());
            continue;
        }
        let privilege = if pc < 3 { 0 } else { 3 };
        expected.push_str(&format!("{:x},{}\n", pc * 0x100, privilege));
        written.extend(w.feed(&Item { pc: pc * 0x100, kind: ItemKind::Regular(Bits::zero()) }).unwrap());
    }
    written.extend(w.flush());
    assert_eq!(String::from_utf8(written).unwrap(), expected);
}
