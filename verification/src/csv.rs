//! CSV export utilities

use crate::item::{Bits, Context, Item, ItemKind};
use crate::text::{ascii, dec, dec_represents, hex, hex_represents, push_ascii, push_dec, push_hex, represents};
use vstd::prelude::*;

verus! {

/// CSV field to include
#[derive(Copy, Clone, Debug, PartialEq, Eq, Structural)]
pub enum Field {
    /// Source or HART id
    Source,
    /// PC or EPC
    Address,
    /// Instruction
    Instruction,
    /// Privilege
    Privilege,
    /// Debug/trace context
    Context,
    /// Exception flag (also set for interrupts)
    Exception,
    /// Interrupt flag
    Interrupt,
    /// Exception/interrupt cause
    ECause,
    /// Value of the privilege specific `tval` register
    TVal,
}

impl Field {
    /// The header of this field.
    pub open spec fn spec_header(self) -> Seq<char> {
        match self {
            Field::Source => "SOURCE"@,
            Field::Address => "ADDRESS"@,
            Field::Instruction => "INSTRUCTION"@,
            Field::Privilege => "PRIVILEGE"@,
            Field::Context => "CONTEXT"@,
            Field::Exception => "EXCEPTION"@,
            Field::Interrupt => "INTERRUPT"@,
            Field::ECause => "ECAUSE"@,
            Field::TVal => "TVAL"@,
        }
    }

    /// Retrieve the header to use for this field
    pub fn header(self) -> (r: &'static str)
        ensures
            r@ == self.spec_header(),
    {
        match self {
            Field::Source => "SOURCE",
            Field::Address => "ADDRESS",
            Field::Instruction => "INSTRUCTION",
            Field::Privilege => "PRIVILEGE",
            Field::Context => "CONTEXT",
            Field::Exception => "EXCEPTION",
            Field::Interrupt => "INTERRUPT",
            Field::ECause => "ECAUSE",
            Field::TVal => "TVAL",
        }
    }
}

/// Default fields to include in a CSV
pub const DEFAULT_FIELDS: [Field; 8] = [
    Field::Source,
    Field::Address,
    Field::Instruction,
    Field::Privilege,
    Field::Exception,
    Field::ECause,
    Field::TVal,
    Field::Interrupt,
];

/// Size of the buffer in which a [`Writer`] collects lines
pub const LINE_BUFFER_SIZE: usize = 16384;

/// The fields to write: those given, or [`DEFAULT_FIELDS`] if none are
pub fn fields_or_default(fields: Vec<Field>) -> (r: Vec<Field>)
    ensures
        fields@.len() > 0 ==> r@ == fields@,
        fields@.len() == 0 ==> r@ == DEFAULT_FIELDS@,
{
    if fields.len() > 0 {
        fields
    } else {
        let r = vec![
            Field::Source,
            Field::Address,
            Field::Instruction,
            Field::Privilege,
            Field::Exception,
            Field::ECause,
            Field::TVal,
            Field::Interrupt,
        ];
        assert(r@ =~= DEFAULT_FIELDS@);
        r
    }
}

/// The header line: the headers of the fields, separated by commas.
pub open spec fn header_text(fields: Seq<Field>) -> Seq<u8>
    decreases fields.len(),
{
    if fields.len() == 0 {
        Seq::empty()
    } else if fields.len() == 1 {
        ascii(fields[0].spec_header())
    } else {
        header_text(fields.drop_last()) + ascii(","@) + ascii(fields.last().spec_header())
    }
}

/// Render the header line for the given fields, including the newline
pub fn header_line(fields: &[Field]) -> (r: Vec<u8>)
    ensures
        r@ == header_text(fields@) + seq![10u8],
{
    let mut out: Vec<u8> = Vec::new();
    let mut i: usize = 0;
    while i < fields.len()
        invariant
            i <= fields@.len(),
            out@ == header_text(fields@.take(i as int)),
        decreases fields.len() - i,
    {
        if i > 0 {
            proof {
                reveal_strlit(",");
            }
            push_ascii(&mut out, ",");
        }
        let h = fields[i].header();
        proof {
            reveal_strlit("SOURCE");
            reveal_strlit("ADDRESS");
            reveal_strlit("INSTRUCTION");
            reveal_strlit("PRIVILEGE");
            reveal_strlit("CONTEXT");
            reveal_strlit("EXCEPTION");
            reveal_strlit("INTERRUPT");
            reveal_strlit("ECAUSE");
            reveal_strlit("TVAL");
        }
        push_ascii(&mut out, h);
        proof {
            let t = fields@.take(i + 1);
            assert(t.drop_last() =~= fields@.take(i as int));
            assert(t.last() == fields@[i as int]);
            assert(out@ =~= header_text(t));
        }
        i = i + 1;
    }
    assert(fields@.take(fields@.len() as int) =~= fields@);
    out.push(10);
    out
}

/// The values of a single CSV line
#[derive(Copy, Clone, Debug, PartialEq, Eq, Structural)]
pub struct Line {
    pub src_id: u64,
    pub context: Context,
    pub pc: u64,
    pub insn: Bits,
    pub exception: bool,
    pub interrupt: bool,
    pub cause: u16,
    pub tval: u64,
}

/// `1` for `true`, `0` for `false`.
pub open spec fn flag(b: bool) -> nat {
    if b {
        1
    } else {
        0
    }
}

/// The text of a single field of a line.
pub open spec fn field_text(f: Field, l: Line) -> Seq<u8> {
    match f {
        Field::Source => dec(l.src_id as nat),
        Field::Address => hex(l.pc as nat),
        Field::Instruction => l.insn.spec_text(),
        Field::Privilege => dec(l.context.privilege.spec_code() as nat),
        Field::Context => dec(l.context.context as nat),
        Field::Exception => dec(flag(l.exception)),
        Field::Interrupt => dec(flag(l.interrupt)),
        Field::ECause => hex(l.cause as nat),
        Field::TVal => hex(l.tval as nat),
    }
}

/// The texts of the given fields, separated by commas.
pub open spec fn joined(fields: Seq<Field>, l: Line) -> Seq<u8>
    decreases fields.len(),
{
    if fields.len() == 0 {
        Seq::empty()
    } else if fields.len() == 1 {
        field_text(fields[0], l)
    } else {
        joined(fields.drop_last(), l) + ascii(","@) + field_text(fields.last(), l)
    }
}

/// A full CSV line, including the newline.
pub open spec fn line_text(fields: Seq<Field>, l: Line) -> Seq<u8> {
    joined(fields, l) + seq![10u8]
}

/// The line values for a tracing item that is not a context update.
pub open spec fn line_of(src_id: u64, context: Context, item: Item) -> Line {
    match item.kind {
        ItemKind::Trap(t) => Line {
            src_id,
            context,
            pc: item.pc,
            insn: Bits::Bit32(0),
            exception: true,
            interrupt: t.tval is None,
            cause: t.ecause,
            tval: match t.tval {
                Some(v) => v,
                None => 0,
            },
        },
        ItemKind::Regular(b) => Line {
            src_id,
            context,
            pc: item.pc,
            insn: b,
            exception: false,
            interrupt: false,
            cause: 0,
            tval: 0,
        },
        ItemKind::Context(_) => Line {
            src_id,
            context,
            pc: item.pc,
            insn: Bits::Bit32(0),
            exception: false,
            interrupt: false,
            cause: 0,
            tval: 0,
        },
    }
}

/// Append the text of a single field to `out`.
fn push_field(out: &mut Vec<u8>, f: Field, l: &Line)
    ensures
        final(out)@ == old(out)@ + field_text(f, *l),
{
    match f {
        Field::Source => push_dec(out, l.src_id),
        Field::Address => push_hex(out, l.pc),
        Field::Instruction => l.insn.push_text(out),
        Field::Privilege => push_dec(out, l.context.privilege.code() as u64),
        Field::Context => push_dec(out, l.context.context),
        Field::Exception => push_dec(out, if l.exception { 1 } else { 0 }),
        Field::Interrupt => push_dec(out, if l.interrupt { 1 } else { 0 }),
        Field::ECause => push_hex(out, l.cause as u64),
        Field::TVal => push_hex(out, l.tval),
    }
}

impl Line {
    /// Render this line for the given fields, including the newline
    pub fn render(&self, fields: &[Field]) -> (r: Vec<u8>)
        ensures
            r@ == line_text(fields@, *self),
    {
        let mut out: Vec<u8> = Vec::new();
        let mut i: usize = 0;
        while i < fields.len()
            invariant
                i <= fields@.len(),
                out@ == joined(fields@.take(i as int), *self),
            decreases fields.len() - i,
        {
            let ghost before = out@;
            if i > 0 {
                proof {
                    reveal_strlit(",");
                }
                push_ascii(&mut out, ",");
            }
            push_field(&mut out, fields[i], self);
            proof {
                let t = fields@.take(i + 1);
                assert(t.drop_last() =~= fields@.take(i as int));
                assert(t.last() == fields@[i as int]);
                if i == 0 {
                    assert(t.len() == 1);
                    assert(out@ =~= joined(t, *self));
                } else {
                    assert(out@ =~= joined(t, *self));
                }
            }
            i = i + 1;
        }
        assert(fields@.take(fields@.len() as int) =~= fields@);
        out.push(10);
        out
    }
}

/// Each field of a CSV line shows its value: a line of a single field is the
/// field's text and a newline, where the text of the source id, the
/// privilege code and the context is their decimal representation, that of
/// the address, the cause and the trap value their lower-case hexadecimal
/// representation, that of the exception and interrupt flags `1` or `0`, and
/// that of the instruction the text of its bits.
pub proof fn field_texts(l: Line)
    ensures
        forall|f: Field| #[trigger] line_text(seq![f], l).last() == 10u8,
        represents(line_text(seq![Field::Source], l).drop_last(), 10, l.src_id as nat),
        represents(line_text(seq![Field::Address], l).drop_last(), 16, l.pc as nat),
        line_text(seq![Field::Instruction], l).drop_last() == l.insn.spec_text(),
        represents(
            line_text(seq![Field::Privilege], l).drop_last(),
            10,
            l.context.privilege.spec_code() as nat,
        ),
        represents(line_text(seq![Field::Context], l).drop_last(), 10, l.context.context as nat),
        line_text(seq![Field::Exception], l).drop_last() == seq![if l.exception { 49u8 } else { 48u8 }],
        line_text(seq![Field::Interrupt], l).drop_last() == seq![if l.interrupt { 49u8 } else { 48u8 }],
        represents(line_text(seq![Field::ECause], l).drop_last(), 16, l.cause as nat),
        represents(line_text(seq![Field::TVal], l).drop_last(), 16, l.tval as nat),
{
    assert forall|f: Field| #[trigger] line_text(seq![f], l).drop_last() == field_text(f, l)
        && line_text(seq![f], l).last() == 10u8 by {
        assert(line_text(seq![f], l).drop_last() =~= field_text(f, l));
    }
    assert(line_text(seq![Field::Source], l).drop_last() == field_text(Field::Source, l));
    assert(line_text(seq![Field::Address], l).drop_last() == field_text(Field::Address, l));
    assert(line_text(seq![Field::Instruction], l).drop_last() == field_text(Field::Instruction, l));
    assert(line_text(seq![Field::Privilege], l).drop_last() == field_text(Field::Privilege, l));
    assert(line_text(seq![Field::Context], l).drop_last() == field_text(Field::Context, l));
    assert(line_text(seq![Field::Exception], l).drop_last() == field_text(Field::Exception, l));
    assert(line_text(seq![Field::Interrupt], l).drop_last() == field_text(Field::Interrupt, l));
    assert(line_text(seq![Field::ECause], l).drop_last() == field_text(Field::ECause, l));
    assert(line_text(seq![Field::TVal], l).drop_last() == field_text(Field::TVal, l));
    dec_represents(l.src_id as nat);
    hex_represents(l.pc as nat);
    dec_represents(l.context.privilege.spec_code() as nat);
    dec_represents(l.context.context as nat);
    hex_represents(l.cause as nat);
    hex_represents(l.tval as nat);
    assert(dec(1) =~= seq![49u8]);
    assert(dec(0) =~= seq![48u8]);
}

/// The fields of a CSV line are separated by commas: adding a field to a
/// non-empty selection appends a comma and the field's single-field line to
/// the line without its newline.
pub proof fn fields_comma_separated(fields: Seq<Field>, f: Field, l: Line)
    requires
        fields.len() >= 1,
    ensures
        line_text(fields.push(f), l) == line_text(fields, l).drop_last() + seq![44u8] + line_text(
            seq![f],
            l,
        ),
{
    let t = fields.push(f);
    assert(t.drop_last() =~= fields);
    assert(joined(seq![f], l) == field_text(f, l));
    reveal_strlit(",");
    assert(ascii(","@) =~= seq![44u8]);
    assert(line_text(fields, l).drop_last() =~= joined(fields, l));
    assert(line_text(t, l) =~= line_text(fields, l).drop_last() + seq![44u8] + line_text(seq![f], l));
}

/// The line a writer in state `w` produces for `item`; none for a context
/// update.
pub open spec fn item_line(w: Writer, item: Item) -> Seq<u8> {
    if item.kind is Context {
        Seq::empty()
    } else {
        line_text(w.spec_fields(), line_of(w.spec_src_id(), w.spec_context(), item))
    }
}

/// Lines are handed out in the order of their items and none is lost: over
/// a run of accepted feeds, the bytes handed out, followed by those still
/// pending, are those pending at first, followed by the lines of all items.
pub proof fn lines_kept_in_order(ws: Seq<Writer>, items: Seq<Item>, outs: Seq<Seq<u8>>)
    requires
        ws.len() == items.len() + 1,
        outs.len() == items.len(),
        forall|i: int|
            0 <= i < items.len() ==> #[trigger] outs[i] + ws[i + 1].pending() == ws[i].pending()
                + item_line(ws[i], items[i]),
    ensures
        outs.flatten_alt() + ws.last().pending() == ws[0].pending() + Seq::new(
            items.len(),
            |i: int| item_line(ws[i], items[i]),
        ).flatten_alt(),
    decreases items.len(),
{
    let lines = Seq::new(items.len(), |i: int| item_line(ws[i], items[i]));
    if items.len() == 0 {
        assert(outs.flatten_alt() =~= Seq::<u8>::empty());
        assert(lines.flatten_alt() =~= Seq::<u8>::empty());
        assert(ws.last() == ws[0]);
    } else {
        let n = items.len() - 1;
        let ws0 = ws.drop_last();
        let items0 = items.drop_last();
        let outs0 = outs.drop_last();
        assert forall|i: int| 0 <= i < items0.len() implies #[trigger] outs0[i] + ws0[i + 1].pending()
            == ws0[i].pending() + item_line(ws0[i], items0[i]) by {
            assert(outs0[i] == outs[i]);
            assert(ws0[i + 1] == ws[i + 1]);
            assert(ws0[i] == ws[i]);
            assert(items0[i] == items[i]);
            assert(outs[i] + ws[i + 1].pending() == ws[i].pending() + item_line(ws[i], items[i]));
        }
        lines_kept_in_order(ws0, items0, outs0);
        let lines0 = Seq::new(items0.len(), |i: int| item_line(ws0[i], items0[i]));
        assert(lines.drop_last() =~= lines0);
        assert(lines.last() == item_line(ws[n], items[n]));
        assert(outs[n] + ws[n + 1].pending() == ws[n].pending() + item_line(ws[n], items[n]));
        assert(ws0.last() == ws[n]);
        assert(ws[0] == ws0[0]);
        assert(outs.flatten_alt() == outs0.flatten_alt() + outs[n]);
        assert(lines.flatten_alt() == lines0.flatten_alt() + lines.last());
        assert(outs.flatten_alt() + ws.last().pending() =~= outs0.flatten_alt() + (outs[n] + ws[n
            + 1].pending()));
        assert(ws[0].pending() + lines.flatten_alt() =~= (ws[0].pending() + lines0.flatten_alt())
            + item_line(ws[n], items[n]));
        assert(outs0.flatten_alt() + (ws[n].pending() + item_line(ws[n], items[n])) =~= (
        outs0.flatten_alt() + ws0.last().pending()) + item_line(ws[n], items[n]));
    }
}

/// A CSV line did not fit into an empty buffer
#[derive(Debug)]
pub struct LineTooLong {
    /// Lines that were buffered before and are due for the underlying file
    pub flushed: Vec<u8>,
}

/// CSV formatter with a fixed-size buffer
///
/// Lines are collected in the buffer. Whenever a line does not fit, the
/// buffered lines are handed out for writing to the underlying file.
#[derive(Debug)]
pub struct Writer {
    buffer: Vec<u8>,
    capacity: usize,
    fields: Vec<Field>,
    src_id: u64,
    context: Context,
}

impl Writer {
    /// Lines buffered but not yet handed out.
    pub closed spec fn pending(self) -> Seq<u8> {
        self.buffer@
    }

    /// Size of the buffer.
    pub closed spec fn spec_capacity(self) -> nat {
        self.capacity as nat
    }

    /// The fields written for each line.
    pub closed spec fn spec_fields(self) -> Seq<Field> {
        self.fields@
    }

    /// The source id written for each line.
    pub closed spec fn spec_src_id(self) -> u64 {
        self.src_id
    }

    /// The execution context last communicated.
    pub closed spec fn spec_context(self) -> Context {
        self.context
    }

    /// The buffered lines fit in the buffer.
    pub open spec fn wf(self) -> bool {
        self.pending().len() <= self.spec_capacity()
    }

    /// Create a writer for the given fields and source id, with a buffer of
    /// `capacity` bytes
    pub fn new(fields: Vec<Field>, src_id: u64, capacity: usize) -> (r: Writer)
        ensures
            r.wf(),
            r.pending() == Seq::<u8>::empty(),
            r.spec_capacity() == capacity,
            r.spec_fields() == fields@,
            r.spec_src_id() == src_id,
            r.spec_context() == (Context {
                privilege: crate::item::Privilege::User,
                context: 0,
            }),
    {
        Writer { buffer: Vec::new(), capacity, fields, src_id, context: Context::initial() }
    }

    /// Feed a tracing item
    ///
    /// A context update is remembered and produces no line. Any other item
    /// produces a line. If it fits into the buffer, it is appended. Otherwise,
    /// the buffered lines are returned for writing to the underlying file and
    /// the line starts a fresh buffer. A line longer than the whole buffer is
    /// an error, which still hands out the lines buffered before.
    pub fn feed(&mut self, item: &Item) -> (r: Result<Vec<u8>, LineTooLong>)
        requires
            old(self).wf(),
        ensures
            final(self).wf(),
            final(self).spec_capacity() == old(self).spec_capacity(),
            final(self).spec_fields() == old(self).spec_fields(),
            final(self).spec_src_id() == old(self).spec_src_id(),
            r matches Ok(out) ==> out@ + final(self).pending() == old(self).pending() + item_line(
                *old(self),
                *item,
            ),
            item.kind matches ItemKind::Context(c) ==> {
                &&& r matches Ok(out) && out@ == Seq::<u8>::empty()
                &&& final(self).pending() == old(self).pending()
                &&& final(self).spec_context() == c
            },
            !(item.kind is Context) ==> ({
                let line = line_text(
                    old(self).spec_fields(),
                    line_of(old(self).spec_src_id(), old(self).spec_context(), *item),
                );
                let old_pending = old(self).pending();
                let cap = old(self).spec_capacity();
                &&& final(self).spec_context() == old(self).spec_context()
                &&& old_pending.len() + line.len() <= cap ==> {
                    &&& r matches Ok(out) && out@ == Seq::<u8>::empty()
                    &&& final(self).pending() == old_pending + line
                }
                &&& old_pending.len() + line.len() > cap && line.len() <= cap ==> {
                    &&& r matches Ok(out) && out@ == old_pending
                    &&& final(self).pending() == line
                }
                &&& line.len() > cap ==> {
                    &&& r matches Err(e) && e.flushed@ == old_pending
                    &&& final(self).pending() == line.take(cap as int)
                }
            }),
    {
        let (insn, exception, interrupt, cause, tval) = match item.kind {
            ItemKind::Context(c) => {
                self.context = c;
                return Ok(Vec::new());
            },
            ItemKind::Regular(b) => (b, false, false, 0u16, 0u64),
            ItemKind::Trap(t) => (
                Bits::zero(),
                true,
                t.is_interrupt(),
                t.ecause,
                match t.tval {
                    Some(v) => v,
                    None => 0,
                },
            ),
        };
        let line = Line {
            src_id: self.src_id,
            context: self.context,
            pc: item.pc,
            insn,
            exception,
            interrupt,
            cause,
            tval,
        };
        assert(line == line_of(self.src_id, self.context, *item));
        let text = line.render(self.fields.as_slice());
        if text.len() <= self.capacity - self.buffer.len() {
            let mut text = text;
            self.buffer.append(&mut text);
            return Ok(Vec::new());
        }
        let mut flushed: Vec<u8> = Vec::new();
        std::mem::swap(&mut flushed, &mut self.buffer);
        if text.len() <= self.capacity {
            self.buffer = text;
            Ok(flushed)
        } else {
            let mut i: usize = 0;
            while i < self.capacity
                invariant
                    i <= self.capacity,
                    self.capacity < text@.len(),
                    self.capacity == old(self).capacity,
                    self.fields@ == old(self).fields@,
                    self.src_id == old(self).src_id,
                    self.context == old(self).context,
                    self.buffer@ == text@.take(i as int),
                decreases self.capacity - i,
            {
                self.buffer.push(text[i]);
                i = i + 1;
                assert(self.buffer@ =~= text@.take(i as int));
            }
            Err(LineTooLong { flushed })
        }
    }

    /// Hand out all buffered lines for writing to the underlying file
    pub fn flush(&mut self) -> (r: Vec<u8>)
        requires
            old(self).wf(),
        ensures
            final(self).wf(),
            r@ == old(self).pending(),
            final(self).pending() == Seq::<u8>::empty(),
            final(self).spec_capacity() == old(self).spec_capacity(),
            final(self).spec_fields() == old(self).spec_fields(),
            final(self).spec_src_id() == old(self).spec_src_id(),
            final(self).spec_context() == old(self).spec_context(),
    {
        let mut out: Vec<u8> = Vec::new();
        std::mem::swap(&mut out, &mut self.buffer);
        out
    }
}

} // verus!
