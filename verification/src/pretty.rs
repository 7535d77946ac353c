//! Pretty printing and general rendering utilities

use crate::item::{Bits, Context, Trap};
use crate::text::{
    ascii, dec, dec_represents, hex, hex_bytes, hex_represents, pad_left, represents, pad_right, push_all, push_ascii, push_dec,
    push_padded_left, push_padded_right, push_repeat, repeat,
};
use vstd::prelude::*;

verus! {

/// The `" first, second, ..."` suffix listing the non-empty symbol names.
pub open spec fn symbols_text(names: Seq<Seq<u8>>) -> Seq<u8>
    decreases names.len(),
{
    if names.len() == 0 {
        Seq::empty()
    } else {
        let prev = symbols_text(names.drop_last());
        let n = names.last();
        if n.len() == 0 {
            prev
        } else if prev.len() == 0 {
            ascii(" "@) + n
        } else {
            prev + ascii(", "@) + n
        }
    }
}

/// The byte marking an instruction in the stack column.
pub open spec fn stack_sym(at_fn_entry: bool, is_return: bool) -> u8 {
    if at_fn_entry {
        62  // '>'
    } else if is_return {
        60  // '<'
    } else {
        124  // '|'
    }
}

/// The stack column: `depth - 1` bars followed by the marker, nothing at depth zero.
pub open spec fn stack_text(depth: nat, at_fn_entry: bool, is_return: bool) -> Seq<u8> {
    if depth >= 1 {
        pad_left(seq![stack_sym(at_fn_entry, is_return)], depth, 124)
    } else {
        Seq::empty()
    }
}

/// A line for a retired instruction, without a preceding blank line.
pub open spec fn insn_text(
    address_width: nat,
    insn_width: nat,
    pc: u64,
    bits: Bits,
    insn: Seq<u8>,
    is_return: bool,
    stack_depth: nat,
    at_fn_entry: bool,
    symbols: Seq<Seq<u8>>,
) -> Seq<u8> {
    pad_left(hex(pc as nat), address_width, 32) + ascii("  "@) + pad_right(bits.spec_text(), 8, 32)
        + ascii("  "@) + pad_right(insn, insn_width, 32) + stack_text(
        stack_depth,
        at_fn_entry,
        is_return,
    ) + symbols_text(symbols) + seq![10u8]
}

/// The stack column of an instruction line at depth `d` holds `d` bytes,
/// placed right before the symbol names: a plain instruction is marked by
/// bars (`|`) only, a fn entry by `d - 1` bars and `>`, a return by `d - 1`
/// bars and `<`; at depth zero the line has no stack column.
pub proof fn stack_column(
    address_width: nat,
    insn_width: nat,
    pc: u64,
    bits: Bits,
    insn: Seq<u8>,
    is_return: bool,
    d: nat,
    at_fn_entry: bool,
    symbols: Seq<Seq<u8>>,
)
    ensures
        ({
            let flat = insn_text(address_width, insn_width, pc, bits, insn, is_return, 0, at_fn_entry, symbols);
            let k = flat.len() - symbols_text(symbols).len() - 1;
            let line = insn_text(address_width, insn_width, pc, bits, insn, is_return, d, at_fn_entry, symbols);
            &&& 0 <= k <= flat.len()
            &&& d == 0 ==> line == flat
            &&& d >= 1 && !at_fn_entry && !is_return ==> line == flat.take(k) + Seq::new(d, |_i: int| 124u8)
                + flat.skip(k)
            &&& d >= 1 && at_fn_entry ==> line == flat.take(k) + Seq::new((d - 1) as nat, |_i: int| 124u8)
                + seq![62u8] + flat.skip(k)
            &&& d >= 1 && !at_fn_entry && is_return ==> line == flat.take(k) + Seq::new(
                (d - 1) as nat,
                |_i: int| 124u8,
            ) + seq![60u8] + flat.skip(k)
        }),
{
    reveal(pad_left);
    let a = pad_left(hex(pc as nat), address_width, 32) + ascii("  "@) + pad_right(bits.spec_text(), 8, 32)
        + ascii("  "@) + pad_right(insn, insn_width, 32);
    let b = symbols_text(symbols) + seq![10u8];
    let flat = insn_text(address_width, insn_width, pc, bits, insn, is_return, 0, at_fn_entry, symbols);
    let line = insn_text(address_width, insn_width, pc, bits, insn, is_return, d, at_fn_entry, symbols);
    let col = stack_text(d, at_fn_entry, is_return);
    assert(stack_text(0, at_fn_entry, is_return) =~= Seq::<u8>::empty());
    assert(flat =~= a + b);
    assert(line =~= a + col + b);
    let k = flat.len() - symbols_text(symbols).len() - 1;
    assert(k == a.len());
    assert(flat.take(k) =~= a);
    assert(flat.skip(k) =~= b);
    if d >= 1 {
        let bars = Seq::new((d - 1) as nat, |_i: int| 124u8);
        assert(col =~= bars + seq![stack_sym(at_fn_entry, is_return)]);
        if !at_fn_entry && !is_return {
            assert(col =~= Seq::new(d, |_i: int| 124u8));
        }
    }
}

/// A line for a trap, without a preceding blank line.
pub open spec fn trap_text(address_width: nat, pc: u64, trap: Trap) -> Seq<u8> {
    pad_left(hex(pc as nat), address_width, 32) + ascii("  "@) + trap.spec_text() + seq![10u8]
}

/// Instruction and trap lines start with the address: a lower-case
/// hexadecimal number, right-aligned with spaces to the address width,
/// followed by two spaces.
pub proof fn lines_start_with_address(
    address_width: nat,
    insn_width: nat,
    pc: u64,
    bits: Bits,
    insn: Seq<u8>,
    is_return: bool,
    stack_depth: nat,
    at_fn_entry: bool,
    symbols: Seq<Seq<u8>>,
    trap: Trap,
)
    ensures
        exists|a: Seq<u8>|
            #![trigger represents(a, 16, pc as nat)]
            represents(a, 16, pc as nat) && ({
                let col = if a.len() < address_width {
                    Seq::new((address_width - a.len()) as nat, |_i: int| 32u8) + a
                } else {
                    a
                };
                &&& insn_text(address_width, insn_width, pc, bits, insn, is_return, stack_depth, at_fn_entry, symbols).take(
                    col.len() + 2int,
                ) == col + seq![32u8, 32u8]
                &&& trap_text(address_width, pc, trap).take(col.len() + 2int) == col + seq![32u8, 32u8]
            }),
{
    reveal(pad_left);
    reveal_strlit("  ");
    let a = hex(pc as nat);
    hex_represents(pc as nat);
    let col = pad_left(a, address_width, 32);
    assert(col =~= if a.len() < address_width {
        Seq::new((address_width - a.len()) as nat, |_i: int| 32u8) + a
    } else {
        a
    });
    assert(ascii("  "@) =~= seq![32u8, 32u8]);
    let l = insn_text(address_width, insn_width, pc, bits, insn, is_return, stack_depth, at_fn_entry, symbols);
    assert(l.take(col.len() + 2int) =~= col + seq![32u8, 32u8]);
    assert(trap_text(address_width, pc, trap).take(col.len() + 2int) =~= col + seq![32u8, 32u8]);
    assert(represents(a, 16, pc as nat));
}

/// A context line shows the context, where shown, as a decimal number.
pub proof fn ctx_line_shows_context(address_width: nat, ctx: Context)
    ensures
        exists|c: Seq<u8>|
            #![trigger represents(c, 10, ctx.context as nat)]
            represents(c, 10, ctx.context as nat) && ctx_text(address_width, true, ctx) == Seq::new(
                address_width,
                |_i: int| 32u8,
            ) + ascii("  Context: "@) + ctx.privilege.spec_name() + ascii("-mode"@) + ascii(", ctx: "@) + c
                + seq![10u8],
        ctx_text(address_width, false, ctx) == Seq::new(address_width, |_i: int| 32u8) + ascii("  Context: "@)
            + ctx.privilege.spec_name() + ascii("-mode"@) + seq![10u8],
{
    dec_represents(ctx.context as nat);
    assert(represents(dec(ctx.context as nat), 10, ctx.context as nat));
    assert(repeat(32, address_width) =~= Seq::new(address_width, |_i: int| 32u8));
    assert(ctx_text(address_width, false, ctx) =~= Seq::new(address_width, |_i: int| 32u8) + ascii(
        "  Context: "@,
    ) + ctx.privilege.spec_name() + ascii("-mode"@) + seq![10u8]);
    assert(ctx_text(address_width, true, ctx) =~= Seq::new(address_width, |_i: int| 32u8) + ascii(
        "  Context: "@,
    ) + ctx.privilege.spec_name() + ascii("-mode"@) + ascii(", ctx: "@) + dec(ctx.context as nat) + seq![10u8]);
}

/// A line for a context update, without a preceding blank line.
pub open spec fn ctx_text(address_width: nat, show_context: bool, ctx: Context) -> Seq<u8> {
    repeat(32, address_width) + ascii("  Context: "@) + ctx.privilege.spec_name() + ascii("-mode"@)
        + if show_context {
        ascii(", ctx: "@) + dec(ctx.context as nat)
    } else {
        Seq::empty()
    } + seq![10u8]
}

/// The report lines: the first marked with `--- `, the others indented.
pub open spec fn report_text(lines: Seq<Seq<u8>>) -> Seq<u8>
    decreases lines.len(),
{
    if lines.len() == 0 {
        Seq::empty()
    } else if lines.len() == 1 {
        ascii("--- "@) + lines[0] + seq![10u8]
    } else {
        report_text(lines.drop_last()) + ascii("    "@) + lines.last() + seq![10u8]
    }
}

/// `q` is `p` after printing a line: no blank line is due any more, all else
/// is kept.
pub open spec fn line_printed(p: Printer, q: Printer) -> bool {
    &&& !q.spec_feed_blank()
    &&& q.spec_context() == p.spec_context()
    &&& q.same_layout(p)
}

/// What printer `p` prints for the context `ctx`: nothing if it printed that
/// context last, otherwise the blank line due and the context line.
pub open spec fn ctx_output(p: Printer, ctx: Context) -> Seq<u8> {
    if p.spec_context() == Some(ctx) {
        Seq::empty()
    } else {
        p.blank() + ctx_text(p.spec_address_width(), p.spec_show_context(), ctx)
    }
}

/// `q` is `p` after processing the context `ctx`: `ctx` is the context
/// printed last, and a blank line stays due only if nothing was printed.
pub open spec fn ctx_processed(p: Printer, q: Printer, ctx: Context) -> bool {
    &&& q.spec_context() == Some(ctx)
    &&& q.same_layout(p)
    &&& q.spec_feed_blank() == (p.spec_feed_blank() && p.spec_context() == Some(ctx))
}

/// What printer `p` prints for a report of `lines`: nothing for no lines,
/// otherwise the blank line due unless another one is asked for, then the
/// lines.
pub open spec fn report_output(p: Printer, lines: Seq<Seq<u8>>, feed_blank: bool) -> Seq<u8> {
    if lines.len() == 0 {
        Seq::empty()
    } else {
        (if p.spec_feed_blank() && !feed_blank {
            seq![10u8]
        } else {
            Seq::empty()
        }) + report_text(lines)
    }
}

/// `q` is `p` after a report of `n` lines: a blank line is due if asked for,
/// unless there were no lines, which changes nothing.
pub open spec fn reported(p: Printer, q: Printer, n: nat, feed_blank: bool) -> bool {
    &&& q.spec_context() == p.spec_context()
    &&& q.same_layout(p)
    &&& q.spec_feed_blank() == if n == 0 {
        p.spec_feed_blank()
    } else {
        feed_blank
    }
}

/// A context is printed once: processing it again right away prints
/// nothing and changes nothing.
pub proof fn context_printed_once(p0: Printer, p1: Printer, p2: Printer, ctx: Context)
    requires
        ctx_processed(p0, p1, ctx),
        ctx_processed(p1, p2, ctx),
    ensures
        ctx_output(p1, ctx) == Seq::<u8>::empty(),
        p2.spec_context() == p1.spec_context(),
        p2.spec_feed_blank() == p1.spec_feed_blank(),
        p2.same_layout(p1),
{
}

/// A report that asks for a blank line gets one before whatever is printed
/// next: a line, a new context, or a report that does not ask for one.
pub proof fn blank_line_after_report(
    p0: Printer,
    p1: Printer,
    lines: Seq<Seq<u8>>,
    ctx: Context,
    next: Seq<Seq<u8>>,
)
    requires
        lines.len() > 0,
        next.len() > 0,
        reported(p0, p1, lines.len(), true),
    ensures
        p1.blank() == seq![10u8],
        p1.spec_context() != Some(ctx) ==> ctx_output(p1, ctx)[0] == 10,
        report_output(p1, next, false)[0] == 10,
        report_output(p1, next, true) == report_text(next),
{
    assert((seq![10u8] + report_text(next))[0] == 10);
}

/// Pretty-printer for tracing items
///
/// The printer renders text and appends it to a byte buffer supplied by the
/// caller, who writes it out.
#[derive(Debug)]
pub struct Printer {
    context: Option<Context>,
    address_width: u8,
    insn_width: u8,
    show_context: bool,
    feed_blank: bool,
}

impl Printer {
    /// The context last printed.
    pub closed spec fn spec_context(self) -> Option<Context> {
        self.context
    }

    /// Width of the address column, in hex digits.
    pub closed spec fn spec_address_width(self) -> nat {
        self.address_width as nat
    }

    /// Width of the instruction column.
    pub closed spec fn spec_insn_width(self) -> nat {
        self.insn_width as nat
    }

    /// Whether the execution context number is shown.
    pub closed spec fn spec_show_context(self) -> bool {
        self.show_context
    }

    /// Whether a blank line is due before the next line.
    pub closed spec fn spec_feed_blank(self) -> bool {
        self.feed_blank
    }

    /// A printer differs from another one only in the context printed and the
    /// blank line due.
    pub open spec fn same_layout(self, other: Printer) -> bool {
        &&& self.spec_address_width() == other.spec_address_width()
        &&& self.spec_insn_width() == other.spec_insn_width()
        &&& self.spec_show_context() == other.spec_show_context()
    }

    /// The blank line due, if any.
    pub open spec fn blank(self) -> Seq<u8> {
        if self.spec_feed_blank() {
            seq![10u8]
        } else {
            Seq::empty()
        }
    }

    /// Create a new pretty-printer
    ///
    /// Addresses are `iaddress_width` bits wide; the context number is shown
    /// unless `nocontext` is set.
    pub fn new(iaddress_width: u8, nocontext: bool) -> (r: Printer)
        requires
            iaddress_width >= 1,
        ensures
            r.spec_context() is None,
            r.spec_address_width() * 4 >= iaddress_width,
            r.spec_address_width() * 4 < iaddress_width + 4,
            r.spec_insn_width() == 32,
            r.spec_show_context() == !nocontext,
            !r.spec_feed_blank(),
    {
        let address_width = iaddress_width / 4 + if iaddress_width % 4 == 0 {
            0
        } else {
            1
        };
        Printer {
            context: None,
            address_width,
            insn_width: 32,
            show_context: !nocontext,
            feed_blank: false,
        }
    }

    /// Feed a blank line if pre-scheduled
    fn feed_blank(&mut self, out: &mut Vec<u8>)
        ensures
            final(out)@ == old(out)@ + old(self).blank(),
            line_printed(*old(self), *final(self)),
    {
        if self.feed_blank {
            self.feed_blank = false;
            out.push(10);
        }
    }

    /// Process a single regular tracing item
    ///
    /// Prints the PC, the instruction's bits and text, the stack column and
    /// the names of the symbols at the PC.
    pub fn process_insn(
        &mut self,
        out: &mut Vec<u8>,
        pc: u64,
        bits: &Bits,
        insn: &[u8],
        is_return: bool,
        stack_depth: usize,
        at_fn_entry: bool,
        symbols: &Vec<Vec<u8>>,
    )
        ensures
            final(out)@ == old(out)@ + old(self).blank() + insn_text(
                old(self).spec_address_width(),
                old(self).spec_insn_width(),
                pc,
                *bits,
                insn@,
                is_return,
                stack_depth as nat,
                at_fn_entry,
                symbols@.map_values(|s: Vec<u8>| s@),
            ),
            line_printed(*old(self), *final(self)),
    {
        let ghost start = out@;
        self.feed_blank(out);
        let ghost p0 = out@;
        let digits = hex_bytes(pc);
        push_padded_left(out, digits.as_slice(), self.address_width as usize, 32);
        let ghost p1 = out@;
        proof {
            reveal_strlit("  ");
        }
        push_ascii(out, "  ");
        let ghost p2 = out@;
        let b = bits.text();
        push_padded_right(out, b.as_slice(), 8, 32);
        let ghost p3 = out@;
        push_ascii(out, "  ");
        let ghost p4 = out@;
        push_padded_right(out, insn, self.insn_width as usize, 32);
        let ghost p5 = out@;
        Self::push_stack(out, stack_depth, at_fn_entry, is_return);
        let ghost p6 = out@;
        let ghost names = symbols@.map_values(|s: Vec<u8>| s@);
        Self::push_symbols(out, symbols);
        let ghost p7 = out@;
        out.push(10);
        proof {
            let a = pad_left(hex(pc as nat), self.address_width as nat, 32);
            let sp = ascii("  "@);
            let bb = pad_right(bits.spec_text(), 8, 32);
            let c = pad_right(insn@, self.insn_width as nat, 32);
            let d = stack_text(stack_depth as nat, at_fn_entry, is_return);
            let e = symbols_text(names);
            let nl = seq![10u8];
            assert(p1 == p0 + a);
            assert(p2 == p1 + sp);
            assert(p3 == p2 + bb);
            assert(p4 == p3 + sp);
            assert(p5 == p4 + c);
            assert(p6 == p5 + d);
            assert(p7 == p6 + e);
            assert(out@ == p7 + nl);
            let whole = a + sp + bb + sp + c + d + e + nl;
            assert(whole == insn_text(
                self.address_width as nat,
                self.insn_width as nat,
                pc,
                *bits,
                insn@,
                is_return,
                stack_depth as nat,
                at_fn_entry,
                names,
            ));
            assert(out@ =~= p0 + whole);
        }
    }

    /// Append the listing of the non-empty symbol names to `out`.
    fn push_symbols(out: &mut Vec<u8>, symbols: &Vec<Vec<u8>>)
        ensures
            final(out)@ == old(out)@ + symbols_text(symbols@.map_values(|s: Vec<u8>| s@)),
    {
        let ghost before_syms = out@;
        let ghost names = symbols@.map_values(|s: Vec<u8>| s@);
        let mut i: usize = 0;
        while i < symbols.len()
            invariant
                i <= symbols@.len(),
                names == symbols@.map_values(|s: Vec<u8>| s@),
                out@ == before_syms + symbols_text(names.take(i as int)),
            decreases symbols.len() - i,
        {
            let ghost prev = symbols_text(names.take(i as int));
            let name = &symbols[i];
            if name.len() > 0 {
                if i == 0 || !Self::any_named(symbols, i) {
                    proof {
                        reveal_strlit(" ");
                    }
                    push_ascii(out, " ");
                } else {
                    proof {
                        reveal_strlit(", ");
                    }
                    push_ascii(out, ", ");
                }
                push_all(out, name.as_slice());
            }
            proof {
                let t = names.take((i + 1) as int);
                assert(t.drop_last() =~= names.take(i as int));
                assert(t.last() == name@);
                Self::lemma_any_named(names, i as nat);
            }
            i = i + 1;
        }
        assert(names.take(names.len() as int) =~= names);
    }

    /// Append the stack column to `out`.
    fn push_stack(out: &mut Vec<u8>, stack_depth: usize, at_fn_entry: bool, is_return: bool)
        ensures
            final(out)@ == old(out)@ + stack_text(stack_depth as nat, at_fn_entry, is_return),
    {
        if stack_depth >= 1 {
            let sym: u8 = if at_fn_entry {
                62
            } else if is_return {
                60
            } else {
                124
            };
            let mut sym_vec: Vec<u8> = Vec::new();
            sym_vec.push(sym);
            assert(sym_vec@ =~= seq![stack_sym(at_fn_entry, is_return)]);
            push_padded_left(out, sym_vec.as_slice(), stack_depth, 124);
        }
        assert(out@ =~= old(out)@ + stack_text(stack_depth as nat, at_fn_entry, is_return));
    }

    /// Append the line for a context update to `out`.
    fn push_ctx(out: &mut Vec<u8>, address_width: u8, show_context: bool, ctx: &Context)
        ensures
            final(out)@ == old(out)@ + ctx_text(address_width as nat, show_context, *ctx),
    {
        push_repeat(out, 32, address_width as usize);
        proof {
            reveal_strlit("  Context: ");
            reveal_strlit("-mode");
            reveal_strlit(", ctx: ");
        }
        push_ascii(out, "  Context: ");
        ctx.privilege.push_name(out);
        push_ascii(out, "-mode");
        if show_context {
            push_ascii(out, ", ctx: ");
            push_dec(out, ctx.context);
        }
        out.push(10);
        assert(out@ =~= old(out)@ + ctx_text(address_width as nat, show_context, *ctx));
    }

    /// Whether any of the first `n` names is non-empty.
    fn any_named(symbols: &Vec<Vec<u8>>, n: usize) -> (r: bool)
        requires
            n <= symbols@.len(),
        ensures
            r == (symbols_text(symbols@.map_values(|s: Vec<u8>| s@).take(n as int)).len() > 0),
    {
        let ghost names = symbols@.map_values(|s: Vec<u8>| s@);
        let mut i: usize = 0;
        while i < n
            invariant
                i <= n,
                n <= symbols@.len(),
                names == symbols@.map_values(|s: Vec<u8>| s@),
                symbols_text(names.take(i as int)).len() == 0,
            decreases n - i,
        {
            proof {
                let t = names.take((i + 1) as int);
                assert(t.drop_last() =~= names.take(i as int));
            }
            if symbols[i].len() > 0 {
                proof {
                    Self::lemma_named_stays(names, (i + 1) as nat, n as nat);
                }
                return true;
            }
            i = i + 1;
        }
        false
    }

    /// Once a name was listed, the listing stays non-empty.
    proof fn lemma_named_stays(names: Seq<Seq<u8>>, i: nat, n: nat)
        requires
            i <= n <= names.len(),
            symbols_text(names.take(i as int)).len() > 0,
        ensures
            symbols_text(names.take(n as int)).len() > 0,
        decreases n - i,
    {
        if i < n {
            let t = names.take((i + 1) as int);
            assert(t.drop_last() =~= names.take(i as int));
            Self::lemma_named_stays(names, i + 1, n);
        }
    }

    /// Step lemma for the listing: with a named prefix, the next name is
    /// appended after a comma.
    proof fn lemma_any_named(names: Seq<Seq<u8>>, i: nat)
        requires
            i < names.len(),
        ensures
            ({
                let prev = symbols_text(names.take(i as int));
                let t = names.take((i + 1) as int);
                symbols_text(t) == if names[i as int].len() == 0 {
                    prev
                } else if prev.len() == 0 {
                    ascii(" "@) + names[i as int]
                } else {
                    prev + ascii(", "@) + names[i as int]
                }
            }),
    {
        let t = names.take((i + 1) as int);
        assert(t.drop_last() =~= names.take(i as int));
    }

    /// Process a single trap tracing item
    pub fn process_trap(&mut self, out: &mut Vec<u8>, pc: u64, info: &Trap)
        ensures
            final(out)@ == old(out)@ + old(self).blank() + trap_text(
                old(self).spec_address_width(),
                pc,
                *info,
            ),
            line_printed(*old(self), *final(self)),
    {
        let ghost start = out@;
        self.feed_blank(out);
        let digits = hex_bytes(pc);
        push_padded_left(out, digits.as_slice(), self.address_width as usize, 32);
        proof {
            reveal_strlit("  ");
        }
        push_ascii(out, "  ");
        info.push_text(out);
        out.push(10);
        assert(out@ =~= start + old(self).blank() + trap_text(self.address_width as nat, pc, *info));
    }

    /// Process a single context tracing item
    ///
    /// A context equal to the one printed last is not printed again.
    pub fn process_ctx(&mut self, out: &mut Vec<u8>, ctx: &Context)
        ensures
            final(out)@ == old(out)@ + ctx_output(*old(self), *ctx),
            ctx_processed(*old(self), *final(self), *ctx),
    {
        if let Some(c) = &self.context {
            if c.privilege == ctx.privilege && c.context == ctx.context {
                return;
            }
        }
        let ghost start = out@;
        self.context = Some(*ctx);
        self.feed_blank(out);
        Self::push_ctx(out, self.address_width, self.show_context, ctx);
        assert(out@ =~= start + old(self).blank() + ctx_text(
            self.address_width as nat,
            self.show_context,
            *ctx,
        ));
    }

    /// Report in a way that mixes well with the pretty output
    ///
    /// Nothing happens for no lines. Otherwise, the first line is marked and
    /// the others are indented. A pending blank line is printed before unless
    /// `feed_blank` is set, in which case a blank line is due after.
    pub fn report(&mut self, out: &mut Vec<u8>, lines: &Vec<Vec<u8>>, feed_blank: bool)
        ensures
            final(out)@ == old(out)@ + report_output(
                *old(self),
                lines@.map_values(|l: Vec<u8>| l@),
                feed_blank,
            ),
            reported(*old(self), *final(self), lines@.len(), feed_blank),
    {
        if lines.len() == 0 {
            return;
        }
        let ghost start = out@;
        if self.feed_blank && !feed_blank {
            out.push(10);
        }
        let ghost base = out@;
        self.feed_blank = feed_blank;
        let ghost texts = lines@.map_values(|l: Vec<u8>| l@);
        proof {
            reveal_strlit("--- ");
            reveal_strlit("    ");
        }
        push_ascii(out, "--- ");
        push_all(out, lines[0].as_slice());
        out.push(10);
        assert(texts.take(1) =~= seq![texts[0]]);
        assert(out@ =~= base + report_text(texts.take(1)));
        let mut i: usize = 1;
        while i < lines.len()
            invariant
                1 <= i <= lines@.len(),
                texts == lines@.map_values(|l: Vec<u8>| l@),
                out@ == base + report_text(texts.take(i as int)),
            decreases lines.len() - i,
        {
            proof {
                reveal_strlit("    ");
            }
            push_ascii(out, "    ");
            push_all(out, lines[i].as_slice());
            out.push(10);
            proof {
                let t = texts.take((i + 1) as int);
                assert(t.drop_last() =~= texts.take(i as int));
                assert(t.last() == lines@[i as int]@);
                assert(out@ =~= base + report_text(t));
            }
            i = i + 1;
        }
        assert(texts.take(texts.len() as int) =~= texts);
    }
}

} // verus!
