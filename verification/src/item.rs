//! Tracing items and the execution context they carry
//!
//! These types hold, as plain values, what this library reads of the items a
//! tracer emits.

use crate::text::{
    ascii, dec, dec_represents, digits_value, hex, hex_bytes, hex_represents, is_digit_of, pad_left, pow16,
    push_ascii, push_dec, push_hex, push_padded_left, represents, zero_padded_hex,
};
use vstd::prelude::*;

verus! {

/// RISC-V priviledge levels
#[derive(Copy, Clone, Debug, PartialEq, Eq, Structural, Hash)]
pub enum Privilege {
    User,
    Supervisor,
    Machine,
    Debug,
    VirtUser,
    VirtSupervisor,
}

impl Privilege {
    /// The numeric encoding of the privilege level.
    pub open spec fn spec_code(self) -> u8 {
        match self {
            Privilege::User => 0,
            Privilege::Supervisor => 1,
            Privilege::Machine => 3,
            Privilege::Debug => 4,
            Privilege::VirtUser => 5,
            Privilege::VirtSupervisor => 6,
        }
    }

    /// The short name of the privilege level.
    pub open spec fn spec_name(self) -> Seq<u8> {
        match self {
            Privilege::User => ascii("U"@),
            Privilege::Supervisor => ascii("S"@),
            Privilege::Machine => ascii("M"@),
            Privilege::Debug => ascii("D"@),
            Privilege::VirtUser => ascii("VU"@),
            Privilege::VirtSupervisor => ascii("VS"@),
        }
    }

    /// Retrieve the numeric encoding of this privilege level
    pub fn code(self) -> (r: u8)
        ensures
            r == self.spec_code(),
    {
        match self {
            Privilege::User => 0,
            Privilege::Supervisor => 1,
            Privilege::Machine => 3,
            Privilege::Debug => 4,
            Privilege::VirtUser => 5,
            Privilege::VirtSupervisor => 6,
        }
    }

    /// Decode a privilege level from its numeric encoding
    pub fn from_code(code: u8) -> (r: Option<Privilege>)
        ensures
            r matches Some(p) ==> p.spec_code() == code,
            r is None <==> !(code <= 1 || 3 <= code <= 6),
    {
        match code {
            0 => Some(Privilege::User),
            1 => Some(Privilege::Supervisor),
            3 => Some(Privilege::Machine),
            4 => Some(Privilege::Debug),
            5 => Some(Privilege::VirtUser),
            6 => Some(Privilege::VirtSupervisor),
            _ => None,
        }
    }

    /// Append the short name of this privilege level to `out`
    pub fn push_name(self, out: &mut Vec<u8>)
        ensures
            final(out)@ == old(out)@ + self.spec_name(),
    {
        match self {
            Privilege::User => {
                proof {
                    reveal_strlit("U");
                }
                push_ascii(out, "U");
            },
            Privilege::Supervisor => {
                proof {
                    reveal_strlit("S");
                }
                push_ascii(out, "S");
            },
            Privilege::Machine => {
                proof {
                    reveal_strlit("M");
                }
                push_ascii(out, "M");
            },
            Privilege::Debug => {
                proof {
                    reveal_strlit("D");
                }
                push_ascii(out, "D");
            },
            Privilege::VirtUser => {
                proof {
                    reveal_strlit("VU");
                }
                push_ascii(out, "VU");
            },
            Privilege::VirtSupervisor => {
                proof {
                    reveal_strlit("VS");
                }
                push_ascii(out, "VS");
            },
        }
    }
}

/// Execution context
#[derive(Copy, Clone, Debug, PartialEq, Eq, Structural, Hash)]
pub struct Context {
    /// The privilege level under which code is executed
    pub privilege: Privilege,
    /// The context of the execution
    pub context: u64,
}

impl Context {
    /// The context a tracer assumes before it learns of one: user mode and
    /// context zero
    pub fn initial() -> (r: Context)
        ensures
            r == (Context { privilege: Privilege::User, context: 0 }),
    {
        Context { privilege: Privilege::User, context: 0 }
    }
}

/// Information about a trap
#[derive(Copy, Clone, Debug, PartialEq, Eq, Structural)]
pub struct Trap {
    /// Cause of the trap or interrupt
    pub ecause: u16,
    /// The `tval` of an exception; `None` for an interrupt
    pub tval: Option<u64>,
}

impl Trap {
    /// The text describing this trap.
    pub open spec fn spec_text(self) -> Seq<u8> {
        match self.tval {
            Some(tval) => ascii("exception (ecause: "@) + dec(self.ecause as nat) + ascii(
                ", tval: "@,
            ) + hex(tval as nat) + ascii(")"@),
            None => ascii("interrupt (ecause: "@) + dec(self.ecause as nat) + ascii(")"@),
        }
    }

    /// This info refers to an interrupt
    pub fn is_interrupt(&self) -> (r: bool)
        ensures
            r == self.tval is None,
    {
        self.tval.is_none()
    }

    /// This info refers to an exception
    pub fn is_exception(&self) -> (r: bool)
        ensures
            r == self.tval is Some,
    {
        self.tval.is_some()
    }

    /// Append the text describing this trap to `out`
    pub fn push_text(&self, out: &mut Vec<u8>)
        ensures
            final(out)@ == old(out)@ + self.spec_text(),
    {
        match self.tval {
            Some(tval) => {
                proof {
                    reveal_strlit("exception (ecause: ");
                    reveal_strlit(", tval: ");
                    reveal_strlit(")");
                }
                push_ascii(out, "exception (ecause: ");
                push_dec(out, self.ecause as u64);
                push_ascii(out, ", tval: ");
                push_hex(out, tval);
                push_ascii(out, ")");
            },
            None => {
                proof {
                    reveal_strlit("interrupt (ecause: ");
                    reveal_strlit(")");
                }
                push_ascii(out, "interrupt (ecause: ");
                push_dec(out, self.ecause as u64);
                push_ascii(out, ")");
            },
        }
        assert(out@ =~= old(out)@ + self.spec_text());
    }
}

/// Bits from which an instruction was disassembled
#[derive(Copy, Clone, Debug, PartialEq, Eq, Structural)]
pub enum Bits {
    Bit16(u16),
    Bit32(u32),
    Bit48(u64),
    Bit64(u64),
}

impl Bits {
    /// The text of these bits: zero-padded lower-case hexadecimal digits, four
    /// for each 16 bits.
    pub open spec fn spec_text(self) -> Seq<u8> {
        match self {
            Bits::Bit16(v) => pad_left(hex(v as nat), 4, 48),
            Bits::Bit32(v) => pad_left(hex(v as nat), 8, 48),
            Bits::Bit48(v) => pad_left(hex(v as nat), 12, 48),
            Bits::Bit64(v) => pad_left(hex(v as nat), 16, 48),
        }
    }

    /// The bits of an unknown 32 bit instruction consisting of zeros
    pub fn zero() -> (r: Bits)
        ensures
            r == Bits::Bit32(0),
    {
        Bits::Bit32(0)
    }

    /// Append the text of these bits to `out`
    pub fn push_text(&self, out: &mut Vec<u8>)
        ensures
            final(out)@ == old(out)@ + self.spec_text(),
    {
        let (v, width): (u64, usize) = match *self {
            Bits::Bit16(v) => (v as u64, 4),
            Bits::Bit32(v) => (v as u64, 8),
            Bits::Bit48(v) => (v, 12),
            Bits::Bit64(v) => (v, 16),
        };
        let digits = hex_bytes(v);
        push_padded_left(out, digits.as_slice(), width, 48);
    }

    /// The text of these bits
    pub fn text(&self) -> (r: Vec<u8>)
        ensures
            r@ == self.spec_text(),
    {
        let mut r = Vec::new();
        self.push_text(&mut r);
        assert(r@ =~= self.spec_text());
        r
    }
}

/// Kind of a tracing [`Item`]
#[derive(Copy, Clone, Debug, PartialEq, Eq, Structural)]
pub enum ItemKind {
    /// Signals the retiring of the instruction with the given bits
    Regular(Bits),
    /// Signals a trap
    Trap(Trap),
    /// Signals an updated execution context
    Context(Context),
}

/// Tracing item: a retired instruction, a trap or a context update, at a PC
#[derive(Copy, Clone, Debug, PartialEq, Eq, Structural)]
pub struct Item {
    /// The PC (for exceptions the EPC)
    pub pc: u64,
    /// What happened at the PC
    pub kind: ItemKind,
}

/// The text of a trap names its kind and shows its cause as a decimal
/// number, the same for an exception and an interrupt; an exception's text
/// also shows its trap value as a lower-case hexadecimal number.
pub proof fn trap_text_shows_values(ecause: u16, tval: u64)
    ensures
        ({
            let cause = dec(ecause as nat);
            let value = hex(tval as nat);
            &&& represents(cause, 10, ecause as nat)
            &&& represents(value, 16, tval as nat)
            &&& (Trap { ecause, tval: Some(tval) }).spec_text() == ascii("exception (ecause: "@) + cause
                + ascii(", tval: "@) + value + ascii(")"@)
            &&& (Trap { ecause, tval: None }).spec_text() == ascii("interrupt (ecause: "@) + cause + ascii(
                ")"@,
            )
        }),
{
    dec_represents(ecause as nat);
    hex_represents(tval as nat);
}

/// `s` holds exactly `w` lower-case hexadecimal digits, standing for `n`.
pub open spec fn fixed_hex(s: Seq<u8>, w: nat, n: nat) -> bool {
    &&& s.len() == w
    &&& forall|i: int| 0 <= i < w ==> is_digit_of(#[trigger] s[i], 16)
    &&& digits_value(s, 16) == n
}

/// The text of instruction bits holds four lower-case hexadecimal digits for
/// each 16 bits, zero-padded, standing for the bits' value (for 48 bits, a
/// value that fits in them).
pub proof fn bits_text_digits(b: Bits)
    ensures
        match b {
            Bits::Bit16(v) => fixed_hex(b.spec_text(), 4, v as nat),
            Bits::Bit32(v) => fixed_hex(b.spec_text(), 8, v as nat),
            Bits::Bit48(v) => v < 0x1_0000_0000_0000 ==> fixed_hex(b.spec_text(), 12, v as nat),
            Bits::Bit64(v) => fixed_hex(b.spec_text(), 16, v as nat),
        },
{
    reveal_with_fuel(pow16, 17);
    match b {
        Bits::Bit16(v) => zero_padded_hex(v as nat, 4),
        Bits::Bit32(v) => zero_padded_hex(v as nat, 8),
        Bits::Bit48(v) => if v < 0x1_0000_0000_0000 {
            zero_padded_hex(v as nat, 12)
        },
        Bits::Bit64(v) => zero_padded_hex(v as nat, 16),
    }
}

} // verus!
