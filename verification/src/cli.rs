//! Command line option types

use crate::binary::Xlen;
use vstd::prelude::*;

verus! {

/// Packet format
#[derive(Copy, Clone, Debug, PartialEq, Eq, Structural)]
pub enum PacketFormat {
    /// RISC-V Encapsulation structures
    Encap,
    /// Siemens Messaging Infrastructure (SMI)
    Smi,
}

impl Default for PacketFormat {
    fn default() -> (r: PacketFormat)
        ensures
            r == PacketFormat::Encap,
    {
        PacketFormat::Encap
    }
}

/// Target specification
#[derive(Copy, Clone, Debug, PartialEq, Eq, Structural)]
pub enum Target {
    Rv32I,
    Rv64I,
}

impl Target {
    /// The register width of this target
    pub fn xlen(self) -> (r: Xlen)
        ensures
            self == Target::Rv32I ==> r == Xlen::Rv32,
            self == Target::Rv64I ==> r == Xlen::Rv64,
    {
        match self {
            Target::Rv32I => Xlen::Rv32,
            Target::Rv64I => Xlen::Rv64,
        }
    }

    /// The instruction address width to assume for this target
    pub fn iaddress_width(self) -> (r: u8)
        ensures
            self == Target::Rv32I ==> r == 32,
            self == Target::Rv64I ==> r == 64,
    {
        match self {
            Target::Rv32I => 32,
            Target::Rv64I => 64,
        }
    }
}

/// File to write output to
#[derive(Clone, Debug)]
pub struct Output {
    path: String,
}

impl Output {
    /// The path of the file.
    pub closed spec fn spec_path(self) -> Seq<char> {
        self.path@
    }

    /// Name the file to write to
    pub fn new(path: String) -> (r: Output)
        ensures
            r.spec_path() == path@,
    {
        Output { path }
    }

    /// Retrieve the path of the file
    pub fn path(&self) -> (r: &str)
        ensures
            r@ == self.spec_path(),
    {
        self.path.as_str()
    }
}

} // verus!
