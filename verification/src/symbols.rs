//! Utilties for handling symbols

use crate::binary::{elf_header, spec_elf_header};
use crate::text::{ascii, hex, hex_represents, push_ascii, push_hex, represents};
use vstd::prelude::*;
use vstd::slice::slice_to_vec;
use vstd::utf8::{decode_utf8, encode_utf8, valid_utf8};

verus! {

/// `elf::abi::STT_NOTYPE`, the ELF symbol type of objects without a type
/// (such as labels), which the `elf` crate defines as 0.
#[verifier::external_body]
fn stt_notype() -> (r: u8)
    ensures
        r == 0,
{
    elf::abi::STT_NOTYPE
}

/// `elf::abi::STT_FUNC`, the ELF symbol type of functions, which the `elf`
/// crate defines as 2.
#[verifier::external_body]
fn stt_func() -> (r: u8)
    ensures
        r == 2,
{
    elf::abi::STT_FUNC
}

/// `elf::abi::STT_GNU_IFUNC`, the ELF symbol type of indirect functions,
/// which the `elf` crate defines as 10.
#[verifier::external_body]
fn stt_gnu_ifunc() -> (r: u8)
    ensures
        r == 10,
{
    elf::abi::STT_GNU_IFUNC
}

/// `elf::abi::SHN_ABS`, the section index of absolute symbols, which the
/// `elf` crate defines as 0xfff1.
#[verifier::external_body]
fn shn_abs() -> (r: u16)
    ensures
        r == 0xfff1,
{
    elf::abi::SHN_ABS
}

/// `elf::abi::SHN_LORESERVE`, the lowest reserved section index, which the
/// `elf` crate defines as 0xff00.
#[verifier::external_body]
fn shn_loreserve() -> (r: u16)
    ensures
        r == 0xff00,
{
    elf::abi::SHN_LORESERVE
}

/// `elf::abi::SHN_HIRESERVE`, the highest reserved section index, which the
/// `elf` crate defines as 0xffff.
#[verifier::external_body]
fn shn_hireserve() -> (r: u16)
    ensures
        r == 0xffff,
{
    elf::abi::SHN_HIRESERVE
}

/// `elf::abi::ET_REL`, the ELF file type of relocatable files, which the
/// `elf` crate defines as 1.
#[verifier::external_body]
fn et_rel() -> (r: u16)
    ensures
        r == 1,
{
    elf::abi::ET_REL
}

/// Where the address of an ELF symbol comes from
#[derive(Copy, Clone, Debug, PartialEq, Eq, Structural)]
pub enum Placement {
    /// The symbol's value is its address
    Value,
    /// The symbol lives in a reserved section and has no address
    Reserved,
    /// The symbol's value is relative to the address of the section with the
    /// given index
    Section(u16),
}

/// Determine where the address of a symbol comes from, given its section
/// index and the ELF file's type
///
/// Absolute symbols and symbols of files that are not relocatable carry
/// their address; other symbols in reserved sections have none; the
/// remaining ones are placed relative to their section.
pub fn placement(st_shndx: u16, e_type: u16) -> (r: Placement)
    ensures
        st_shndx == 0xfff1 ==> r == Placement::Value,
        st_shndx != 0xfff1 && 0xff00 <= st_shndx ==> r == Placement::Reserved,
        st_shndx < 0xff00 && e_type != 1 ==> r == Placement::Value,
        st_shndx < 0xff00 && e_type == 1 ==> r == Placement::Section(st_shndx),
{
    if st_shndx == shn_abs() {
        Placement::Value
    } else if shn_loreserve() <= st_shndx && st_shndx <= shn_hireserve() {
        Placement::Reserved
    } else if e_type != et_rel() {
        Placement::Value
    } else {
        Placement::Section(st_shndx)
    }
}

/// The address of a symbol relative to a section at `section_addr`, unless it
/// exceeds the address space
pub fn section_relative(section_addr: u64, st_value: u64) -> (r: Option<u64>)
    ensures
        section_addr + st_value <= u64::MAX ==> r == Some((section_addr + st_value) as u64),
        section_addr + st_value > u64::MAX ==> r is None,
{
    section_addr.checked_add(st_value)
}

/// Why a symbol table entry yields no symbol
#[derive(Copy, Clone, Debug, PartialEq, Eq, Structural)]
pub enum SymbolError {
    /// The header of the section with this index, relative to which the
    /// symbol is placed, could not be accessed
    NoSection(u16),
    /// The symbol's address exceeds the address space
    InvalidAddress,
    /// The symbol's name could not be retrieved
    NoName,
    /// The data are no ELF file that the `elf` crate parses
    NotElf,
}

/// The position of the first NUL byte in `s` at or after `from`, if any.
pub open spec fn first_nul(s: Seq<u8>, from: int) -> Option<int>
    decreases s.len() - from,
{
    if from < 0 || from >= s.len() {
        None
    } else if s[from] == 0 {
        Some(from)
    } else {
        first_nul(s, from + 1)
    }
}

/// The name at `offset` in the ELF string table `strtab`: the bytes from
/// `offset` up to the next NUL, read as UTF-8; none if the table is empty, no
/// NUL follows the offset or the bytes are no UTF-8.
pub open spec fn strtab_name_of(strtab: Seq<u8>, offset: nat) -> Option<Seq<char>> {
    if strtab.len() == 0 {
        None
    } else {
        match first_nul(strtab, offset as int) {
            None => None,
            Some(end) => {
                let raw = strtab.subrange(offset as int, end);
                if valid_utf8(raw) {
                    Some(decode_utf8(raw))
                } else {
                    None
                }
            },
        }
    }
}

/// Reads the name at `offset` in the string table `strtab` with
/// `elf::string_table::StringTable::get`.
///
/// Claimed: `get` fails for an empty table, an offset beyond it and a string
/// without a terminating NUL, and returns the bytes up to the NUL as a `str`
/// where `core::str::from_utf8` accepts them; otherwise it fails.
#[verifier::external_body]
fn strtab_name(strtab: &[u8], offset: u32) -> (r: Option<String>)
    ensures
        r matches Some(s) ==> strtab_name_of(strtab@, offset as nat) == Some(s@),
        r is None ==> strtab_name_of(strtab@, offset as nat) is None,
{
    elf::string_table::StringTable::new(strtab).get(offset as usize).ok().map(String::from)
}

/// The address of the section with index `index` in the ELF file in `data`,
/// or none if the file or its section header table does not parse or has no
/// such entry.
pub uninterp spec fn spec_section_addr(data: Seq<u8>, index: u16) -> Option<u64>;

/// Reads the `sh_addr` field of the section header with index `index` of the
/// little-endian ELF file in `data`, with
/// `elf::ElfBytes::<elf::endian::LittleEndian>::minimal_parse`,
/// `elf::ElfBytes::section_headers` and
/// `elf::section::SectionHeaderTable::get`.
///
/// Claimed: the result is a function of the bytes and the index, none where
/// a step fails. Each step checks its ranges and arithmetic and returns an
/// error where they fail.
#[verifier::external_body]
fn section_addr(data: &[u8], index: u16) -> (r: Option<u64>)
    ensures
        r == spec_section_addr(data@, index),
{
    let elf = elf::ElfBytes::<elf::endian::LittleEndian>::minimal_parse(data).ok()?;
    elf.section_headers()?.get(index as usize).ok().map(|h| h.sh_addr)
}

/// The address of a symbol with the given section index and value in an ELF
/// file of the given type, where `section_addr` is the address of the
/// section with that index, if its header could be accessed.
pub open spec fn spec_symbol_address(st_shndx: u16, e_type: u16, st_value: u64, section_addr: Option<u64>) -> Result<
    Option<u64>,
    SymbolError,
> {
    if st_shndx == 0xfff1 {
        Ok(Some(st_value))
    } else if 0xff00 <= st_shndx {
        Ok(None)
    } else if e_type != 1 {
        Ok(Some(st_value))
    } else {
        match section_addr {
            None => Err(SymbolError::NoSection(st_shndx)),
            Some(a) => if a + st_value <= u64::MAX {
                Ok(Some((a + st_value) as u64))
            } else {
                Err(SymbolError::InvalidAddress)
            },
        }
    }
}

/// Determine the address of a symbol from its section index and value and
/// the ELF file's type
///
/// A symbol in a reserved section other than the absolute one has none.
/// `section_addr` is the address of the section with index `st_shndx`, if
/// its header could be accessed; it matters only for symbols placed relative
/// to their section.
pub fn symbol_address(st_shndx: u16, e_type: u16, st_value: u64, section_addr: Option<u64>) -> (r: Result<
    Option<u64>,
    SymbolError,
>)
    ensures
        r == spec_symbol_address(st_shndx, e_type, st_value, section_addr),
{
    match placement(st_shndx, e_type) {
        Placement::Value => Ok(Some(st_value)),
        Placement::Reserved => Ok(None),
        Placement::Section(index) => match section_addr {
            None => Err(SymbolError::NoSection(index)),
            Some(a) => match section_relative(a, st_value) {
                Some(address) => Ok(Some(address)),
                None => Err(SymbolError::InvalidAddress),
            },
        },
    }
}

/// A symbol covering a range of addresses
#[derive(Debug)]
pub struct Symbol {
    name: String,
    symtype: u8,
    bind: u8,
    visibility: u8,
    address: u64,
    size: u64,
}

impl Clone for Symbol {
    fn clone(&self) -> (r: Self)
        ensures
            r == *self,
    {
        Symbol { name: self.name.clone(), ..*self }
    }
}

impl Symbol {
    /// The same symbol, placed at `address`.
    pub closed spec fn spec_with_address(self, address: u64) -> Symbol {
        Symbol { address, ..self }
    }

    /// The symbol's name.
    pub closed spec fn spec_name(self) -> Seq<char> {
        self.name@
    }

    /// The symbol's type.
    pub closed spec fn spec_symtype(self) -> u8 {
        self.symtype
    }

    /// The symbol's binding.
    pub closed spec fn spec_bind(self) -> u8 {
        self.bind
    }

    /// The symbol's visibility.
    pub closed spec fn spec_visibility(self) -> u8 {
        self.visibility
    }

    /// The symbol's address.
    pub closed spec fn spec_address(self) -> u64 {
        self.address
    }

    /// The symbol's size.
    pub closed spec fn spec_size(self) -> u64 {
        self.size
    }

    /// Create a symbol from the fields of an ELF symbol table entry: its
    /// name, info and other bytes, address and size
    ///
    /// The type is the low nibble of the info byte and the binding its high
    /// nibble; the visibility is the low two bits of the other byte.
    pub fn new(name: String, st_info: u8, st_other: u8, address: u64, size: u64) -> (r: Symbol)
        ensures
            r.spec_name() == name@,
            r.spec_symtype() == st_info % 16,
            r.spec_bind() == st_info / 16,
            r.spec_visibility() == st_other % 4,
            r.spec_address() == address,
            r.spec_size() == size,
    {
        let symtype = st_info & 0xf;
        let bind = st_info >> 4;
        let visibility = st_other & 0x3;
        assert(st_info & 0xf == st_info % 16) by (bit_vector);
        assert(st_info >> 4 == st_info / 16) by (bit_vector);
        assert(st_other & 0x3 == st_other % 4) by (bit_vector);
        Symbol { name, symtype, bind, visibility, address, size }
    }

    /// Create a symbol from an ELF symbol table entry
    ///
    /// `name` is the entry's name, if it could be retrieved, and
    /// `section_addr` the address of the entry's section, if its header could
    /// be accessed. Entries in reserved sections other than the absolute one
    /// yield no symbol; otherwise the address is determined first and the
    /// name then.
    pub fn from_entry(
        name: Option<String>,
        st_shndx: u16,
        e_type: u16,
        st_info: u8,
        st_other: u8,
        st_value: u64,
        st_size: u64,
        section_addr: Option<u64>,
    ) -> (r: Result<Option<Symbol>, SymbolError>)
        ensures
            match spec_symbol_address(st_shndx, e_type, st_value, section_addr) {
                Err(e) => r == Err::<Option<Symbol>, SymbolError>(e),
                Ok(None) => r == Ok::<Option<Symbol>, SymbolError>(None),
                Ok(Some(address)) => match name {
                    None => r == Err::<Option<Symbol>, SymbolError>(SymbolError::NoName),
                    Some(n) => r matches Ok(Some(s)) && s.spec_name() == n@ && s.spec_symtype()
                        == st_info % 16 && s.spec_bind() == st_info / 16 && s.spec_visibility()
                        == st_other % 4 && s.spec_address() == address && s.spec_size() == st_size,
                },
            },
    {
        match symbol_address(st_shndx, e_type, st_value, section_addr) {
            Err(e) => Err(e),
            Ok(None) => Ok(None),
            Ok(Some(address)) => match name {
                None => Err(SymbolError::NoName),
                Some(n) => Ok(Some(Symbol::new(n, st_info, st_other, address, st_size))),
            },
        }
    }

    /// The same symbol, placed at another address
    pub fn with_address(self, address: u64) -> (r: Symbol)
        ensures
            r.spec_name() == self.spec_name(),
            r.spec_symtype() == self.spec_symtype(),
            r.spec_bind() == self.spec_bind(),
            r.spec_visibility() == self.spec_visibility(),
            r.spec_address() == address,
            r.spec_size() == self.spec_size(),
            r == self.spec_with_address(address),
    {
        Symbol { address, ..self }
    }

    /// Retrieve the symbol's name
    pub fn name(&self) -> (r: &str)
        ensures
            r@ == self.spec_name(),
    {
        self.name.as_str()
    }

    /// Retrieve the symbol's type
    pub fn symtype(&self) -> (r: u8)
        ensures
            r == self.spec_symtype(),
    {
        self.symtype
    }

    /// Retrieve the symbol's binding attributes
    pub fn bind(&self) -> (r: u8)
        ensures
            r == self.spec_bind(),
    {
        self.bind
    }

    /// Retrieve the symbol's visibility
    pub fn visibility(&self) -> (r: u8)
        ensures
            r == self.spec_visibility(),
    {
        self.visibility
    }

    /// Retrieve the symbol's (virtual) address
    pub fn address(&self) -> (r: u64)
        ensures
            r == self.spec_address(),
    {
        self.address
    }

    /// Retrieve the symbol's size
    pub fn size(&self) -> (r: u64)
        ensures
            r == self.spec_size(),
    {
        self.size
    }

    /// Check whether this symbol potentially refers to code objects
    ///
    /// Returns `true` if the symbol's type indicates a function or no type. The
    /// latter covers labels.
    pub fn is_code(&self) -> (r: bool)
        ensures
            r == (self.spec_symtype() == 2 || self.spec_symtype() == 10 || self.spec_symtype() == 0),
    {
        let t = self.symtype();
        t == stt_func() || t == stt_gnu_ifunc() || t == stt_notype()
    }
}

/// Create the symbol of an entry of the symbol table of the ELF file in
/// `data`, whose names are in the string table `strtab`
///
/// The entry is given by its fields. The file's type and, for symbols placed
/// relative to their section, the section's address are read from `data`,
/// the name from `strtab`.
pub fn symbol_from_elf(
    data: &[u8],
    strtab: &[u8],
    st_name: u32,
    st_shndx: u16,
    st_info: u8,
    st_other: u8,
    st_value: u64,
    st_size: u64,
) -> (r: Result<Option<Symbol>, SymbolError>)
    ensures
        match spec_elf_header(data@) {
            None => r == Err::<Option<Symbol>, SymbolError>(SymbolError::NotElf),
            Some((e_type, _)) => match spec_symbol_address(
                st_shndx,
                e_type,
                st_value,
                spec_section_addr(data@, st_shndx),
            ) {
                Err(e) => r == Err::<Option<Symbol>, SymbolError>(e),
                Ok(None) => r == Ok::<Option<Symbol>, SymbolError>(None),
                Ok(Some(address)) => match strtab_name_of(strtab@, st_name as nat) {
                    None => r == Err::<Option<Symbol>, SymbolError>(SymbolError::NoName),
                    Some(n) => r matches Ok(Some(s)) && s.spec_name() == n && s.spec_symtype()
                        == st_info % 16 && s.spec_bind() == st_info / 16 && s.spec_visibility()
                        == st_other % 4 && s.spec_address() == address && s.spec_size() == st_size,
                },
            },
        },
{
    match elf_header(data) {
        None => Err(SymbolError::NotElf),
        Some((e_type, _)) => Symbol::from_entry(
            strtab_name(strtab, st_name),
            st_shndx,
            e_type,
            st_info,
            st_other,
            st_value,
            st_size,
            section_addr(data, st_shndx),
        ),
    }
}

/// Placing a symbol at an address changes its address and nothing else.
pub proof fn with_address_keeps_fields(s: Symbol, address: u64)
    ensures
        s.spec_with_address(address).spec_address() == address,
        s.spec_with_address(address).spec_name() == s.spec_name(),
        s.spec_with_address(address).spec_symtype() == s.spec_symtype(),
        s.spec_with_address(address).spec_bind() == s.spec_bind(),
        s.spec_with_address(address).spec_visibility() == s.spec_visibility(),
        s.spec_with_address(address).spec_size() == s.spec_size(),
{
}

/// Each symbol that starts at `addr` is one of `symbols` and starts there.
pub proof fn starting_at_members(symbols: Seq<Symbol>, addr: u64)
    ensures
        forall|k: int|
            #![trigger starting_at(symbols, addr)[k]]
            0 <= k < starting_at(symbols, addr).len() ==> starting_at(symbols, addr)[k].spec_address() == addr
                && symbols.contains(starting_at(symbols, addr)[k]),
    decreases symbols.len(),
{
    if symbols.len() > 0 {
        starting_at_members(symbols.drop_last(), addr);
        let prev = starting_at(symbols.drop_last(), addr);
        assert forall|k: int| 0 <= k < starting_at(symbols, addr).len() implies (#[trigger] starting_at(
            symbols,
            addr,
        )[k]).spec_address() == addr && symbols.contains(starting_at(symbols, addr)[k]) by {
            if k < prev.len() {
                assert(starting_at(symbols, addr)[k] == prev[k]);
                assert(prev[k].spec_address() == addr && symbols.drop_last().contains(prev[k]));
                let j = choose|j: int| 0 <= j < symbols.drop_last().len() && symbols.drop_last()[j] == prev[k];
                assert(symbols[j] == prev[k]);
            } else {
                assert(symbols[symbols.len() - 1] == symbols.last());
            }
        }
    }
}

/// The symbols that a table gives for `addr` all start at `addr`: each is a
/// symbol of the table starting at `addr` less the table's offset, placed at
/// `addr` with its other fields kept.
pub proof fn table_symbols_start_at(t: SymbolTable, addr: u64, i: int)
    requires
        0 <= i < t.symbols_at(addr).len(),
    ensures
        addr >= t.spec_offset(),
        t.symbols_at(addr)[i].spec_address() == addr,
        exists|u: Symbol|
            #![trigger t.spec_symbols().contains(u)]
            t.spec_symbols().contains(u) && u.spec_address() == addr - t.spec_offset()
                && t.symbols_at(addr)[i] == u.spec_with_address(addr)
                && t.symbols_at(addr)[i].spec_name() == u.spec_name()
                && t.symbols_at(addr)[i].spec_symtype() == u.spec_symtype()
                && t.symbols_at(addr)[i].spec_bind() == u.spec_bind()
                && t.symbols_at(addr)[i].spec_visibility() == u.spec_visibility()
                && t.symbols_at(addr)[i].spec_size() == u.spec_size(),
{
    let mapped = (addr - t.spec_offset()) as u64;
    starting_at_members(t.spec_symbols(), mapped);
    let found = starting_at(t.spec_symbols(), mapped);
    assert(addr >= t.spec_offset());
    assert(t.symbols_at(addr) == found.map_values(|s: Symbol| s.spec_with_address(addr)));
    assert(0 <= i < found.len());
    let u = found[i];
    assert(u.spec_address() == mapped && t.spec_symbols().contains(u));
    assert(t.symbols_at(addr)[i] == u.spec_with_address(addr));
    with_address_keeps_fields(u, addr);
}

/// The symbols among `symbols` that start at `addr`, in order.
pub open spec fn starting_at(symbols: Seq<Symbol>, addr: u64) -> Seq<Symbol>
    decreases symbols.len(),
{
    if symbols.len() == 0 {
        Seq::empty()
    } else {
        let prev = starting_at(symbols.drop_last(), addr);
        if symbols.last().spec_address() == addr {
            prev.push(symbols.last())
        } else {
            prev
        }
    }
}

/// The UTF-8 bytes of the names of `symbols`.
pub open spec fn names_of(symbols: Seq<Symbol>) -> Seq<Seq<u8>> {
    symbols.map_values(|s: Symbol| encode_utf8(s.spec_name()))
}

/// Retrieve the names of the given symbols, as UTF-8 bytes
pub fn symbol_names(symbols: &Vec<Symbol>) -> (r: Vec<Vec<u8>>)
    ensures
        r@.map_values(|n: Vec<u8>| n@) == names_of(symbols@),
{
    let mut r: Vec<Vec<u8>> = Vec::new();
    let mut i: usize = 0;
    while i < symbols.len()
        invariant
            i <= symbols@.len(),
            r@.map_values(|n: Vec<u8>| n@) == names_of(symbols@.take(i as int)),
        decreases symbols.len() - i,
    {
        let ghost before = r@;
        let name = slice_to_vec(symbols[i].name.as_str().as_bytes());
        assert(name@ == encode_utf8(symbols@[i as int].spec_name()));
        r.push(name);
        assert(r@.map_values(|n: Vec<u8>| n@) =~= before.map_values(|n: Vec<u8>| n@).push(name@));
        assert(symbols@.take(i + 1) =~= symbols@.take(i as int).push(symbols@[i as int]));
        assert(names_of(symbols@.take(i + 1)) =~= names_of(symbols@.take(i as int)).push(name@));
        i = i + 1;
    }
    assert(symbols@.take(symbols@.len() as int) =~= symbols@);
    r
}

/// Provider for symbols
pub trait Provider {
    /// The symbols that start at `addr`, in order.
    spec fn symbols_at(&self, addr: u64) -> Seq<Symbol>;

    /// Retrieve the [`Symbol`]s with the given (start) address
    ///
    /// If no symbols can be found, the result is empty.
    fn get_symbols(&self, addr: u64) -> (r: Vec<Symbol>)
        ensures
            r@ == self.symbols_at(addr),
    ;
}

/// The symbols of a binary that is placed at some offset
#[derive(Clone, Debug)]
pub struct SymbolTable {
    symbols: Vec<Symbol>,
    offset: u64,
}

impl SymbolTable {
    /// The symbols, with addresses relative to the binary.
    pub closed spec fn spec_symbols(self) -> Seq<Symbol> {
        self.symbols@
    }

    /// The address at which the binary is placed.
    pub closed spec fn spec_offset(self) -> u64 {
        self.offset
    }

    /// Create a table of the symbols of a binary placed at `offset`
    pub fn new(symbols: Vec<Symbol>, offset: u64) -> (r: SymbolTable)
        ensures
            r.spec_symbols() == symbols@,
            r.spec_offset() == offset,
    {
        SymbolTable { symbols, offset }
    }
}

impl Provider for SymbolTable {
    /// The symbols starting at the address within the binary that `addr` maps
    /// to, placed at `addr`; none for addresses below the offset.
    open spec fn symbols_at(&self, addr: u64) -> Seq<Symbol> {
        if addr >= self.spec_offset() {
            starting_at(self.spec_symbols(), (addr - self.spec_offset()) as u64).map_values(
                |s: Symbol| s.spec_with_address(addr),
            )
        } else {
            Seq::empty()
        }
    }

    fn get_symbols(&self, addr: u64) -> (r: Vec<Symbol>) {
        let mut r: Vec<Symbol> = Vec::new();
        let mapped = match offset_address(addr, self.offset) {
            Some(a) => a,
            None => {
                return r;
            },
        };
        let ghost syms = self.symbols@;
        let mut i: usize = 0;
        while i < self.symbols.len()
            invariant
                i <= syms.len(),
                syms == self.symbols@,
                mapped == addr - self.offset,
                r@ == starting_at(syms.take(i as int), mapped).map_values(
                    |s: Symbol| s.spec_with_address(addr),
                ),
            decreases self.symbols.len() - i,
        {
            let ghost before = r@;
            if self.symbols[i].address == mapped {
                let sym = self.symbols[i].clone().with_address(addr);
                r.push(sym);
            }
            proof {
                let t = syms.take(i + 1);
                assert(t.drop_last() =~= syms.take(i as int));
                assert(t.last() == syms[i as int]);
                assert(r@ =~= starting_at(t, mapped).map_values(|s: Symbol| s.spec_with_address(addr)));
            }
            i = i + 1;
        }
        assert(syms.take(syms.len() as int) =~= syms);
        r
    }
}

impl Provider for Vec<SymbolTable> {
    /// The symbols of all tables, in order.
    open spec fn symbols_at(&self, addr: u64) -> Seq<Symbol> {
        symbols_in(self@, addr)
    }

    fn get_symbols(&self, addr: u64) -> (r: Vec<Symbol>) {
        let mut r: Vec<Symbol> = Vec::new();
        let mut i: usize = 0;
        assert(symbols_in(self@.take(0), addr) =~= Seq::<Symbol>::empty());
        while i < self.len()
            invariant
                i <= self@.len(),
                r@ == symbols_in(self@.take(i as int), addr),
            decreases self.len() - i,
        {
            let ghost before = r@;
            let mut found = self[i].get_symbols(addr);
            let ghost added = found@;
            r.append(&mut found);
            proof {
                let t = self@.take(i + 1);
                assert(t.drop_last() =~= self@.take(i as int));
                assert(t.last() == self@[i as int]);
                assert(r@ =~= before + added);
            }
            i = i + 1;
        }
        assert(self@.take(self@.len() as int) =~= self@);
        r
    }
}

/// The symbols starting at `addr` in all of the tables, in order.
pub open spec fn symbols_in(tables: Seq<SymbolTable>, addr: u64) -> Seq<Symbol>
    decreases tables.len(),
{
    if tables.len() == 0 {
        Seq::empty()
    } else {
        symbols_in(tables.drop_last(), addr) + tables.last().symbols_at(addr)
    }
}

/// The first non-empty name among `names`, if any.
pub open spec fn first_name(names: Seq<Seq<u8>>) -> Option<Seq<u8>>
    decreases names.len(),
{
    if names.len() == 0 {
        None
    } else if names[0].len() > 0 {
        Some(names[0])
    } else {
        first_name(names.drop_first())
    }
}

/// The name of the fn at `entry`: the first non-empty name of the symbols
/// there, or else the address in hexadecimal with a `0x` prefix.
pub open spec fn fn_name_text(names: Seq<Seq<u8>>, entry: u64) -> Seq<u8> {
    match first_name(names) {
        Some(n) => n,
        None => ascii("0x"@) + hex(entry as nat),
    }
}

/// Name the fn at `entry`, given the names of the symbols there
pub fn fn_name(names: &Vec<Vec<u8>>, entry: u64) -> (r: Vec<u8>)
    ensures
        r@ == fn_name_text(names@.map_values(|n: Vec<u8>| n@), entry),
{
    let ghost ns = names@.map_values(|n: Vec<u8>| n@);
    let mut i: usize = 0;
    assert(ns.skip(0) =~= ns);
    while i < names.len()
        invariant
            i <= names@.len(),
            ns == names@.map_values(|n: Vec<u8>| n@),
            first_name(ns) == first_name(ns.skip(i as int)),
        decreases names.len() - i,
    {
        assert(ns.skip(i as int)[0] == names@[i as int]@);
        if names[i].len() > 0 {
            return slice_to_vec(names[i].as_slice());
        }
        assert(ns.skip(i as int).drop_first() =~= ns.skip(i + 1));
        i = i + 1;
    }
    assert(ns.skip(i as int).len() == 0);
    let mut r: Vec<u8> = Vec::new();
    proof {
        reveal_strlit("0x");
    }
    push_ascii(&mut r, "0x");
    push_hex(&mut r, entry);
    r
}

/// A fn at whose entry no symbol has a name is named by its address: `0x`
/// and the address as a lower-case hexadecimal number.
pub proof fn unnamed_fn_named_by_address(names: Seq<Seq<u8>>, entry: u64)
    requires
        forall|i: int| 0 <= i < names.len() ==> (#[trigger] names[i]).len() == 0,
    ensures
        exists|a: Seq<u8>|
            #![trigger represents(a, 16, entry as nat)]
            represents(a, 16, entry as nat) && fn_name_text(names, entry) == ascii("0x"@) + a,
    decreases names.len(),
{
    if names.len() > 0 {
        assert(names[0].len() == 0);
        let rest = names.drop_first();
        assert forall|i: int| 0 <= i < rest.len() implies (#[trigger] rest[i]).len() == 0 by {
            assert(rest[i] == names[i + 1]);
        }
        unnamed_fn_named_by_address(rest, entry);
        assert(first_name(names) == first_name(rest));
    }
    hex_represents(entry as nat);
    assert(represents(hex(entry as nat), 16, entry as nat));
}

/// Map an address to the address within an object placed at `offset`, if the
/// address is not below it
pub fn offset_address(addr: u64, offset: u64) -> (r: Option<u64>)
    ensures
        addr >= offset ==> r == Some((addr - offset) as u64),
        addr < offset ==> r is None,
{
    addr.checked_sub(offset)
}

} // verus!
