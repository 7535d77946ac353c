use rvet::binary::{parse_hex, BuildError, IntError, Kind, OptionError, Rom, Spec, Xlen};
use rvet::cli::{Output, PacketFormat, Target};
use rvet::symbols::{
    fn_name, offset_address, placement, section_relative, symbol_address, symbol_from_elf, symbol_names, Placement, Provider, Symbol,
    SymbolError, SymbolTable,
};

#[test]
fn kind_names() {
    assert_eq!(Kind::from_str(b"bin"), Ok(Kind::Bin));
    assert_eq!(Kind::from_str(b"binary"), Ok(Kind::Bin));
    assert_eq!(Kind::from_str(b"raw"), Ok(Kind::Bin));
    assert_eq!(Kind::from_str(b"elf"), Ok(Kind::Elf));
    assert_eq!(Kind::from_str(b"exe"), Err(b"Invalid type: exe".to_vec()));
}

#[test]
fn hex_like_from_str_radix() {
    for s in ["1000", "+ff", "FFFFffffFFFFffff", "0", "", "+", "-1", "g", "10000000000000000", "+-1"] {
        let expected = u64::from_str_radix(s, 16);
        match parse_hex(s.as_bytes()) {
            Ok(v) => assert_eq!(Ok(v), expected.map_err(|_| ()), "{s}"),
            Err(e) => assert_eq!(expected.unwrap_err().to_string(), e.message(), "{s}"),
        }
    }
    assert_eq!(parse_hex(b""), Err(IntError::Empty));
    assert_eq!(parse_hex(b"12x"), Err(IntError::InvalidDigit));
    assert_eq!(parse_hex(b"1ffffffffffffffff"), Err(IntError::PosOverflow));
}

#[test]
fn code_options() {
    let opts = vec![b"type=elf".to_vec(), b"offset=80000000".to_vec(), b"type=raw".to_vec()];
    assert_eq!(Spec::from_options(&opts), Ok(Spec { kind: Some(Kind::Bin), offset: Some(0x8000_0000) }));
    assert_eq!(Spec::from_options(&vec![]), Ok(Spec { kind: None, offset: None }));
    assert_eq!(Spec::from_options(&vec![b"type".to_vec()]), Err(OptionError::NotKeyValue));
    assert_eq!(
        Spec::from_options(&vec![b"size=1".to_vec(), b"type".to_vec()]),
        Err(OptionError::UnknownKey(b"size".to_vec()))
    );
    assert_eq!(
        Spec::from_options(&vec![b"type=coff".to_vec()]),
        Err(OptionError::InvalidType(b"Invalid type: coff".to_vec()))
    );
    assert_eq!(
        Spec::from_options(&vec![b"offset=0x10".to_vec()]),
        Err(OptionError::InvalidOffset(IntError::InvalidDigit))
    );
    assert_eq!(
        Spec::from_options(&vec![b"offset=a=b".to_vec()]),
        Err(OptionError::InvalidOffset(IntError::InvalidDigit))
    );
}

#[test]
fn placement_decisions() {
    let none = Spec { kind: None, offset: None };
    assert_eq!(none.kind_for(b"\x7fELF\x01"), Kind::Elf);
    assert_eq!(none.kind_for(b"\x7fEL"), Kind::Bin);
    assert_eq!(Spec { kind: Some(Kind::Bin), offset: None }.kind_for(b"\x7fELF"), Kind::Bin);
    assert_eq!(none.raw_offset(), Err(BuildError::NeedOffsetRaw));
    assert_eq!(Spec { kind: None, offset: Some(5) }.raw_offset(), Ok(5));
    assert_eq!(none.elf_offset(2), Ok(None));
    assert_eq!(none.elf_offset(3), Err(BuildError::NeedOffsetShared));
    assert_eq!(Spec { kind: None, offset: Some(8) }.elf_offset(3), Ok(Some(8)));
}

#[test]
fn spike_rom() {
    assert_eq!(
        Rom::Spike.code(Xlen::Rv32),
        b"\x97\x02\x00\x00\x93\x85\x02\x02\x73\x25\x40\xf1\x83\xa2\x82\x01\x82\x82".to_vec()
    );
    assert_eq!(
        Rom::Spike.code(Xlen::Rv64),
        b"\x97\x02\x00\x00\x93\x85\x02\x02\x73\x25\x40\xf1\x83\xb2\x82\x01\x82\x82".to_vec()
    );
    assert_eq!(Rom::Spike.offset(), 0x1000);
}

#[test]
fn cli_values() {
    assert_eq!(PacketFormat::default(), PacketFormat::Encap);
    assert_eq!(Target::Rv32I.iaddress_width(), 32);
    assert_eq!(Target::Rv64I.iaddress_width(), 64);
    assert_eq!(Target::Rv64I.xlen(), Xlen::Rv64);
    assert_eq!(Output::new("out.csv".to_string()).path(), "out.csv");
}

#[test]
fn symbols() {
    let s = Symbol::new("main".to_string(), 0x12, 0x2, 0x100, 16);
    assert_eq!(s.name(), "main");
    assert_eq!(s.symtype(), 2);
    assert_eq!(s.bind(), 1);
    assert_eq!(s.visibility(), 2);
    assert_eq!(s.address(), 0x100);
    assert_eq!(s.size(), 16);
    assert!(s.is_code());
    assert!(Symbol::new("l".to_string(), 0x00, 0, 0, 0).is_code());
    assert!(Symbol::new("i".to_string(), 0x1a, 0, 0, 0).is_code());
    assert!(!Symbol::new("o".to_string(), 0x11, 0, 0, 0).is_code());
    let moved = s.with_address(0x8000_0100);
    assert_eq!(moved.address(), 0x8000_0100);
    assert_eq!(moved.name(), "main");
    assert_eq!(placement(0xfff1, 1), Placement::Value);
    assert_eq!(placement(0xff00, 2), Placement::Reserved);
    assert_eq!(placement(3, 2), Placement::Value);
    assert_eq!(placement(3, 1), Placement::Section(3));
    assert_eq!(section_relative(0x1000, 0x20), Some(0x1020));
    assert_eq!(section_relative(u64::MAX, 1), None);
    assert_eq!(offset_address(0x1010, 0x1000), Some(0x10));
    assert_eq!(offset_address(0x10, 0x1000), None);
}

#[test]
fn symbols_of_a_table() {
    let table = SymbolTable::new(
        vec![
            Symbol::new("start".to_string(), 0x12, 0, 0x100, 4),
            Symbol::new("other".to_string(), 0x12, 0, 0x200, 4),
            Symbol::new("".to_string(), 0x00, 0, 0x100, 0),
            Symbol::new("_start".to_string(), 0x10, 0, 0x100, 4),
        ],
        0,
    );
    assert_eq!(
        symbol_names(&table.get_symbols(0x100)),
        vec![b"start".to_vec(), Vec::new(), b"_start".to_vec()]
    );
    assert_eq!(symbol_names(&table.get_symbols(0x200)), vec![b"other".to_vec()]);
    assert!(table.get_symbols(0x300).is_empty());
}

#[test]
fn symbol_tables_with_offsets() {
    let a = SymbolTable::new(vec![Symbol::new("f".to_string(), 0x12, 0, 0x10, 4)], 0x1000);
    let b = SymbolTable::new(vec![Symbol::new("g".to_string(), 0x12, 0, 0x1010, 4)], 0);
    let found = a.get_symbols(0x1010);
    assert_eq!(found.len(), 1);
    assert_eq!(found[0].name(), "f");
    assert_eq!(found[0].address(), 0x1010);
    assert_eq!(found[0].size(), 4);
    assert!(a.get_symbols(0x10).is_empty());
    let tables = vec![a, b];
    assert_eq!(symbol_names(&tables.get_symbols(0x1010)), vec![b"f".to_vec(), b"g".to_vec()]);
    assert!(tables.get_symbols(0x2000).is_empty());
}

#[test]
fn fn_names() {
    assert_eq!(fn_name(&vec![Vec::new(), b"main".to_vec(), b"start".to_vec()], 0x10), b"main".to_vec());
    assert_eq!(fn_name(&vec![Vec::new()], 0x1a0), b"0x1a0".to_vec());
    assert_eq!(fn_name(&Vec::new(), 0), b"0x0".to_vec());
}

#[test]
fn last_type_option_wins() {
    let opts = vec![b"type=raw".to_vec(), b"type=elf".to_vec(), b"offset=10".to_vec()];
    assert_eq!(Spec::from_options(&opts), Ok(Spec { kind: Some(Kind::Elf), offset: Some(0x10) }));
    let opts = vec![b"offset=10".to_vec(), b"type=elf".to_vec(), b"offset=20".to_vec(), b"type=bin".to_vec()];
    assert_eq!(Spec::from_options(&opts), Ok(Spec { kind: Some(Kind::Bin), offset: Some(0x20) }));
}

#[test]
fn first_refused_option_reported() {
    let opts = vec![b"offset=1".to_vec(), b"type=coff".to_vec(), b"size=1".to_vec()];
    assert_eq!(Spec::from_options(&opts), Err(OptionError::InvalidType(b"Invalid type: coff".to_vec())));
}

/// A little-endian ELF64 file header of the given type, without sections
fn elf_header(e_type: u16) -> Vec<u8> {
    let mut h = vec![0u8; 64];
    h[0..4].copy_from_slice(b"\x7fELF");
    h[4] = 2;
    h[5] = 1;
    h[6] = 1;
    h[16..18].copy_from_slice(&e_type.to_le_bytes());
    h[18] = 0xf3;
    h[20] = 1;
    h[52] = 64;
    h[54] = 56;
    h[58] = 64;
    h
}

#[test]
fn placement_of_files() {
    let none = Spec { kind: None, offset: None };
    let at = Spec { kind: None, offset: Some(0x100) };
    assert_eq!(none.placement_of(b"raw"), Err(BuildError::NeedOffsetRaw));
    assert_eq!(at.placement_of(b"raw"), Ok((Kind::Bin, Some(0x100))));
    assert_eq!(none.placement_of(&elf_header(2)), Ok((Kind::Elf, None)));
    assert_eq!(none.placement_of(&elf_header(3)), Err(BuildError::NeedOffsetShared));
    assert_eq!(at.placement_of(&elf_header(3)), Ok((Kind::Elf, Some(0x100))));
    assert_eq!(none.placement_of(b"\x7fELF\x02"), Err(BuildError::NotElf));
    assert_eq!(Spec { kind: Some(Kind::Elf), offset: None }.placement_of(b"raw"), Err(BuildError::NotElf));
}

#[test]
fn symbol_addresses() {
    assert_eq!(symbol_address(0xfff1, 1, 0x40, None), Ok(Some(0x40)));
    assert_eq!(symbol_address(0xff00, 1, 0x40, Some(0x1000)), Ok(None));
    assert_eq!(symbol_address(0xffff, 2, 0x40, None), Ok(None));
    assert_eq!(symbol_address(3, 2, 0x40, None), Ok(Some(0x40)));
    assert_eq!(symbol_address(3, 1, 0x40, Some(0x1000)), Ok(Some(0x1040)));
    assert_eq!(symbol_address(3, 1, 0x40, None), Err(SymbolError::NoSection(3)));
    assert_eq!(symbol_address(3, 1, 1, Some(u64::MAX)), Err(SymbolError::InvalidAddress));
}

#[test]
fn symbols_from_entries() {
    let s = Symbol::from_entry(Some("f".to_string()), 2, 1, 0x12, 0x1, 0x8, 4, Some(0x1000)).unwrap().unwrap();
    assert_eq!(s.name(), "f");
    assert_eq!(s.address(), 0x1008);
    assert_eq!(s.symtype(), 2);
    assert_eq!(s.bind(), 1);
    assert_eq!(s.visibility(), 1);
    assert_eq!(s.size(), 4);
    assert!(Symbol::from_entry(None, 0xff01, 1, 0, 0, 0, 0, None).unwrap().is_none());
    assert_eq!(Symbol::from_entry(None, 2, 2, 0, 0, 0, 0, None).map(|s| s.is_none()), Err(SymbolError::NoName));
    assert_eq!(
        Symbol::from_entry(Some("g".to_string()), 2, 1, 0, 0, 0, 0, None).map(|s| s.is_none()),
        Err(SymbolError::NoSection(2))
    );
}

#[test]
fn table_symbols_keep_fields() {
    let t = SymbolTable::new(vec![Symbol::new("h".to_string(), 0x21, 0x3, 0x10, 8)], 0x400);
    let found = t.get_symbols(0x410);
    assert_eq!(found.len(), 1);
    assert_eq!(found[0].address(), 0x410);
    assert_eq!((found[0].name(), found[0].symtype(), found[0].bind(), found[0].visibility(), found[0].size()), ("h", 1, 2, 3, 8));
}

#[test]
fn option_error_messages() {
    assert_eq!(OptionError::NotKeyValue.message(), b"Expected key-value pair".to_vec());
    assert_eq!(OptionError::InvalidType(b"Invalid type: coff".to_vec()).message(), b"Invalid type: coff".to_vec());
    assert_eq!(
        OptionError::InvalidOffset(IntError::InvalidDigit).message(),
        b"invalid digit found in string".to_vec()
    );
    assert_eq!(OptionError::UnknownKey(b"size".to_vec()).message(), b"not a valid code option: size".to_vec());
}

#[test]
fn symbols_from_elf_files() {
    let exec = elf_header(2);
    let rel = elf_header(1);
    let strtab = b"\0main\0\xff\xfe\0tail";
    let s = symbol_from_elf(&exec, strtab, 1, 0xfff1, 0x12, 0, 0x1234, 8).unwrap().unwrap();
    assert_eq!((s.name(), s.address(), s.symtype(), s.bind(), s.size()), ("main", 0x1234, 2, 1, 8));
    let s = symbol_from_elf(&exec, strtab, 0, 3, 0x10, 0, 0x40, 0).unwrap().unwrap();
    assert_eq!((s.name(), s.address()), ("", 0x40));
    assert!(symbol_from_elf(&exec, strtab, 1, 0xff05, 0, 0, 0, 0).unwrap().is_none());
    assert_eq!(symbol_from_elf(&rel, strtab, 1, 3, 0, 0, 0, 0).map(|s| s.is_none()), Err(SymbolError::NoSection(3)));
    assert_eq!(symbol_from_elf(&exec, strtab, 6, 3, 0, 0, 0, 0).map(|s| s.is_none()), Err(SymbolError::NoName));
    assert_eq!(symbol_from_elf(&exec, strtab, 10, 3, 0, 0, 0, 0).map(|s| s.is_none()), Err(SymbolError::NoName));
    assert_eq!(symbol_from_elf(&exec, strtab, 100, 3, 0, 0, 0, 0).map(|s| s.is_none()), Err(SymbolError::NoName));
    assert_eq!(symbol_from_elf(&exec, b"", 0, 3, 0, 0, 0, 0).map(|s| s.is_none()), Err(SymbolError::NoName));
    assert_eq!(symbol_from_elf(b"raw", strtab, 1, 3, 0, 0, 0, 0).map(|s| s.is_none()), Err(SymbolError::NotElf));
}

#[test]
fn placement_of_foreign_elf() {
    let mut x86 = elf_header(2);
    x86[18] = 0x3e;
    assert_eq!(Spec { kind: None, offset: Some(4) }.placement_of(&x86), Err(BuildError::NotRiscv));
    let mut shared = elf_header(3);
    shared[18] = 0x3e;
    assert_eq!(Spec { kind: None, offset: None }.placement_of(&shared), Err(BuildError::NotRiscv));
}
