use rvet::item::{Bits, Privilege, Trap};
use rvet::text::{dec_bytes, hex_bytes, push_padded_left, push_padded_right};

#[test]
fn decimal_and_hex() {
    assert_eq!(dec_bytes(0), b"0".to_vec());
    assert_eq!(dec_bytes(1234567890), b"1234567890".to_vec());
    assert_eq!(dec_bytes(u64::MAX), u64::MAX.to_string().into_bytes());
    assert_eq!(hex_bytes(0), b"0".to_vec());
    assert_eq!(hex_bytes(0xdeadbeef), b"deadbeef".to_vec());
    assert_eq!(hex_bytes(u64::MAX), format!("{:x}", u64::MAX).into_bytes());
}

#[test]
fn padding() {
    let mut v = Vec::new();
    push_padded_left(&mut v, b"ab", 5, b' ');
    assert_eq!(v, b"   ab".to_vec());
    let mut v = Vec::new();
    push_padded_right(&mut v, b"ab", 5, b'.');
    assert_eq!(v, b"ab...".to_vec());
    let mut v = Vec::new();
    push_padded_left(&mut v, b"abcdef", 3, b' ');
    assert_eq!(v, b"abcdef".to_vec());
}

#[test]
fn bits_text() {
    assert_eq!(Bits::Bit16(0x1a).text(), b"001a".to_vec());
    assert_eq!(Bits::Bit32(0x00b3_0313).text(), b"00b30313".to_vec());
    assert_eq!(Bits::Bit48(0x1f).text(), b"00000000001f".to_vec());
    assert_eq!(Bits::Bit64(0x3f).text(), b"000000000000003f".to_vec());
    assert_eq!(Bits::zero().text(), b"00000000".to_vec());
}

#[test]
fn trap_text() {
    let mut v = Vec::new();
    Trap { ecause: 2, tval: Some(0xbad) }.push_text(&mut v);
    assert_eq!(v, b"exception (ecause: 2, tval: bad)".to_vec());
    let mut v = Vec::new();
    Trap { ecause: 7, tval: None }.push_text(&mut v);
    assert_eq!(v, b"interrupt (ecause: 7)".to_vec());
    assert!(Trap { ecause: 7, tval: None }.is_interrupt());
    assert!(Trap { ecause: 7, tval: Some(0) }.is_exception());
}

#[test]
fn privilege_codes_and_names() {
    let all = [
        (Privilege::User, 0, "U"),
        (Privilege::Supervisor, 1, "S"),
        (Privilege::Machine, 3, "M"),
        (Privilege::Debug, 4, "D"),
        (Privilege::VirtUser, 5, "VU"),
        (Privilege::VirtSupervisor, 6, "VS"),
    ];
    for (p, code, name) in all {
        assert_eq!(p.code(), code);
        assert_eq!(Privilege::from_code(code), Some(p));
        let mut v = Vec::new();
        p.push_name(&mut v);
        assert_eq!(v, name.as_bytes().to_vec());
    }
    assert_eq!(Privilege::from_code(2), None);
    assert_eq!(Privilege::from_code(7), None);
}
