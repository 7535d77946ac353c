//! Utilties for loading and assembling binaries

use crate::text::{ascii, push_all, push_ascii};
use vstd::prelude::*;

verus! {

/// `elf::abi::ELFMAGIC`, the four bytes an ELF file starts with, which the
/// `elf` crate defines as `0x7f`, `E`, `L`, `F`.
#[verifier::external_body]
fn elf_magic() -> (r: [u8; 4])
    ensures
        r@ == seq![0x7fu8, 0x45u8, 0x4cu8, 0x46u8],
{
    elf::abi::ELFMAGIC
}

/// `elf::abi::ET_DYN`, the ELF file type of shared objects, which the `elf`
/// crate defines as 3.
#[verifier::external_body]
fn et_dyn() -> (r: u16)
    ensures
        r == 3,
{
    elf::abi::ET_DYN
}

/// The type and the machine of the ELF file in `data`, or none if `data` is
/// no ELF file that the `elf` crate parses.
pub uninterp spec fn spec_elf_header(data: Seq<u8>) -> Option<(u16, u16)>;

/// Parses the file header of the little-endian ELF file in `data` with
/// `elf::ElfBytes::<elf::endian::LittleEndian>::minimal_parse` and reads its
/// `e_type` and `e_machine` fields.
///
/// Claimed: the result is a function of the bytes, none where the parse
/// fails. The parse checks each range it reads against the data and returns
/// an error where one is missing.
#[verifier::external_body]
pub(crate) fn elf_header(data: &[u8]) -> (r: Option<(u16, u16)>)
    ensures
        r == spec_elf_header(data@),
{
    elf::ElfBytes::<elf::endian::LittleEndian>::minimal_parse(data).ok().map(|e| (e.ehdr.e_type, e.ehdr.e_machine))
}

/// Whether `riscv_etrace::binary::elf::Elf::new` accepts the ELF file in
/// `data`, parsed as by [`elf_header`].
///
/// Claimed: `Elf::new` refuses a file whose machine is not
/// `elf::abi::EM_RISCV` (243) or that is not little-endian, which a file
/// parsed as little-endian always is; it accepts all others.
#[verifier::external_body]
fn elf_supported(data: &[u8]) -> (r: bool)
    ensures
        r == (spec_elf_header(data@) matches Some((_, machine)) && machine == 243),
{
    match elf::ElfBytes::<elf::endian::LittleEndian>::minimal_parse(data) {
        Ok(e) => riscv_etrace::binary::elf::Elf::<&elf::ElfBytes<elf::endian::LittleEndian>, elf::endian::LittleEndian, riscv_isa::Target>::new(&e).is_ok(),
        Err(_) => false,
    }
}

/// Whether `s` equals the ASCII string `lit`.
fn eq_ascii(s: &[u8], lit: &str) -> (r: bool)
    requires
        vstd::string::is_ascii(lit),
    ensures
        r == (s@ == ascii(lit@)),
{
    proof {
        vstd::string::is_ascii_spec_bytes(lit);
    }
    let b = lit.as_bytes();
    assert(b@ =~= ascii(lit@));
    if s.len() != b.len() {
        return false;
    }
    let mut i: usize = 0;
    while i < s.len()
        invariant
            i <= s@.len(),
            s@.len() == b@.len(),
            b@ == ascii(lit@),
            forall|j: int| 0 <= j < i ==> s@[j] == b@[j],
        decreases s.len() - i,
    {
        if s[i] != b[i] {
            assert(s@[i as int] != ascii(lit@)[i as int]);
            return false;
        }
        i = i + 1;
    }
    assert(s@ =~= b@);
    true
}

/// Binary kind
#[derive(Copy, Clone, Debug, PartialEq, Eq, Structural)]
pub enum Kind {
    /// Raw binary (e.g. mem dump)
    Bin,
    /// ELF data
    Elf,
}

impl Kind {
    /// The kind named by `s`, if any.
    pub open spec fn spec_from_name(s: Seq<u8>) -> Option<Kind> {
        if s == ascii("bin"@) || s == ascii("binary"@) || s == ascii("raw"@) {
            Some(Kind::Bin)
        } else if s == ascii("elf"@) {
            Some(Kind::Elf)
        } else {
            None
        }
    }

    /// Parse a binary kind
    ///
    /// `bin`, `binary` and `raw` name raw binaries, `elf` ELF files. Any other
    /// name is refused with the message `Invalid type: ` and the name.
    pub fn from_str(s: &[u8]) -> (r: Result<Kind, Vec<u8>>)
        ensures
            Kind::spec_from_name(s@) matches Some(k) ==> r == Ok::<Kind, Vec<u8>>(k),
            Kind::spec_from_name(s@) is None ==> (r matches Err(m) && m@ == ascii("Invalid type: "@)
                + s@),
    {
        proof {
            reveal_strlit("bin");
            reveal_strlit("binary");
            reveal_strlit("raw");
            reveal_strlit("elf");
            reveal_strlit("Invalid type: ");
        }
        if eq_ascii(s, "bin") || eq_ascii(s, "binary") || eq_ascii(s, "raw") {
            Ok(Kind::Bin)
        } else if eq_ascii(s, "elf") {
            Ok(Kind::Elf)
        } else {
            let mut m: Vec<u8> = Vec::new();
            push_ascii(&mut m, "Invalid type: ");
            push_all(&mut m, s);
            Err(m)
        }
    }
}

/// Value of a hexadecimal digit, if `c` is one.
pub open spec fn hex_digit_value(c: u8) -> Option<nat> {
    if 48 <= c <= 57 {
        Some((c - 48) as nat)
    } else if 97 <= c <= 102 {
        Some((c - 87) as nat)
    } else if 65 <= c <= 70 {
        Some((c - 55) as nat)
    } else {
        None
    }
}

/// Every byte of `s` is a hexadecimal digit.
pub open spec fn all_hex_digits(s: Seq<u8>) -> bool {
    forall|i: int| 0 <= i < s.len() ==> (#[trigger] hex_digit_value(s[i])) is Some
}

/// The value of the hexadecimal digits `s`.
pub open spec fn hex_value(s: Seq<u8>) -> nat
    decreases s.len(),
{
    if s.len() == 0 {
        0
    } else {
        hex_value(s.drop_last()) * 16 + match hex_digit_value(s.last()) {
            Some(v) => v,
            None => 0,
        }
    }
}

/// Reasons for refusing an integer
#[derive(Copy, Clone, Debug, PartialEq, Eq, Structural)]
pub enum IntError {
    /// No digits at all
    Empty,
    /// A byte that is not a digit
    InvalidDigit,
    /// The value does not fit
    PosOverflow,
}

impl IntError {
    /// The message describing this error.
    pub open spec fn spec_message(self) -> Seq<char> {
        match self {
            IntError::Empty => "cannot parse integer from empty string"@,
            IntError::InvalidDigit => "invalid digit found in string"@,
            IntError::PosOverflow => "number too large to fit in target type"@,
        }
    }

    /// Retrieve the message describing this error
    pub fn message(self) -> (r: &'static str)
        ensures
            r@ == self.spec_message(),
    {
        match self {
            IntError::Empty => "cannot parse integer from empty string",
            IntError::InvalidDigit => "invalid digit found in string",
            IntError::PosOverflow => "number too large to fit in target type",
        }
    }
}

/// The digits of a number in `s`: all of it, or all after a leading `+`
/// if there is more after it.
pub open spec fn digits_of(s: Seq<u8>) -> Seq<u8> {
    if s.len() > 1 && s[0] == 43 {
        s.drop_first()
    } else {
        s
    }
}

/// Parse an unsigned hexadecimal number, as `u64::from_str_radix` with radix
/// 16 does
///
/// An optional leading `+` is followed by at least one digit, upper or lower
/// case. The value must fit in 64 bits.
pub fn parse_hex(s: &[u8]) -> (r: Result<u64, IntError>)
    ensures
        s@.len() == 0 ==> r == Err::<u64, IntError>(IntError::Empty),
        s@.len() > 0 && !all_hex_digits(digits_of(s@)) ==> r == Err::<u64, IntError>(
            IntError::InvalidDigit,
        ),
        s@.len() > 0 && all_hex_digits(digits_of(s@)) && hex_value(digits_of(s@)) > u64::MAX ==> r
            == Err::<u64, IntError>(IntError::PosOverflow),
        s@.len() > 0 && all_hex_digits(digits_of(s@)) && hex_value(digits_of(s@)) <= u64::MAX ==> r
            == Ok::<u64, IntError>(hex_value(digits_of(s@)) as u64),
{
    if s.len() == 0 {
        return Err(IntError::Empty);
    }
    let start: usize = if s.len() > 1 && s[0] == 43 {
        1
    } else {
        0
    };
    let ghost d = digits_of(s@);
    assert(d =~= s@.subrange(start as int, s@.len() as int));
    let mut value: u64 = 0;
    let mut overflow = false;
    let mut i: usize = start;
    while i < s.len()
        invariant
            start <= i <= s@.len(),
            s@.len() > 0,
            d == digits_of(s@),
            d == s@.subrange(start as int, s@.len() as int),
            all_hex_digits(d.take(i - start)),
            !overflow ==> value == hex_value(d.take(i - start)),
            overflow ==> hex_value(d.take(i - start)) > u64::MAX,
        decreases s.len() - i,
    {
        let c = s[i];
        let v: u64 = if 48 <= c && c <= 57 {
            (c - 48) as u64
        } else if 97 <= c && c <= 102 {
            (c - 87) as u64
        } else if 65 <= c && c <= 70 {
            (c - 55) as u64
        } else {
            proof {
                assert(d[i - start] == c);
                assert(hex_digit_value(d[i - start]) is None);
                assert(!all_hex_digits(d));
            }
            return Err(IntError::InvalidDigit);
        };
        proof {
            let t = d.take(i - start + 1);
            assert(t.drop_last() =~= d.take(i - start));
            assert(t.last() == c);
            assert forall|j: int| 0 <= j < t.len() implies (#[trigger] hex_digit_value(t[j])) is Some by {
                if j < t.len() - 1 {
                    assert(t[j] == d.take(i - start)[j]);
                }
            }
        }
        if !overflow {
            if value <= (u64::MAX - v) / 16 {
                value = value * 16 + v;
            } else {
                overflow = true;
                assert(hex_value(d.take(i - start + 1)) > u64::MAX) by (nonlinear_arith)
                    requires
                        hex_value(d.take(i - start + 1)) == value * 16 + v,
                        value > (u64::MAX - v) / 16,
                        v < 16,
                ;
            }
        } else {
            assert(hex_value(d.take(i - start + 1)) > u64::MAX) by (nonlinear_arith)
                requires
                    hex_value(d.take(i - start + 1)) >= hex_value(d.take(i - start)) * 16,
                    hex_value(d.take(i - start)) > u64::MAX,
            ;
        }
        i = i + 1;
    }
    assert(d.take(d.len() as int) =~= d);
    if overflow {
        Err(IntError::PosOverflow)
    } else {
        Ok(value)
    }
}

/// Why a code option was refused
#[derive(Clone, Debug, PartialEq, Eq)]
pub enum OptionError {
    /// The option is not of the form `key=value`
    NotKeyValue,
    /// The `type` option names no known kind; the message is given
    InvalidType(Vec<u8>),
    /// The `offset` option is no hexadecimal number
    InvalidOffset(IntError),
    /// The key is not known; the key is given
    UnknownKey(Vec<u8>),
}

impl OptionError {
    /// The message describing this error.
    pub open spec fn spec_message(self) -> Seq<u8> {
        match self {
            OptionError::NotKeyValue => ascii("Expected key-value pair"@),
            OptionError::InvalidType(m) => m@,
            OptionError::InvalidOffset(e) => ascii(e.spec_message()),
            OptionError::UnknownKey(k) => ascii("not a valid code option: "@) + k@,
        }
    }

    /// Retrieve the message describing this error
    pub fn message(&self) -> (r: Vec<u8>)
        ensures
            r@ == self.spec_message(),
    {
        let mut r: Vec<u8> = Vec::new();
        proof {
            reveal_strlit("Expected key-value pair");
            reveal_strlit("not a valid code option: ");
            reveal_strlit("cannot parse integer from empty string");
            reveal_strlit("invalid digit found in string");
            reveal_strlit("number too large to fit in target type");
        }
        match self {
            OptionError::NotKeyValue => push_ascii(&mut r, "Expected key-value pair"),
            OptionError::InvalidType(m) => push_all(&mut r, m.as_slice()),
            OptionError::InvalidOffset(e) => push_ascii(&mut r, (*e).message()),
            OptionError::UnknownKey(k) => {
                push_ascii(&mut r, "not a valid code option: ");
                push_all(&mut r, k.as_slice());
            },
        }
        r
    }
}

/// Specification of a binary to load, apart from its file
#[derive(Copy, Clone, Debug, PartialEq, Eq, Structural)]
pub struct Spec {
    /// Kind of the binary, if forced
    pub kind: Option<Kind>,
    /// Base address of the binary, if given
    pub offset: Option<u64>,
}

impl Spec {
    /// No kind forced, no offset given
    pub fn empty() -> (r: Spec)
        ensures
            r == (Spec { kind: None, offset: None }),
    {
        Spec { kind: None, offset: None }
    }

    /// Apply a single option of the form `key=value`, split at the first `=`
    ///
    /// `type=<type>` forces the kind, `offset=<hex>` sets the base address.
    /// Later options override earlier ones.
    pub fn apply_option(&mut self, p: &[u8]) -> (r: Result<(), OptionError>)
        ensures
            eq_pos(p@) is None ==> r == Err::<(), OptionError>(OptionError::NotKeyValue)
                && *final(self) == *old(self),
            eq_pos(p@) matches Some(e) ==> option_applied(
                *old(self),
                p@.take(e as int),
                p@.skip((e + 1) as int),
                r,
                *final(self),
            ),
            r is Ok <==> option_result(*old(self), p@) is Some,
            r is Ok ==> option_result(*old(self), p@) == Some(*final(self)),
    {
        let mut e: usize = 0;
        while e < p.len()
            invariant
                e <= p@.len(),
                *self == *old(self),
                forall|j: int| 0 <= j < e ==> p@[j] != 61,
            ensures
                e <= p@.len(),
                *self == *old(self),
                forall|j: int| 0 <= j < e ==> p@[j] != 61,
                e < p@.len() ==> p@[e as int] == 61,
            decreases p.len() - e,
        {
            if p[e] == 61 {
                break;
            }
            e = e + 1;
        }
        proof {
            lemma_eq_pos(p@, e as nat);
        }
        if e == p.len() {
            return Err(OptionError::NotKeyValue);
        }
        let ghost key_s = p@.take(e as int);
        let ghost value_s = p@.skip(e + 1);
        let key = &p[0..e];
        let value = &p[e + 1..p.len()];
        assert(key@ =~= key_s);
        assert(value@ =~= value_s);
        proof {
            reveal_strlit("type");
            reveal_strlit("offset");
        }
        let r = if eq_ascii(key, "type") {
            match Kind::from_str(value) {
                Ok(k) => {
                    self.kind = Some(k);
                    Ok(())
                },
                Err(m) => Err(OptionError::InvalidType(m)),
            }
        } else if eq_ascii(key, "offset") {
            match parse_hex(value) {
                Ok(o) => {
                    self.offset = Some(o);
                    Ok(())
                },
                Err(err) => Err(OptionError::InvalidOffset(err)),
            }
        } else {
            let mut k: Vec<u8> = Vec::new();
            push_all(&mut k, key);
            Err(OptionError::UnknownKey(k))
        };
        r
    }
}

/// The outcome of applying the option with key `key` and value `value` to `s`,
/// giving `r` and `s2`.
pub open spec fn option_applied(
    s: Spec,
    key: Seq<u8>,
    value: Seq<u8>,
    r: Result<(), OptionError>,
    s2: Spec,
) -> bool {
    if key == ascii("type"@) {
        match Kind::spec_from_name(value) {
            Some(k) => r is Ok && s2 == Spec { kind: Some(k), ..s },
            None => (r matches Err(OptionError::InvalidType(m)) && m@ == ascii("Invalid type: "@)
                + value && s2 == s),
        }
    } else if key == ascii("offset"@) {
        match spec_parse_hex(value) {
            Ok(o) => r is Ok && s2 == Spec { offset: Some(o), ..s },
            Err(err) => r == Err::<(), OptionError>(OptionError::InvalidOffset(err)) && s2 == s,
        }
    } else {
        (r matches Err(OptionError::UnknownKey(k)) && k@ == key && s2 == s)
    }
}

/// What [`parse_hex`] yields for `s`.
pub open spec fn spec_parse_hex(s: Seq<u8>) -> Result<u64, IntError> {
    if s.len() == 0 {
        Err(IntError::Empty)
    } else if !all_hex_digits(digits_of(s)) {
        Err(IntError::InvalidDigit)
    } else if hex_value(digits_of(s)) > u64::MAX {
        Err(IntError::PosOverflow)
    } else {
        Ok(hex_value(digits_of(s)) as u64)
    }
}

/// Position of the first `=` in `p`, if any.
pub open spec fn eq_pos(p: Seq<u8>) -> Option<nat>
    decreases p.len(),
{
    if p.len() == 0 {
        None
    } else if p[0] == 61 {
        Some(0)
    } else {
        match eq_pos(p.drop_first()) {
            Some(e) => Some(e + 1),
            None => None,
        }
    }
}

/// [`eq_pos`] finds the first `=`.
pub proof fn lemma_eq_pos(p: Seq<u8>, e: nat)
    requires
        e <= p.len(),
        forall|j: int| 0 <= j < e ==> p[j] != 61,
        e < p.len() ==> p[e as int] == 61,
    ensures
        e == p.len() ==> eq_pos(p) is None,
        e < p.len() ==> eq_pos(p) == Some(e),
    decreases e,
{
    if e > 0 {
        assert forall|j: int| 0 <= j < e - 1 implies p.drop_first()[j] != 61 by {
            assert(p.drop_first()[j] == p[j + 1]);
        }
        if e < p.len() {
            assert(p.drop_first()[e - 1] == p[e as int]);
        }
        lemma_eq_pos(p.drop_first(), (e - 1) as nat);
    }
}

/// When [`eq_pos`] finds an `=`, it is there.
pub proof fn lemma_eq_pos_found(p: Seq<u8>)
    ensures
        eq_pos(p) matches Some(e) ==> e < p.len() && p[e as int] == 61,
    decreases p.len(),
{
    if p.len() > 0 && p[0] != 61 {
        lemma_eq_pos_found(p.drop_first());
    }
}

/// `p` is a `type` option: it starts with `type=`.
pub open spec fn is_type_option(p: Seq<u8>) -> bool {
    p.len() >= 5 && p.take(5) == ascii("type="@)
}

/// Later options override earlier ones: the kind forced is the one named by
/// the last `type` option.
pub proof fn last_type_wins(opts: Seq<Seq<u8>>, i: int, k: Kind)
    requires
        options_result(opts) is Some,
        0 <= i < opts.len(),
        is_type_option(opts[i]),
        Kind::spec_from_name(opts[i].skip(5)) == Some(k),
        forall|j: int| i < j < opts.len() ==> !is_type_option(#[trigger] opts[j]),
    ensures
        options_result(opts).unwrap().kind == Some(k),
    decreases opts.len(),
{
    reveal_strlit("type=");
    reveal_strlit("type");
    reveal_strlit("offset");
    let n = opts.len() - 1;
    let p = opts[n];
    assert(opts.last() == p);
    lemma_eq_pos_found(p);
    if i == n {
        assert(p.take(5)[4] == p[4]);
        assert forall|j: int| 0 <= j < 4 implies p[j] != 61 by {
            assert(p.take(5)[j] == p[j]);
        }
        lemma_eq_pos(p, 4);
        assert(p.take(4) =~= ascii("type"@)) by {
            assert forall|j: int| 0 <= j < 4 implies p.take(4)[j] == ascii("type"@)[j] by {
                assert(p.take(5)[j] == p[j]);
            }
        }
    } else {
        assert forall|j: int| i < j < opts.drop_last().len() implies !is_type_option(
            #[trigger] opts.drop_last()[j],
        ) by {
            assert(opts.drop_last()[j] == opts[j]);
        }
        assert(opts.drop_last()[i] == opts[i]);
        last_type_wins(opts.drop_last(), i, k);
        let s0 = options_result(opts.drop_last()).unwrap();
        assert(option_result(s0, p) is Some);
        assert(eq_pos(p) is Some);
        let e = eq_pos(p).unwrap();
        assert(e < p.len());
        assert(ascii("type"@).len() == 4);
        if p.take(e as int) == ascii("type"@) {
            assert(p.take(e as int).len() == e);
            assert(e == 4);
            assert(p.take(5) =~= ascii("type="@)) by {
                assert forall|j: int| 0 <= j < 4 implies p.take(5)[j] == ascii("type="@)[j] by {
                    assert(p.take(4)[j] == p[j]);
                }
            }
            assert(is_type_option(opts[n]));
        }
    }
}

/// The specification after applying the option `p` to `s`, or `None` if the
/// option is refused.
pub open spec fn option_result(s: Spec, p: Seq<u8>) -> Option<Spec> {
    match eq_pos(p) {
        None => None,
        Some(e) => {
            let key = p.take(e as int);
            let value = p.skip((e + 1) as int);
            if key == ascii("type"@) {
                match Kind::spec_from_name(value) {
                    Some(k) => Some(Spec { kind: Some(k), ..s }),
                    None => None,
                }
            } else if key == ascii("offset"@) {
                match spec_parse_hex(value) {
                    Ok(o) => Some(Spec { offset: Some(o), ..s }),
                    Err(_) => None,
                }
            } else {
                None
            }
        },
    }
}

/// `e` is the error with which applying the option `p` to `s` fails.
pub open spec fn refused_with(s: Spec, p: Seq<u8>, e: OptionError) -> bool {
    &&& option_result(s, p) is None
    &&& match eq_pos(p) {
        None => e == OptionError::NotKeyValue,
        Some(k) => option_applied(s, p.take(k as int), p.skip((k + 1) as int), Err(e), s),
    }
}

/// `e` is the error of the first option among `opts` that is refused: the
/// options before it are applied, and it fails with `e`.
pub open spec fn first_refused(opts: Seq<Seq<u8>>, e: OptionError) -> bool {
    exists|j: int|
        0 <= j < opts.len() && #[trigger] options_result(opts.take(j)) is Some && refused_with(
            options_result(opts.take(j))->0,
            opts[j],
            e,
        )
}

/// The specification after applying all options in order, or `None` if one
/// is refused.
pub open spec fn options_result(opts: Seq<Seq<u8>>) -> Option<Spec>
    decreases opts.len(),
{
    if opts.len() == 0 {
        Some(Spec { kind: None, offset: None })
    } else {
        match options_result(opts.drop_last()) {
            Some(s) => option_result(s, opts.last()),
            None => None,
        }
    }
}

impl Spec {
    /// Build a specification from the options given for a file
    ///
    /// The options are applied in order; the first refused one is reported.
    pub fn from_options(opts: &Vec<Vec<u8>>) -> (r: Result<Spec, OptionError>)
        ensures
            r is Ok <==> options_result(opts@.map_values(|o: Vec<u8>| o@)) is Some,
            r matches Ok(s) ==> options_result(opts@.map_values(|o: Vec<u8>| o@)) == Some(s),
            r matches Err(e) ==> first_refused(opts@.map_values(|o: Vec<u8>| o@), e),
    {
        let ghost os = opts@.map_values(|o: Vec<u8>| o@);
        let mut s = Spec::empty();
        let mut i: usize = 0;
        assert(os.take(0) =~= Seq::<Seq<u8>>::empty());
        while i < opts.len()
            invariant
                i <= opts@.len(),
                os == opts@.map_values(|o: Vec<u8>| o@),
                options_result(os.take(i as int)) == Some(s),
            decreases opts.len() - i,
        {
            let ghost before = s;
            let res = s.apply_option(opts[i].as_slice());
            proof {
                let t = os.take((i + 1) as int);
                assert(t.drop_last() =~= os.take(i as int));
                assert(t.last() == opts@[i as int]@);
            }
            match res {
                Ok(()) => {},
                Err(e) => {
                    proof {
                        Self::lemma_refused_stays(os, (i + 1) as nat, os.len());
                        assert(os.take(os.len() as int) =~= os);
                        assert(os[i as int] == opts@[i as int]@);
                        assert(options_result(os.take(i as int)) == Some(before));
                        assert(refused_with(before, os[i as int], e));
                    }
                    return Err(e);
                },
            }
            i = i + 1;
        }
        assert(os.take(os.len() as int) =~= os);
        Ok(s)
    }

    /// Once an option is refused, so are all options.
    proof fn lemma_refused_stays(os: Seq<Seq<u8>>, i: nat, n: nat)
        requires
            i <= n <= os.len(),
            options_result(os.take(i as int)) is None,
        ensures
            options_result(os.take(n as int)) is None,
        decreases n - i,
    {
        if i < n {
            let t = os.take((i + 1) as int);
            assert(t.drop_last() =~= os.take(i as int));
            Self::lemma_refused_stays(os, i + 1, n);
        }
    }

    /// The kind to load the binary as: the forced one, or otherwise an ELF
    /// file if the data start with the ELF magic bytes and a raw binary if not
    pub fn kind_for(&self, data: &[u8]) -> (r: Kind)
        ensures
            r == spec_kind(*self, data@),
    {
        match self.kind {
            Some(k) => k,
            None => {
                let magic = elf_magic();
                if data.len() >= 4 && data[0] == magic[0] && data[1] == magic[1] && data[2] == magic[2]
                    && data[3] == magic[3] {
                    assert(data@.take(4) =~= magic@);
                    Kind::Elf
                } else {
                    proof {
                        if data@.len() >= 4 && data@.take(4) == seq![0x7fu8, 0x45u8, 0x4cu8, 0x46u8] {
                            assert(data@.take(4)[0] == data@[0]);
                            assert(data@.take(4)[1] == data@[1]);
                            assert(data@.take(4)[2] == data@[2]);
                            assert(data@.take(4)[3] == data@[3]);
                        }
                    }
                    Kind::Bin
                }
            },
        }
    }

    /// Where to place the binary in `data`: its kind and its base address, if
    /// any
    ///
    /// A raw binary needs an offset. An ELF file must parse and be one for
    /// RISC-V; a shared object needs an offset, other ELF files are placed as
    /// they are unless one is given.
    pub fn placement_of(&self, data: &[u8]) -> (r: Result<(Kind, Option<u64>), BuildError>)
        ensures
            r == match spec_kind(*self, data@) {
                Kind::Bin => match self.offset {
                    Some(o) => Ok((Kind::Bin, Some(o))),
                    None => Err(BuildError::NeedOffsetRaw),
                },
                Kind::Elf => match spec_elf_header(data@) {
                    None => Err(BuildError::NotElf),
                    Some((_, machine)) if machine != 243 => Err(BuildError::NotRiscv),
                    Some((t, _)) => match self.offset {
                        Some(o) => Ok((Kind::Elf, Some(o))),
                        None => if t == 3 {
                            Err(BuildError::NeedOffsetShared)
                        } else {
                            Ok((Kind::Elf, None))
                        },
                    },
                },
            },
    {
        match self.kind_for(data) {
            Kind::Bin => match self.raw_offset() {
                Ok(o) => Ok((Kind::Bin, Some(o))),
                Err(e) => Err(e),
            },
            Kind::Elf => match elf_header(data) {
                None => Err(BuildError::NotElf),
                Some((t, _)) => if !elf_supported(data) {
                    Err(BuildError::NotRiscv)
                } else {
                    match self.elf_offset(t) {
                        Ok(o) => Ok((Kind::Elf, o)),
                        Err(e) => Err(e),
                    }
                },
            },
        }
    }

    /// The base address of a raw binary, which must be given
    pub fn raw_offset(&self) -> (r: Result<u64, BuildError>)
        ensures
            self.offset matches Some(o) ==> r == Ok::<u64, BuildError>(o),
            self.offset is None ==> r == Err::<u64, BuildError>(BuildError::NeedOffsetRaw),
    {
        match self.offset {
            Some(o) => Ok(o),
            None => Err(BuildError::NeedOffsetRaw),
        }
    }

    /// The base address of an ELF file of type `e_type`: the given one, or
    /// none for files that are not shared objects, which must have one
    pub fn elf_offset(&self, e_type: u16) -> (r: Result<Option<u64>, BuildError>)
        ensures
            self.offset matches Some(o) ==> r == Ok::<Option<u64>, BuildError>(Some(o)),
            self.offset is None && e_type != 3 ==> r == Ok::<Option<u64>, BuildError>(None),
            self.offset is None && e_type == 3 ==> r == Err::<Option<u64>, BuildError>(
                BuildError::NeedOffsetShared,
            ),
    {
        match self.offset {
            Some(o) => Ok(Some(o)),
            None => if e_type != et_dyn() {
                Ok(None)
            } else {
                Err(BuildError::NeedOffsetShared)
            },
        }
    }
}

/// The kind to load `data` as under `spec`: the forced one, or otherwise an
/// ELF file if the data start with the ELF magic bytes and a raw binary if not.
pub open spec fn spec_kind(spec: Spec, data: Seq<u8>) -> Kind {
    match spec.kind {
        Some(k) => k,
        None => if data.len() >= 4 && data.take(4) == seq![0x7fu8, 0x45u8, 0x4cu8, 0x46u8] {
            Kind::Elf
        } else {
            Kind::Bin
        },
    }
}

/// A binary cannot be placed
#[derive(Copy, Clone, Debug, PartialEq, Eq, Structural)]
pub enum BuildError {
    /// An ELF file cannot be parsed
    NotElf,
    /// An ELF file is not one for RISC-V
    NotRiscv,
    /// A raw binary lacks an offset
    NeedOffsetRaw,
    /// A shared object lacks an offset
    NeedOffsetShared,
}

/// Register width of a RISC-V target
#[derive(Copy, Clone, Debug, PartialEq, Eq, Structural)]
pub enum Xlen {
    Rv32,
    Rv64,
}

/// Supported special ROMs
#[derive(Copy, Clone, Debug, PartialEq, Eq, Structural)]
pub enum Rom {
    /// Bootrom of the spike instruction set simulator
    Spike,
}

impl Rom {
    /// The code of this ROM for a target of the given register width
    pub fn code(self, xlen: Xlen) -> (r: Vec<u8>)
        ensures
            xlen == Xlen::Rv32 ==> r@ == seq![
                0x97u8, 0x02, 0x00, 0x00, 0x93, 0x85, 0x02, 0x02, 0x73, 0x25, 0x40, 0xf1,
                0x83, 0xa2, 0x82, 0x01, 0x82, 0x82,
            ],
            xlen == Xlen::Rv64 ==> r@ == seq![
                0x97u8, 0x02, 0x00, 0x00, 0x93, 0x85, 0x02, 0x02, 0x73, 0x25, 0x40, 0xf1,
                0x83, 0xb2, 0x82, 0x01, 0x82, 0x82,
            ],
    {
        match self {
            Rom::Spike => {
                let load: u8 = match xlen {
                    Xlen::Rv32 => 0xa2,
                    Xlen::Rv64 => 0xb2,
                };
                let r = vec![
                    0x97u8, 0x02, 0x00, 0x00, 0x93, 0x85, 0x02, 0x02, 0x73, 0x25, 0x40, 0xf1,
                    0x83, load, 0x82, 0x01, 0x82, 0x82,
                ];
                assert(r@ =~= seq![
                    0x97u8, 0x02, 0x00, 0x00, 0x93, 0x85, 0x02, 0x02, 0x73, 0x25, 0x40, 0xf1,
                    0x83, load, 0x82, 0x01, 0x82, 0x82,
                ]);
                r
            },
        }
    }

    /// The base address of this ROM
    pub fn offset(self) -> (r: u64)
        ensures
            r == 0x1000,
    {
        match self {
            Rom::Spike => 0x1000,
        }
    }
}

} // verus!
