//! Rendering of numbers and padded text as bytes

use vstd::prelude::*;

verus! {

/// The ASCII character of a single digit (`0`-`9`, `a`-`f`).
pub open spec fn digit_char(d: nat) -> u8 {
    if d < 10 {
        (48 + d) as u8
    } else {
        (87 + d) as u8
    }
}

/// Decimal representation of `n`, without leading zeros.
pub open spec fn dec(n: nat) -> Seq<u8>
    decreases n,
{
    if n < 10 {
        seq![digit_char(n)]
    } else {
        dec(n / 10).push(digit_char(n % 10))
    }
}

/// Lower-case hexadecimal representation of `n`, without leading zeros or prefix.
pub open spec fn hex(n: nat) -> Seq<u8>
    decreases n,
{
    if n < 16 {
        seq![digit_char(n)]
    } else {
        hex(n / 16).push(digit_char(n % 16))
    }
}

/// `n` copies of the byte `b`.
pub open spec fn repeat(b: u8, n: nat) -> Seq<u8> {
    Seq::new(n, |_i: int| b)
}

/// `s`, preceded by as many `fill` bytes as needed to reach `width` bytes.
#[verifier::opaque]
pub open spec fn pad_left(s: Seq<u8>, width: nat, fill: u8) -> Seq<u8> {
    if s.len() < width {
        repeat(fill, (width - s.len()) as nat) + s
    } else {
        s
    }
}

/// `s`, followed by as many `fill` bytes as needed to reach `width` bytes.
#[verifier::opaque]
pub open spec fn pad_right(s: Seq<u8>, width: nat, fill: u8) -> Seq<u8> {
    if s.len() < width {
        s + repeat(fill, (width - s.len()) as nat)
    } else {
        s
    }
}

/// The byte of a single digit.
pub fn digit(d: u64) -> (c: u8)
    requires
        d < 16,
    ensures
        c == digit_char(d as nat),
{
    if d < 10 {
        48 + d as u8
    } else {
        87 + d as u8
    }
}

/// Appends the decimal representation of `n` to `out`.
pub fn push_dec(out: &mut Vec<u8>, n: u64)
    ensures
        final(out)@ == old(out)@ + dec(n as nat),
    decreases n,
{
    if n >= 10 {
        push_dec(out, n / 10);
    }
    out.push(digit(n % 10));
    proof {
        if n < 10 {
            assert(n % 10 == n);
        }
    }
}

/// Appends the lower-case hexadecimal representation of `n` to `out`.
pub fn push_hex(out: &mut Vec<u8>, n: u64)
    ensures
        final(out)@ == old(out)@ + hex(n as nat),
    decreases n,
{
    if n >= 16 {
        push_hex(out, n / 16);
    }
    out.push(digit(n % 16));
    proof {
        if n < 16 {
            assert(n % 16 == n);
        }
    }
}

/// Appends `n` copies of `b` to `out`.
pub fn push_repeat(out: &mut Vec<u8>, b: u8, n: usize)
    ensures
        final(out)@ == old(out)@ + repeat(b, n as nat),
{
    let ghost start = out@;
    let mut i: usize = 0;
    while i < n
        invariant
            i <= n,
            out@ == start + repeat(b, i as nat),
        decreases n - i,
    {
        out.push(b);
        i = i + 1;
        assert(out@ =~= start + repeat(b, i as nat));
    }
}

/// Appends all of `s` to `out`.
pub fn push_all(out: &mut Vec<u8>, s: &[u8])
    ensures
        final(out)@ == old(out)@ + s@,
{
    let ghost start = out@;
    let mut i: usize = 0;
    while i < s.len()
        invariant
            i <= s.len(),
            out@ == start + s@.subrange(0, i as int),
        decreases s.len() - i,
    {
        out.push(s[i]);
        i = i + 1;
        assert(out@ =~= start + s@.subrange(0, i as int));
    }
    assert(s@.subrange(0, s@.len() as int) =~= s@);
}

/// Appends `s` to `out`, preceded by `fill` bytes up to a total of `width` bytes.
pub fn push_padded_left(out: &mut Vec<u8>, s: &[u8], width: usize, fill: u8)
    ensures
        final(out)@ == old(out)@ + pad_left(s@, width as nat, fill),
{
    if s.len() < width {
        push_repeat(out, fill, width - s.len());
    }
    push_all(out, s);
    reveal(pad_left);
    assert(out@ =~= old(out)@ + pad_left(s@, width as nat, fill));
}

/// Appends `s` to `out`, followed by `fill` bytes up to a total of `width` bytes.
pub fn push_padded_right(out: &mut Vec<u8>, s: &[u8], width: usize, fill: u8)
    ensures
        final(out)@ == old(out)@ + pad_right(s@, width as nat, fill),
{
    push_all(out, s);
    if s.len() < width {
        push_repeat(out, fill, width - s.len());
    }
    reveal(pad_right);
    assert(out@ =~= old(out)@ + pad_right(s@, width as nat, fill));
}

/// The decimal representation of `n`.
pub fn dec_bytes(n: u64) -> (r: Vec<u8>)
    ensures
        r@ == dec(n as nat),
{
    let mut r = Vec::new();
    push_dec(&mut r, n);
    assert(r@ =~= dec(n as nat));
    r
}

/// The lower-case hexadecimal representation of `n`.
pub fn hex_bytes(n: u64) -> (r: Vec<u8>)
    ensures
        r@ == hex(n as nat),
{
    let mut r = Vec::new();
    push_hex(&mut r, n);
    assert(r@ =~= hex(n as nat));
    r
}

/// The bytes of a sequence of ASCII characters.
pub open spec fn ascii(s: Seq<char>) -> Seq<u8> {
    s.map_values(|c: char| c as u8)
}

/// Appends the bytes of the ASCII string `s` to `out`.
pub fn push_ascii(out: &mut Vec<u8>, s: &str)
    requires
        vstd::string::is_ascii(s),
    ensures
        final(out)@ == old(out)@ + ascii(s@),
{
    proof {
        vstd::string::is_ascii_spec_bytes(s);
    }
    let b = s.as_bytes();
    assert(b@ =~= ascii(s@));
    push_all(out, b);
}

/// Whether `c` is a digit of base `base` (at most 16): `0`-`9`, then the
/// lower-case letters `a`-`f`.
pub open spec fn is_digit_of(c: u8, base: nat) -> bool {
    (48 <= c <= 57 && c - 48 < base) || (97 <= c <= 102 && c - 87 < base)
}

/// The value of the digit `c`.
pub open spec fn digit_value(c: u8) -> nat {
    if 48 <= c <= 57 {
        (c - 48) as nat
    } else {
        (c - 87) as nat
    }
}

/// The number that the digits `s` stand for in base `base`, the most
/// significant first.
pub open spec fn digits_value(s: Seq<u8>, base: nat) -> nat
    decreases s.len(),
{
    if s.len() == 0 {
        0
    } else {
        digits_value(s.drop_last(), base) * base + digit_value(s.last())
    }
}

/// `s` is the representation of `n` in base `base`: at least one digit, all
/// of them digits of the base, standing for `n`, and no leading zero.
pub open spec fn represents(s: Seq<u8>, base: nat, n: nat) -> bool {
    &&& s.len() >= 1
    &&& forall|i: int| 0 <= i < s.len() ==> is_digit_of(#[trigger] s[i], base)
    &&& digits_value(s, base) == n
    &&& s.len() > 1 ==> s[0] != 48
}

/// Appending a digit to a number's digits makes it one place longer.
proof fn lemma_push_digit(s: Seq<u8>, base: nat, n: nat, d: nat)
    requires
        2 <= base <= 16,
        d < base,
        represents(s, base, n),
        n > 0,
    ensures
        represents(s.push(digit_char(d)), base, n * base + d),
{
    let t = s.push(digit_char(d));
    let c = digit_char(d);
    assert(is_digit_of(c, base) && digit_value(c) == d);
    assert(t.drop_last() =~= s);
    assert(t.last() == c);
    assert(digits_value(t, base) == digits_value(s, base) * base + d);
    assert(t[0] == s[0]);
    if s.len() == 1 {
        assert(s.drop_last() =~= Seq::<u8>::empty());
        assert(digits_value(s.drop_last(), base) == 0);
        assert(0 * base == 0) by (nonlinear_arith);
        assert(s.last() == s[0]);
        assert(digits_value(s, base) == digit_value(s[0]));
    }
    assert forall|i: int| 0 <= i < t.len() implies is_digit_of(#[trigger] t[i], base) by {
        if i < s.len() {
            assert(t[i] == s[i]);
        }
    }
}

/// The decimal text of a number is its representation in base 10.
pub proof fn dec_represents(n: nat)
    ensures
        represents(dec(n), 10, n),
    decreases n,
{
    if n >= 10 {
        dec_represents(n / 10);
        lemma_push_digit(dec(n / 10), 10, n / 10, n % 10);
        assert((n / 10) * 10 + n % 10 == n);
    } else {
        assert(dec(n) =~= seq![digit_char(n)]);
        assert(dec(n).drop_last() =~= Seq::<u8>::empty());
        assert(is_digit_of(digit_char(n), 10) && digit_value(digit_char(n)) == n);
        assert(digits_value(dec(n), 10) == digits_value(dec(n).drop_last(), 10) * 10 + digit_value(dec(n).last()));
    }
}

/// The hexadecimal text of a number is its representation in base 16, in
/// lower-case digits.
pub proof fn hex_represents(n: nat)
    ensures
        represents(hex(n), 16, n),
    decreases n,
{
    if n >= 16 {
        hex_represents(n / 16);
        lemma_push_digit(hex(n / 16), 16, n / 16, n % 16);
        assert((n / 16) * 16 + n % 16 == n);
    } else {
        assert(hex(n) =~= seq![digit_char(n)]);
        assert(hex(n).drop_last() =~= Seq::<u8>::empty());
        assert(is_digit_of(digit_char(n), 16) && digit_value(digit_char(n)) == n);
        assert(digits_value(hex(n), 16) == digits_value(hex(n).drop_last(), 16) * 16 + digit_value(hex(n).last()));
    }
}

/// `16` to the power `w`.
pub open spec fn pow16(w: nat) -> nat
    decreases w,
{
    if w == 0 {
        1
    } else {
        16 * pow16((w - 1) as nat)
    }
}

/// A number below `16` to the power `w` has at most `w` hexadecimal digits.
pub proof fn hex_len_le(n: nat, w: nat)
    requires
        w >= 1,
        n < pow16(w),
    ensures
        hex(n).len() <= w,
    decreases w,
{
    if n >= 16 {
        assert(w >= 2) by {
            if w == 1 {
                assert(pow16(1) == 16 * pow16(0));
            }
        }
        let w1 = (w - 1) as nat;
        assert(n / 16 < pow16(w1)) by {
            assert(pow16(w) == 16 * pow16(w1));
            assert(n < 16 * pow16(w1));
            assert(n / 16 < pow16(w1)) by (nonlinear_arith)
                requires
                    n < 16 * pow16(w1),
            ;
        }
        hex_len_le(n / 16, w1);
    }
}

/// Leading zero digits do not change the value of a number's digits.
pub proof fn zeros_keep_value(k: nat, s: Seq<u8>, base: nat)
    ensures
        digits_value(repeat(48, k) + s, base) == digits_value(s, base),
    decreases s.len(), k,
{
    if s.len() == 0 {
        assert(repeat(48, k) + s =~= repeat(48, k));
        if k > 0 {
            assert(repeat(48, k).drop_last() =~= repeat(48, (k - 1) as nat));
            zeros_keep_value((k - 1) as nat, s, base);
            assert(repeat(48, (k - 1) as nat) + s =~= repeat(48, (k - 1) as nat));
            assert(digit_value(48) == 0);
            assert(digits_value(repeat(48, k), base) == digits_value(repeat(48, (k - 1) as nat), base)
                * base);
            assert(0 * base == 0) by (nonlinear_arith);
        }
    } else {
        assert((repeat(48, k) + s).drop_last() =~= repeat(48, k) + s.drop_last());
        zeros_keep_value(k, s.drop_last(), base);
    }
}

/// The value of `n` in exactly `w` lower-case hexadecimal digits, padded
/// with leading zeros, for `n` below `16` to the power `w`.
pub proof fn zero_padded_hex(n: nat, w: nat)
    requires
        w >= 1,
        n < pow16(w),
    ensures
        pad_left(hex(n), w, 48).len() == w,
        forall|i: int| 0 <= i < w ==> is_digit_of(#[trigger] pad_left(hex(n), w, 48)[i], 16),
        digits_value(pad_left(hex(n), w, 48), 16) == n,
{
    reveal(pad_left);
    hex_represents(n);
    hex_len_le(n, w);
    let h = hex(n);
    if h.len() < w {
        let k = (w - h.len()) as nat;
        zeros_keep_value(k, h, 16);
        let p = repeat(48, k) + h;
        assert forall|i: int| 0 <= i < w implies is_digit_of(#[trigger] p[i], 16) by {
            if i >= k {
                assert(p[i] == h[i - k]);
            }
        }
    }
}

} // verus!
