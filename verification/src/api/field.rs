//! Field elements of the Stark curve's base field, held as two 128-bit limbs.
//!
//! A value is an unsigned integer below the prime `P = 2^251 + 17 * 2^192 + 1`.
//! Addresses and hash operands are both field elements. Construction from a
//! string accepts a `0x`-prefixed big-endian hexadecimal form or a decimal
//! form; a value at or above the modulus is rejected, never reduced. The
//! canonical encoding is `0x` followed by exactly 64 lower-case hex digits, so
//! equal values always serialize identically.

use vstd::prelude::*;

verus! {

/// 2^128, the weight of the high limb.
pub open spec fn b128() -> int {
    0x100000000000000000000000000000000int
}

/// The field modulus `P = 2^251 + 17 * 2^192 + 1`.
pub open spec fn p_val() -> int {
    0x0800000000000011000000000000000000000000000000000000000000000001int
}

pub open spec fn felt_val(hi: u128, lo: u128) -> int {
    hi * b128() + lo
}

/// One element of the field, as the integer `hi * 2^128 + lo`.
#[derive(Clone, Copy, PartialEq, Eq, Structural, Debug)]
pub struct FieldElement {
    pub hi: u128,
    pub lo: u128,
}

impl View for FieldElement {
    type V = int;

    open spec fn view(&self) -> int {
        felt_val(self.hi, self.lo)
    }
}

impl FieldElement {
    /// A canonical value: strictly below the modulus.
    pub open spec fn wf(self) -> bool {
        self@ < p_val()
    }

    pub fn from_u128(v: u128) -> (r: FieldElement)
        ensures
            r@ == v,
            r.wf(),
    {
        FieldElement { hi: 0, lo: v }
    }

    /// Strict numeric order on field values.
    pub fn lt(&self, other: &FieldElement) -> (r: bool)
        ensures
            r == (self@ < other@),
    {
        proof {
            lemma_felt_val_order(*self, *other);
        }
        self.hi < other.hi || (self.hi == other.hi && self.lo < other.lo)
    }
}

/// Limb order agrees with numeric order, and limbs determine the value.
pub proof fn lemma_felt_val_order(a: FieldElement, b: FieldElement)
    ensures
        (a@ < b@) == (a.hi < b.hi || (a.hi == b.hi && a.lo < b.lo)),
        (a@ == b@) == (a.hi == b.hi && a.lo == b.lo),
{
    assert((a@ < b@) == (a.hi < b.hi || (a.hi == b.hi && a.lo < b.lo))
        && (a@ == b@) == (a.hi == b.hi && a.lo == b.lo)) by (nonlinear_arith)
        requires
            a@ == a.hi * b128() + a.lo,
            b@ == b.hi * b128() + b.lo,
            a.lo < b128() && b.lo < b128() && a.hi >= 0 && b.hi >= 0,
    {}
}

// ---------------------------------------------------------------------------
// Digit and string specifications
// ---------------------------------------------------------------------------

pub open spec fn is_dec_digit(c: char) -> bool {
    48 <= c as int <= 57
}

pub open spec fn is_hex_digit(c: char) -> bool {
    is_dec_digit(c) || 97 <= c as int <= 102 || 65 <= c as int <= 70
}

pub open spec fn hex_digit_val(c: char) -> int {
    if is_dec_digit(c) {
        c as int - 48
    } else if 97 <= c as int <= 102 {
        c as int - 87
    } else {
        c as int - 55
    }
}

/// The character for one digit value, `0..f`.
pub open spec fn hex_char(d: int) -> char {
    if d == 0 { '0' } else if d == 1 { '1' } else if d == 2 { '2' } else if d == 3 { '3' }
    else if d == 4 { '4' } else if d == 5 { '5' } else if d == 6 { '6' } else if d == 7 { '7' }
    else if d == 8 { '8' } else if d == 9 { '9' } else if d == 10 { 'a' } else if d == 11 { 'b' }
    else if d == 12 { 'c' } else if d == 13 { 'd' } else if d == 14 { 'e' } else { 'f' }
}

pub open spec fn all_dec_digits(s: Seq<char>) -> bool {
    forall|i: int| 0 <= i < s.len() ==> is_dec_digit(#[trigger] s[i])
}

pub open spec fn all_hex_digits(s: Seq<char>) -> bool {
    forall|i: int| 0 <= i < s.len() ==> is_hex_digit(#[trigger] s[i])
}

/// The integer a decimal digit string denotes; the empty string denotes zero.
pub open spec fn dec_value(s: Seq<char>) -> int
    decreases s.len(),
{
    if s.len() == 0 {
        0
    } else {
        10 * dec_value(s.drop_last()) + (s.last() as int - 48)
    }
}

/// The integer a hexadecimal digit string denotes; the empty string denotes zero.
pub open spec fn hex_value(s: Seq<char>) -> int
    decreases s.len(),
{
    if s.len() == 0 {
        0
    } else {
        16 * hex_value(s.drop_last()) + hex_digit_val(s.last())
    }
}

/// All leading repetitions of `0x` removed.
pub open spec fn trim_hex_prefix(s: Seq<char>) -> Seq<char>
    decreases s.len(),
{
    if s.len() >= 2 && s[0] == '0' && s[1] == 'x' {
        trim_hex_prefix(s.skip(2))
    } else {
        s
    }
}

pub open spec fn is_hex_form(s: Seq<char>) -> bool {
    s.len() >= 2 && s[0] == '0' && s[1] == 'x'
}

pub open spec fn valid_hex_felt(s: Seq<char>) -> bool {
    let t = trim_hex_prefix(s);
    t.len() <= 64 && all_hex_digits(t) && hex_value(t) < p_val()
}

pub open spec fn valid_dec_felt(s: Seq<char>) -> bool {
    all_dec_digits(s) && dec_value(s) < p_val()
}

/// Whether a string denotes a canonical field element: hex if it carries the
/// `0x` prefix, decimal otherwise.
pub open spec fn valid_field_str(s: Seq<char>) -> bool {
    if is_hex_form(s) {
        valid_hex_felt(s)
    } else {
        valid_dec_felt(s)
    }
}

/// The value a valid field-element string denotes.
pub open spec fn field_str_value(s: Seq<char>) -> int {
    if is_hex_form(s) {
        hex_value(trim_hex_prefix(s))
    } else {
        dec_value(s)
    }
}

// ---------------------------------------------------------------------------
// Canonical encodings
// ---------------------------------------------------------------------------

/// The fixed-width, big-endian hexadecimal digits of `v`, `n` of them.
pub open spec fn hex_str_of(v: int, n: nat) -> Seq<char>
    decreases n,
{
    if n == 0 {
        Seq::empty()
    } else {
        hex_str_of(v / 16, (n - 1) as nat) + seq![hex_char(v % 16)]
    }
}

/// The decimal digits of `v`, most significant first, no leading zero.
pub open spec fn dec_str_of(v: nat) -> Seq<char>
    decreases v,
{
    if v < 10 {
        seq![hex_char(v as int)]
    } else {
        dec_str_of(v / 10) + seq![hex_char(v as int % 10)]
    }
}

/// One digit as a string slice.
fn nibble_str(d: u128) -> (s: &'static str)
    requires
        d < 16,
    ensures
        s@ == seq![hex_char(d as int)],
{
    let s: &'static str = match d {
        0 => "0", 1 => "1", 2 => "2", 3 => "3",
        4 => "4", 5 => "5", 6 => "6", 7 => "7",
        8 => "8", 9 => "9", 10 => "a", 11 => "b",
        12 => "c", 13 => "d", 14 => "e", _ => "f",
    };
    proof {
        reveal_strlit("0"); reveal_strlit("1"); reveal_strlit("2"); reveal_strlit("3");
        reveal_strlit("4"); reveal_strlit("5"); reveal_strlit("6"); reveal_strlit("7");
        reveal_strlit("8"); reveal_strlit("9"); reveal_strlit("a"); reveal_strlit("b");
        reveal_strlit("c"); reveal_strlit("d"); reveal_strlit("e"); reveal_strlit("f");
        assert(s@ =~= seq![hex_char(d as int)]);
    }
    s
}

/// `n` fixed-width hex digits of the two-limb value, most significant first.
fn hex_fixed(hi: u128, lo: u128, n: usize) -> (s: String)
    ensures
        s@ == hex_str_of(felt_val(hi, lo), n as nat),
    decreases n,
{
    if n == 0 {
        let s = String::new();
        proof {
            assert(s@ =~= hex_str_of(felt_val(hi, lo), 0));
        }
        s
    } else {
        let d = lo % 16;
        let hi2 = hi / 16;
        proof {
            assert(lo / 16 < 0x10000000000000000000000000000000u128
                && (hi % 16) * 0x10000000000000000000000000000000u128
                    <= 15 * 0x10000000000000000000000000000000u128) by (nonlinear_arith);
        }
        let lo2 = lo / 16 + (hi % 16) * 0x10000000000000000000000000000000u128;
        proof {
            lemma_div16_step(hi, lo, hi2, lo2);
        }
        let mut s = hex_fixed(hi2, lo2, n - 1);
        s.append(nibble_str(d));
        s
    }
}

/// One division step of the encoder: shifting the two-limb value right by one
/// hex digit divides it by 16, and the dropped digit is the value mod 16.
proof fn lemma_div16_step(hi: u128, lo: u128, hi2: u128, lo2: u128)
    requires
        hi2 == hi / 16,
        lo2 == lo / 16 + (hi % 16) * 0x10000000000000000000000000000000u128,
    ensures
        felt_val(hi2, lo2) == felt_val(hi, lo) / 16,
        lo % 16 == felt_val(hi, lo) % 16,
{
    let v = felt_val(hi, lo);
    let v2 = felt_val(hi2, lo2);
    assert(v == 16 * v2 + (lo % 16) && 0 <= lo % 16 < 16 && v >= 0) by (nonlinear_arith)
        requires
            v == hi * b128() + lo,
            v2 == hi2 * b128() + lo2,
            hi2 == hi / 16,
            lo2 == lo / 16 + (hi % 16) * 0x10000000000000000000000000000000int,
            b128() == 16 * 0x10000000000000000000000000000000int,
            hi == 16 * (hi / 16) + hi % 16,
            lo == 16 * (lo / 16) + lo % 16,
            0 <= hi % 16 < 16,
            0 <= lo % 16 < 16,
    {}
    vstd::arithmetic::div_mod::lemma_fundamental_div_mod_converse(v, 16, v2, (lo % 16) as int);
}

/// The canonical encoding of a field element: `0x` and 64 hex digits.
pub fn felt_to_b16(x: &FieldElement) -> (s: String)
    ensures
        s@ == seq!['0', 'x'] + hex_str_of(x@, 64),
{
    let mut s = <String as vstd::string::StringExecFns>::from_str("0x");
    proof {
        reveal_strlit("0x");
        assert(s@ =~= seq!['0', 'x']);
    }
    let rest = hex_fixed(x.hi, x.lo, 64);
    s.append(rest.as_str());
    s
}

/// The decimal rendering of an unsigned amount.
pub fn u128_to_dec_string(v: u128) -> (s: String)
    ensures
        s@ == dec_str_of(v as nat),
    decreases v,
{
    if v < 10 {
        <String as vstd::string::StringExecFns>::from_str(nibble_str(v))
    } else {
        let mut s = u128_to_dec_string(v / 10);
        s.append(nibble_str(v % 10));
        s
    }
}

// ---------------------------------------------------------------------------
// The encoding round-trips
// ---------------------------------------------------------------------------

pub open spec fn pow16n(n: nat) -> int
    decreases n,
{
    if n == 0 {
        1
    } else {
        16 * pow16n((n - 1) as nat)
    }
}

proof fn lemma_pow16n_adds(a: nat, b: nat)
    ensures
        pow16n(a + b) == pow16n(a) * pow16n(b),
    decreases a,
{
    if a > 0 {
        lemma_pow16n_adds((a - 1) as nat, b);
        assert(pow16n(a + b) == 16 * pow16n((a + b - 1) as nat));
        assert(16 * (pow16n((a - 1) as nat) * pow16n(b)) == (16 * pow16n((a - 1) as nat))
            * pow16n(b)) by (nonlinear_arith);
    }
}

proof fn lemma_pow16n_64()
    ensures
        pow16n(64) == 0x10000000000000000000000000000000000000000000000000000000000000000int,
{
    assert(pow16n(0) == 1);
    assert(pow16n(1) == 16);
    assert(pow16n(2) == 0x100);
    assert(pow16n(3) == 0x1000);
    assert(pow16n(4) == 0x10000);
    lemma_pow16n_adds(4, 4);
    assert(pow16n(8) == 0x100000000);
    lemma_pow16n_adds(8, 8);
    assert(pow16n(16) == 0x10000000000000000);
    lemma_pow16n_adds(16, 16);
    assert(pow16n(32) == 0x100000000000000000000000000000000);
    lemma_pow16n_adds(32, 32);
}

/// The fixed-width encoding of a value in range has exactly its digits: all
/// hex, none the letter of the `0x` prefix, and decoding them folds back to
/// the value.
proof fn lemma_hex_str_of_props(v: int, n: nat)
    requires
        0 <= v < pow16n(n),
    ensures
        hex_str_of(v, n).len() == n,
        all_hex_digits(hex_str_of(v, n)),
        hex_value(hex_str_of(v, n)) == v,
        forall|i: int| 0 <= i < n ==> #[trigger] hex_str_of(v, n)[i] != 'x',
    decreases n,
{
    if n == 0 {
        assert(v == 0);
    } else {
        vstd::arithmetic::div_mod::lemma_fundamental_div_mod(v, 16);
        assert(v / 16 < pow16n((n - 1) as nat)) by (nonlinear_arith)
            requires
                v == 16 * (v / 16) + v % 16,
                0 <= v % 16 < 16,
                v < 16 * pow16n((n - 1) as nat),
                0 <= v,
        {}
        lemma_hex_str_of_props(v / 16, (n - 1) as nat);
        let t = hex_str_of(v / 16, (n - 1) as nat);
        let s = hex_str_of(v, n);
        assert(s == t + seq![hex_char(v % 16)]);
        assert(s.drop_last() =~= t);
        assert(s.last() == hex_char(v % 16));
        assert(is_hex_digit(hex_char(v % 16)) && hex_digit_val(hex_char(v % 16)) == v % 16
            && hex_char(v % 16) != 'x');
        assert(hex_value(s) == 16 * (v / 16) + v % 16);
        assert forall|i: int| 0 <= i < n implies is_hex_digit(#[trigger] s[i]) && s[i]
            != 'x' by {
            if i < n - 1 {
                assert(s[i] == t[i]);
            }
        }
    }
}

/// The canonical encoding round-trips: the `0x`-prefixed, 64-digit encoding
/// of a canonical field element is itself a valid field-element string, and
/// it denotes exactly the encoded value.
pub proof fn lemma_b16_round_trip(x: FieldElement)
    requires
        x.wf(),
    ensures
        valid_field_str(seq!['0', 'x'] + hex_str_of(x@, 64)),
        field_str_value(seq!['0', 'x'] + hex_str_of(x@, 64)) == x@,
{
    lemma_pow16n_64();
    assert(x@ >= 0) by (nonlinear_arith)
        requires
            x@ == x.hi * b128() + x.lo,
            x.hi >= 0 && x.lo >= 0 && b128() > 0,
    {}
    lemma_hex_str_of_props(x@, 64);
    let t = hex_str_of(x@, 64);
    let s = seq!['0', 'x'] + t;
    assert(s[0] == '0' && s[1] == 'x');
    assert(is_hex_form(s));
    assert(s.skip(2) =~= t);
    assert(t[1] != 'x');
    assert(trim_hex_prefix(t) == t);
    assert(trim_hex_prefix(s) == t);
}

// ---------------------------------------------------------------------------
// Trusted bridge to the outside field implementation
// ---------------------------------------------------------------------------

/// Relies on `starknet_crypto::FieldElement`'s `FromStr` (starknet-ff): a
/// `0x`-prefixed string is parsed as big-endian hex after stripping every
/// leading `0x` repetition, at most 64 digits; any other string is parsed as
/// decimal, the empty string denoting zero. A stray character or a value at or
/// above the modulus yields an error. `to_bytes_be` returns the canonical
/// big-endian bytes of the parsed value.
#[verifier::external_body]
pub fn felt_from_str(s: &str) -> (r: Option<FieldElement>)
    ensures
        r is Some <==> valid_field_str(s@),
        r is Some ==> r->0.wf() && r->0@ == field_str_value(s@),
{
    match <starknet_crypto::FieldElement as core::str::FromStr>::from_str(s) {
        Ok(f) => {
            let b = f.to_bytes_be();
            Some(FieldElement {
                hi: u128::from_be_bytes(b[0..16].try_into().unwrap()),
                lo: u128::from_be_bytes(b[16..32].try_into().unwrap()),
            })
        },
        Err(_) => None,
    }
}

/// What the Pedersen hash of two canonical field values returns.
pub uninterp spec fn pedersen_of(x: int, y: int) -> int;

/// Relies on `starknet_crypto::pedersen_hash`: the Starkware Pedersen hash, a
/// pure function of its two canonical field-element arguments, returning a
/// canonical field element.
#[verifier::external_body]
pub(crate) fn pedersen(x: &FieldElement, y: &FieldElement) -> (r: FieldElement)
    requires
        x.wf(),
        y.wf(),
    ensures
        r.wf(),
        r@ == pedersen_of(x@, y@),
{
    let mut xb = [0u8; 32];
    xb[..16].copy_from_slice(&x.hi.to_be_bytes());
    xb[16..].copy_from_slice(&x.lo.to_be_bytes());
    let mut yb = [0u8; 32];
    yb[..16].copy_from_slice(&y.hi.to_be_bytes());
    yb[16..].copy_from_slice(&y.lo.to_be_bytes());
    let fx = starknet_crypto::FieldElement::from_bytes_be(&xb).unwrap();
    let fy = starknet_crypto::FieldElement::from_bytes_be(&yb).unwrap();
    let h = starknet_crypto::pedersen_hash(&fx, &fy).to_bytes_be();
    FieldElement {
        hi: u128::from_be_bytes(h[0..16].try_into().unwrap()),
        lo: u128::from_be_bytes(h[16..32].try_into().unwrap()),
    }
}

} // verus!

