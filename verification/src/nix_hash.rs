//! SHA-256 hashing encoded in Nix's custom base32 alphabet.
//!
//! Digits are little-endian 5-bit groups over the byte array, printed
//! most-significant group first, using the alphabet
//! `0123456789abcdfghijklmnpqrsvwxyz`.

use vstd::arithmetic::div_mod::*;
use vstd::arithmetic::power2::*;
use vstd::bits::*;
use vstd::prelude::*;
use vstd::utf8::{encode_utf8, is_ascii_chars, is_ascii_chars_encode_utf8};

use sha2::{Digest, Sha256};

use crate::order::{bytes_lt, text_lt};
use crate::text::push_char;

verus! {

/// The 32 digits of Nix base32, in order.
pub const NIX_ALPHABET: [char; 32] = [
    '0', '1', '2', '3', '4', '5', '6', '7', '8', '9', 'a', 'b', 'c', 'd', 'f', 'g',
    'h', 'i', 'j', 'k', 'l', 'm', 'n', 'p', 'q', 'r', 's', 'v', 'w', 'x', 'y', 'z',
];

/// The value of a byte string read as a little-endian number.
pub open spec fn le_value(bytes: Seq<u8>) -> nat
    decreases bytes.len(),
{
    if bytes.len() == 0 {
        0
    } else {
        bytes[0] as nat + 256 * le_value(bytes.drop_first())
    }
}

/// Number of base32 digits needed for `n` bytes: `ceil(8 * n / 5)`.
pub open spec fn encoded_len(n: nat) -> nat {
    if n == 0 {
        0
    } else {
        ((n * 8 - 1) / 5 + 1) as nat
    }
}

/// The `m`-th base32 digit (least significant first) of the byte string.
pub open spec fn digit(bytes: Seq<u8>, m: nat) -> nat {
    (le_value(bytes) / pow2(5 * m)) % 32
}

/// Nix base32 text of a byte string: its digits, most significant first.
pub open spec fn spec_nix_base32(bytes: Seq<u8>) -> Seq<char> {
    let l = encoded_len(bytes.len());
    Seq::new(l, |k: int| NIX_ALPHABET@[digit(bytes, (l - 1 - k) as nat) as int])
}

/// Splitting a byte string at `k` splits its value.
proof fn lemma_le_value_split(bytes: Seq<u8>, k: nat)
    requires
        k <= bytes.len(),
    ensures
        le_value(bytes) == le_value(bytes.take(k as int)) + pow2(8 * k) * le_value(
            bytes.skip(k as int),
        ),
        le_value(bytes.take(k as int)) < pow2(8 * k),
    decreases k,
{
    if k == 0 {
        assert(bytes.take(0) =~= Seq::<u8>::empty());
        assert(bytes.skip(0) =~= bytes);
        lemma2_to64();
    } else {
        let rest = bytes.drop_first();
        lemma_le_value_split(rest, (k - 1) as nat);
        assert(rest.take(k - 1) =~= bytes.take(k as int).drop_first());
        assert(rest.skip(k - 1) =~= bytes.skip(k as int));
        let t = le_value(rest.take(k - 1));
        let s = le_value(rest.skip(k - 1));
        let p = pow2((8 * (k - 1)) as nat);
        lemma_pow2_adds(8, (8 * (k - 1)) as nat);
        lemma2_to64();
        assert(pow2(8 * k) == 256 * p);
        assert(le_value(bytes) == bytes[0] + 256 * (t + p * s));
        assert(le_value(bytes.take(k as int)) == bytes[0] + 256 * t);
        assert(256 * (t + p * s) == 256 * t + (256 * p) * s) by (nonlinear_arith);
        assert(256 * t + 256 <= 256 * p) by (nonlinear_arith)
            requires
                t < p,
        ;
    }
}

/// The value of the suffix starting at `k` is the value divided by `2^(8k)`.
proof fn lemma_le_value_shift(bytes: Seq<u8>, k: nat)
    requires
        k <= bytes.len(),
    ensures
        le_value(bytes) / pow2(8 * k) == le_value(bytes.skip(k as int)),
{
    lemma_le_value_split(bytes, k);
    lemma_pow2_pos(8 * k);
    let p = pow2(8 * k) as int;
    let q = le_value(bytes.skip(k as int)) as int;
    let r = le_value(bytes.take(k as int)) as int;
    lemma_fundamental_div_mod_converse(le_value(bytes) as int, p, q, r);
}

/// The digit `m` read from the two bytes that hold its five bits.
proof fn lemma_digit_window(bytes: Seq<u8>, m: nat)
    requires
        (5 * m) / 8 < bytes.len(),
    ensures
        ({
            let k = ((5 * m) / 8) as int;
            let s = (5 * m) % 8;
            let next: nat = if k + 1 < bytes.len() {
                bytes[k + 1] as nat
            } else {
                0
            };
            digit(bytes, m) == ((bytes[k] as nat + 256 * next) / pow2(s)) % 32
        }),
{
    let kn: nat = (5 * m) / 8;
    let k = kn as int;
    let s: nat = (5 * m) % 8;
    let next: nat = if k + 1 < bytes.len() {
        bytes[k + 1] as nat
    } else {
        0
    };
    let v = le_value(bytes);
    let tail = bytes.skip(k);
    let w: nat = bytes[k] as nat + 256 * next;
    let r: nat = if k + 1 < bytes.len() {
        le_value(bytes.skip(k + 2))
    } else {
        0
    };
    // the suffix value is the two-byte window plus a multiple of 2^16
    assert(tail.drop_first() =~= bytes.skip(k + 1));
    assert(le_value(tail) == bytes[k] as nat + 256 * le_value(bytes.skip(k + 1)));
    if k + 1 < bytes.len() {
        let t1 = bytes.skip(k + 1);
        assert(t1.drop_first() =~= bytes.skip(k + 2));
        assert(le_value(t1) == bytes[k + 1] as nat + 256 * r);
        assert(256 * (bytes[k + 1] as nat + 256 * r) == 256 * next + 65536 * r) by (nonlinear_arith)
            requires
                next == bytes[k + 1] as nat,
        ;
    } else {
        assert(bytes.skip(k + 1) =~= Seq::<u8>::empty());
    }
    assert(le_value(tail) == w + 65536 * r);
    // 2^(5m) = 2^(8k) * 2^s
    assert(5 * m == 8 * kn + s);
    lemma_pow2_adds(8 * kn, s);
    lemma_pow2_pos(8 * kn);
    lemma_pow2_pos(s);
    lemma_div_denominator(v as int, pow2(8 * kn) as int, pow2(s) as int);
    lemma_le_value_shift(bytes, kn);
    let ps = pow2(s) as int;
    assert(digit(bytes, m) == ((w + 65536 * r) as int / ps) % 32);
    // 2^16 = 2^s * 2^(16 - s) and 2^(16 - s) = 32 * 2^(11 - s)
    lemma_pow2_adds(s, (16 - s) as nat);
    lemma_pow2_adds(5, (11 - s) as nat);
    lemma2_to64();
    let a = pow2((16 - s) as nat) as int;
    let b = pow2((11 - s) as nat) as int;
    assert(65536 * r == (a * r) * ps) by (nonlinear_arith)
        requires
            65536 == ps * a,
    ;
    lemma_hoist_over_denominator(w as int, a * r, pow2(s));
    assert(a * r == 32 * (b * r)) by (nonlinear_arith)
        requires
            a == 32 * b,
    ;
    lemma_mod_multiples_vanish(b * r, w as int / ps, 32);
}

/// The five bits selected by the shifts of the encoder are the digit of the
/// two-byte window.
proof fn lemma_window_bits(x: u16, y: u16, s: u16)
    requires
        x < 256,
        y < 256,
        s < 8,
    ensures
        (((x >> s) | (y << ((8 - s) as u16))) & 0x1f) as nat == ((x + 256 * y) as nat / pow2(
            s as nat,
        )) % 32,
{
    let w: u16 = x | (y << 8u16);
    assert(w == x + 256 * y) by (bit_vector)
        requires
            x < 256,
            y < 256,
            w == x | (y << 8u16),
    ;
    assert(((x >> s) | (y << ((8 - s) as u16))) & 0x1f == (w >> s) % 32) by (bit_vector)
        requires
            x < 256,
            y < 256,
            s < 8,
            w == x | (y << 8u16),
    ;
    lemma_u16_shr_is_div(w, s);
}

/// Encode raw bytes in Nix base32.
pub fn nix_base32(bytes: &[u8]) -> (out: String)
    requires
        bytes@.len() > 0,
        bytes@.len() <= usize::MAX / 8,
    ensures
        out@ == spec_nix_base32(bytes@),
{
    let len = ((bytes.len() * 8 - 1) / 5) + 1;
    let ghost l = encoded_len(bytes@.len());
    assert(len == l);
    let mut out = String::new();
    let mut n = len;
    while n > 0
        invariant
            n <= len,
            len == l,
            l == encoded_len(bytes@.len()),
            bytes@.len() > 0,
            bytes@.len() <= usize::MAX / 8,
            out@ =~= spec_nix_base32(bytes@).take(len - n),
        decreases n,
    {
        n -= 1;
        let bit = n * 5;
        let byte = bit / 8;
        let shift = (bit % 8) as u16;
        assert(byte < bytes@.len()) by (nonlinear_arith)
            requires
                n < len,
                len == (bytes@.len() * 8 - 1) / 5 + 1,
                bit == n * 5,
                byte == bit / 8,
                bytes@.len() > 0,
        ;
        let lo: u16 = (bytes[byte] as u16) >> shift;
        let next: u16 = if byte + 1 < bytes.len() {
            bytes[byte + 1] as u16
        } else {
            0
        };
        let hi: u16 = next << (8 - shift);
        let d = (lo | hi) & 0x1f;
        proof {
            lemma_window_bits(bytes@[byte as int] as u16, next, shift);
            lemma_digit_window(bytes@, n as nat);
        }
        assert(d < 32) by (bit_vector)
            requires
                d == (lo | hi) & 0x1f,
        ;
        push_char(&mut out, NIX_ALPHABET[d as usize]);
    }
    out
}

/// The SHA-256 digest of a byte string.
pub uninterp spec fn spec_sha256(data: Seq<u8>) -> Seq<u8>;

/// `sha2::Sha256::digest`: the SHA-256 digest of `data`, whose output type
/// is a 32-byte array.
#[verifier::external_body]
fn sha256_digest(data: &[u8]) -> (digest: Vec<u8>)
    ensures
        digest@ == spec_sha256(data@),
        digest@.len() == 32,
{
    Sha256::digest(data).to_vec()
}

/// SHA-256 of `data`, encoded in Nix base32 (52 chars for SHA-256).
pub fn sha256_nix_base32(data: &[u8]) -> (out: String)
    ensures
        out@ == spec_nix_base32(spec_sha256(data@)),
        out@.len() == 52,
{
    let digest = sha256_digest(data);
    nix_base32(digest.as_slice())
}

/// The digit a character of the alphabet stands for.
pub open spec fn digit_of_char(c: char) -> nat {
    choose|d: nat| d < 32 && NIX_ALPHABET@[d as int] == c
}

/// The alphabet is ASCII, in strictly ascending order.
proof fn lemma_alphabet_ascending()
    ensures
        forall|k: int| 0 <= k < 32 ==> '\0' <= #[trigger] NIX_ALPHABET@[k] <= '\u{7f}',
        forall|i: int, j: int|
            0 <= i < j < 32 ==> (#[trigger] NIX_ALPHABET@[i] as u8) < (#[trigger] NIX_ALPHABET@[j] as u8),
{
    let a = NIX_ALPHABET@;
    assert(a =~= seq![
        '0', '1', '2', '3', '4', '5', '6', '7', '8', '9', 'a', 'b', 'c', 'd', 'f', 'g',
        'h', 'i', 'j', 'k', 'l', 'm', 'n', 'p', 'q', 'r', 's', 'v', 'w', 'x', 'y', 'z',
    ]);
    assert(forall|k: int| 0 <= k < 10 ==> (a[k] as u8) == 48 + k);
    assert(forall|k: int| 10 <= k < 32 ==> (a[k] as u8) >= 97);
    assert(forall|k: int, l: int| 10 <= k < l < 32 ==> (a[k] as u8) < (a[l] as u8));
}

/// The alphabet has 32 distinct characters.
proof fn lemma_alphabet_distinct(i: int, j: int)
    requires
        0 <= i < 32,
        0 <= j < 32,
        NIX_ALPHABET@[i] == NIX_ALPHABET@[j],
    ensures
        i == j,
{
    lemma_alphabet_ascending();
    if i < j {
        assert((NIX_ALPHABET@[i] as u8) < (NIX_ALPHABET@[j] as u8));
    } else if j < i {
        assert((NIX_ALPHABET@[j] as u8) < (NIX_ALPHABET@[i] as u8));
    }
}

/// Value of the `l` least significant digits.
pub open spec fn digits_value(bytes: Seq<u8>, l: nat) -> nat
    decreases l,
{
    if l == 0 {
        0
    } else {
        digits_value(bytes, (l - 1) as nat) + pow2((5 * (l - 1)) as nat) * digit(bytes, (l - 1) as nat)
    }
}

proof fn lemma_digits_value_mod(bytes: Seq<u8>, l: nat)
    ensures
        digits_value(bytes, l) == le_value(bytes) % pow2(5 * l),
    decreases l,
{
    if l == 0 {
        lemma2_to64();
        assert(le_value(bytes) % 1 == 0);
    } else {
        let j = (l - 1) as nat;
        lemma_digits_value_mod(bytes, j);
        lemma_pow2_pos(5 * j);
        lemma_pow2_adds(5 * j, 5);
        lemma2_to64();
        lemma_breakdown(le_value(bytes) as int, pow2(5 * j) as int, 32);
    }
}

proof fn lemma_le_value_injective(a: Seq<u8>, b: Seq<u8>)
    requires
        a.len() == b.len(),
        le_value(a) == le_value(b),
    ensures
        a == b,
    decreases a.len(),
{
    if a.len() > 0 {
        let (ra, rb) = (a.drop_first(), b.drop_first());
        lemma_fundamental_div_mod_converse(le_value(a) as int, 256, le_value(ra) as int, a[0] as int);
        lemma_fundamental_div_mod_converse(le_value(b) as int, 256, le_value(rb) as int, b[0] as int);
        lemma_le_value_injective(ra, rb);
        assert(a =~= b) by {
            assert forall|i: int| 0 <= i < a.len() implies a[i] == b[i] by {
                if i > 0 {
                    assert(a[i] == ra[i - 1]);
                    assert(b[i] == rb[i - 1]);
                }
            }
        }
    }
}

/// Law: the encoding read back, most significant digit first, is the
/// little-endian value of the bytes.
pub proof fn lemma_nix_base32_value(bytes: Seq<u8>)
    requires
        bytes.len() > 0,
    ensures
        spec_nix_base32(bytes).len() == encoded_len(bytes.len()),
        forall|k: int|
            0 <= k < spec_nix_base32(bytes).len() ==> #[trigger] digit_of_char(spec_nix_base32(bytes)[k])
                == digit(bytes, (encoded_len(bytes.len()) - 1 - k) as nat),
        digits_value(bytes, encoded_len(bytes.len())) == le_value(bytes),
{
    let n = bytes.len();
    let l = encoded_len(n);
    let text = spec_nix_base32(bytes);
    assert forall|k: int| 0 <= k < text.len() implies #[trigger] digit_of_char(text[k]) == digit(
        bytes,
        (l - 1 - k) as nat,
    ) by {
        let d = digit(bytes, (l - 1 - k) as nat);
        assert(d < 32 && NIX_ALPHABET@[d as int] == text[k]);
        let e = digit_of_char(text[k]);
        lemma_alphabet_distinct(d as int, e as int);
    }
    lemma_digits_value_mod(bytes, l);
    lemma_le_value_split(bytes, n);
    assert(bytes.take(n as int) =~= bytes);
    assert(bytes.skip(n as int) =~= Seq::<u8>::empty());
    assert(8 * n <= 5 * l);
    lemma_pow2_adds(8 * n, (5 * l - 8 * n) as nat);
    lemma_pow2_pos((5 * l - 8 * n) as nat);
    assert(pow2(8 * n) <= pow2(5 * l)) by (nonlinear_arith)
        requires
            pow2(5 * l) == pow2(8 * n) * pow2((5 * l - 8 * n) as nat),
            pow2((5 * l - 8 * n) as nat) > 0,
    ;
    lemma_small_mod(le_value(bytes), pow2(5 * l));
}

/// Law: byte strings of the same length have the same encoding only when
/// they are equal.
pub proof fn lemma_nix_base32_injective(a: Seq<u8>, b: Seq<u8>)
    requires
        a.len() == b.len(),
        a.len() > 0,
        spec_nix_base32(a) == spec_nix_base32(b),
    ensures
        a == b,
{
    let l = encoded_len(a.len());
    lemma_nix_base32_value(a);
    lemma_nix_base32_value(b);
    assert forall|m: nat| m < l implies digit(a, m) == digit(b, m) by {
        let k = (l - 1 - m) as int;
        assert(0 <= k < spec_nix_base32(a).len());
        assert(((l - 1 - k) as nat) == m);
        assert(digit_of_char(spec_nix_base32(a)[k]) == digit(a, m));
        assert(digit_of_char(spec_nix_base32(b)[k]) == digit(b, m));
    }
    lemma_digits_equal_value(a, b, l);
    lemma_le_value_injective(a, b);
}

proof fn lemma_digits_equal_value(a: Seq<u8>, b: Seq<u8>, l: nat)
    requires
        forall|m: nat| m < l ==> digit(a, m) == digit(b, m),
    ensures
        digits_value(a, l) == digits_value(b, l),
    decreases l,
{
    if l > 0 {
        lemma_digits_equal_value(a, b, (l - 1) as nat);
        assert(digit(a, (l - 1) as nat) == digit(b, (l - 1) as nat));
    }
}

/// The first `l` digits, most significant first.
pub open spec fn msb_digits(bytes: Seq<u8>, l: nat) -> Seq<nat> {
    Seq::new(l, |k: int| digit(bytes, (l - 1 - k) as nat))
}

/// Value of base-32 digits read most significant first.
pub open spec fn msb_value(ds: Seq<nat>) -> nat
    decreases ds.len(),
{
    if ds.len() == 0 {
        0
    } else {
        ds[0] * pow2((5 * (ds.len() - 1)) as nat) + msb_value(ds.drop_first())
    }
}

/// The ASCII codes of the alphabet characters of some digits.
pub open spec fn digit_codes(ds: Seq<nat>) -> Seq<u8> {
    ds.map_values(|d: nat| NIX_ALPHABET@[d as int] as u8)
}

proof fn lemma_msb_value_digits(bytes: Seq<u8>, l: nat)
    ensures
        msb_value(msb_digits(bytes, l)) == digits_value(bytes, l),
    decreases l,
{
    if l > 0 {
        let ds = msb_digits(bytes, l);
        assert(ds.drop_first() =~= msb_digits(bytes, (l - 1) as nat));
        lemma_msb_value_digits(bytes, (l - 1) as nat);
        let p = pow2((5 * (l - 1)) as nat);
        let d = digit(bytes, (l - 1) as nat);
        assert(ds[0] == d);
        assert(msb_value(ds) == d * p + msb_value(ds.drop_first()));
        assert(d * p == p * d) by (nonlinear_arith);
    }
}

proof fn lemma_msb_value_bound(ds: Seq<nat>)
    requires
        forall|k: int| 0 <= k < ds.len() ==> #[trigger] ds[k] < 32,
    ensures
        msb_value(ds) < pow2(5 * ds.len()),
    decreases ds.len(),
{
    if ds.len() == 0 {
        lemma2_to64();
    } else {
        let n = (ds.len() - 1) as nat;
        let rest = ds.drop_first();
        lemma_msb_value_bound(rest);
        lemma_pow2_adds(5, 5 * n);
        lemma2_to64();
        let p = pow2(5 * n);
        assert(ds[0] * p + msb_value(rest) < 32 * p) by (nonlinear_arith)
            requires
                ds[0] < 32,
                msb_value(rest) < p,
        ;
    }
}

/// On digit sequences of one length, the order of their characters'
/// codes is the order of their values.
proof fn lemma_codes_order(s: Seq<nat>, t: Seq<nat>)
    requires
        s.len() == t.len(),
        forall|k: int| 0 <= k < s.len() ==> #[trigger] s[k] < 32,
        forall|k: int| 0 <= k < t.len() ==> #[trigger] t[k] < 32,
    ensures
        bytes_lt(digit_codes(s), digit_codes(t)) <==> msb_value(s) < msb_value(t),
    decreases s.len(),
{
    if s.len() > 0 {
        let n = (s.len() - 1) as nat;
        let p = pow2(5 * n);
        let (rs, rt) = (s.drop_first(), t.drop_first());
        lemma_codes_order(rs, rt);
        lemma_msb_value_bound(rs);
        lemma_msb_value_bound(rt);
        lemma_alphabet_ascending();
        assert(digit_codes(s).drop_first() =~= digit_codes(rs));
        assert(digit_codes(t).drop_first() =~= digit_codes(rt));
        let (vs, vt) = (msb_value(rs), msb_value(rt));
        if s[0] < t[0] {
            assert(digit_codes(s)[0] < digit_codes(t)[0]);
            assert(s[0] * p + vs < t[0] * p + vt) by (nonlinear_arith)
                requires
                    s[0] < t[0],
                    vs < p,
            ;
        } else if t[0] < s[0] {
            assert(digit_codes(t)[0] < digit_codes(s)[0]);
            assert(t[0] * p + vt < s[0] * p + vs) by (nonlinear_arith)
                requires
                    t[0] < s[0],
                    vt < p,
            ;
        }
    }
}

/// Law: for byte strings of one length, a smaller little-endian value
/// gives an encoding that sorts first, and only then.
pub proof fn lemma_nix_base32_order(a: Seq<u8>, b: Seq<u8>)
    requires
        a.len() == b.len(),
        a.len() > 0,
    ensures
        le_value(a) < le_value(b) <==> text_lt(spec_nix_base32(a), spec_nix_base32(b)),
{
    let l = encoded_len(a.len());
    lemma_nix_base32_value(a);
    lemma_nix_base32_value(b);
    lemma_msb_value_digits(a, l);
    lemma_msb_value_digits(b, l);
    lemma_alphabet_ascending();
    let (da, db) = (msb_digits(a, l), msb_digits(b, l));
    let (ta, tb) = (spec_nix_base32(a), spec_nix_base32(b));
    assert(is_ascii_chars(ta));
    assert(is_ascii_chars(tb));
    is_ascii_chars_encode_utf8(ta);
    is_ascii_chars_encode_utf8(tb);
    assert(encode_utf8(ta) =~= digit_codes(da));
    assert(encode_utf8(tb) =~= digit_codes(db));
    lemma_codes_order(da, db);
}

} // verus!
