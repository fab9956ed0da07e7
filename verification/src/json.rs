//! JSON text pieces: string literals and decimal numbers.

use vstd::prelude::*;

use crate::text::push_char;

verus! {

/// `serde_json::Error`, carried as an opaque value.
#[verifier::external_type_specification]
#[verifier::external_body]
pub struct ExJsonError(serde_json::Error);

/// Lowercase hexadecimal digits.
pub const HEX_DIGITS: [char; 16] = [
    '0', '1', '2', '3', '4', '5', '6', '7', '8', '9', 'a', 'b', 'c', 'd', 'e', 'f',
];

/// Decimal digits.
pub const DECIMAL_DIGITS: [char; 10] = ['0', '1', '2', '3', '4', '5', '6', '7', '8', '9'];

/// How one character is written inside a JSON string literal: quote,
/// backslash and control characters are escaped, everything else is kept.
pub open spec fn json_escape(c: char) -> Seq<char> {
    if c == '"' {
        seq!['\\', '"']
    } else if c == '\\' {
        seq!['\\', '\\']
    } else if c == '\u{8}' {
        seq!['\\', 'b']
    } else if c == '\u{c}' {
        seq!['\\', 'f']
    } else if c == '\n' {
        seq!['\\', 'n']
    } else if c == '\r' {
        seq!['\\', 'r']
    } else if c == '\t' {
        seq!['\\', 't']
    } else if (c as u32) < 0x20 {
        seq![
            '\\',
            'u',
            '0',
            '0',
            HEX_DIGITS@[((c as u32) / 16) as int],
            HEX_DIGITS@[((c as u32) % 16) as int],
        ]
    } else {
        seq![c]
    }
}

/// The characters of a text, each escaped.
pub open spec fn json_escaped(s: Seq<char>) -> Seq<char>
    decreases s.len(),
{
    if s.len() == 0 {
        Seq::empty()
    } else {
        json_escaped(s.drop_last()) + json_escape(s.last())
    }
}

/// A text as a JSON string literal.
pub open spec fn json_quoted(s: Seq<char>) -> Seq<char> {
    seq!['"'] + json_escaped(s) + seq!['"']
}

/// Law: a text is escaped character by character.
pub proof fn lemma_json_escaped_concat(a: Seq<char>, b: Seq<char>)
    ensures
        json_escaped(a + b) == json_escaped(a) + json_escaped(b),
    decreases b.len(),
{
    if b.len() == 0 {
        assert(a + b =~= a);
        assert(json_escaped(a) + json_escaped(b) =~= json_escaped(a));
    } else {
        let c = b.drop_last();
        lemma_json_escaped_concat(a, c);
        assert((a + b).drop_last() =~= a + c);
        assert((a + b).last() == b.last());
        assert(json_escaped(a + b) =~= json_escaped(a) + json_escaped(b));
    }
}

/// No control character, and every quote right after a backslash.
pub open spec fn json_safe(t: Seq<char>) -> bool {
    forall|i: int|
        0 <= i < t.len() ==> (#[trigger] t[i] as u32) >= 0x20 && (t[i] == '"' ==> i > 0 && t[i
            - 1] == '\\')
}

proof fn lemma_json_escape_safe(c: char)
    ensures
        json_safe(json_escape(c)),
        json_escape(c).len() > 0,
        json_escape(c)[0] != '"',
{
    let h = HEX_DIGITS@;
    assert(h =~= seq!['0', '1', '2', '3', '4', '5', '6', '7', '8', '9', 'a', 'b', 'c', 'd', 'e', 'f']);
    assert(forall|k: int| 0 <= k < 16 ==> (h[k] as u32) >= 0x30);
}

/// Law: an escaped text holds no control character, and each quote in it
/// comes right after a backslash, so it cannot end the JSON string early.
pub proof fn lemma_json_escaped_safe(s: Seq<char>)
    ensures
        json_safe(json_escaped(s)),
    decreases s.len(),
{
    if s.len() > 0 {
        let prev = json_escaped(s.drop_last());
        let last = json_escape(s.last());
        lemma_json_escaped_safe(s.drop_last());
        lemma_json_escape_safe(s.last());
        let t = prev + last;
        assert forall|i: int| 0 <= i < t.len() implies (#[trigger] t[i] as u32) >= 0x20 && (t[i]
            == '"' ==> i > 0 && t[i - 1] == '\\') by {
            if i < prev.len() {
                assert(t[i] == prev[i]);
                if i > 0 {
                    assert(t[i - 1] == prev[i - 1]);
                }
            } else {
                let k = i - prev.len();
                assert(t[i] == last[k]);
                if k > 0 {
                    assert(t[i - 1] == last[k - 1]);
                }
            }
        }
    }
}

/// Law: a JSON string literal is the escaped text between two quotes.
pub proof fn lemma_json_quoted_frame(s: Seq<char>)
    ensures
        json_quoted(s).len() == json_escaped(s).len() + 2,
        json_quoted(s)[0] == '"',
        json_quoted(s).last() == '"',
        json_quoted(s).subrange(1, json_quoted(s).len() - 1) == json_escaped(s),
{
    assert(json_quoted(s).subrange(1, json_quoted(s).len() - 1) =~= json_escaped(s));
}

/// `serde_json::to_string` on a string slice. The serializer writes into a
/// `Vec<u8>`, whose writes cannot fail, so the result is always `Ok`: the
/// text in quotes, with `"` and `\` escaped by a backslash, the control
/// characters U+0008, U+0009, U+000A, U+000C and U+000D as `\b`, `\t`, `\n`,
/// `\f`, `\r`, the other characters below U+0020 as `\u00xx` with lowercase
/// hex digits, and every other character unchanged.
#[verifier::external_body]
fn serde_json_string(s: &str) -> (r: Result<String, serde_json::Error>)
    ensures
        r is Ok,
        r->Ok_0@ == json_quoted(s@),
{
    serde_json::to_string(s)
}

/// Appends `s` as a JSON string literal.
pub fn push_json_string(out: &mut String, s: &str)
    ensures
        final(out)@ == old(out)@ + json_quoted(s@),
{
    match serde_json_string(s) {
        Ok(j) => out.append(j.as_str()),
        Err(_) => {},
    }
}

/// Decimal digits of a natural number, most significant first.
pub open spec fn decimal_digits(n: nat) -> Seq<char>
    decreases n,
{
    if n < 10 {
        seq![DECIMAL_DIGITS@[n as int]]
    } else {
        decimal_digits(n / 10).push(DECIMAL_DIGITS@[(n % 10) as int])
    }
}

/// Decimal text of an integer, with a leading `-` when negative.
pub open spec fn decimal(n: int) -> Seq<char> {
    if n < 0 {
        seq!['-'] + decimal_digits((-n) as nat)
    } else {
        decimal_digits(n as nat)
    }
}

/// Value of decimal digit characters, most significant first.
pub open spec fn decimal_value(ds: Seq<char>) -> int
    decreases ds.len(),
{
    if ds.len() == 0 {
        0
    } else {
        decimal_value(ds.drop_last()) * 10 + (ds.last() as int - '0' as int)
    }
}

/// Law: the decimal text of `n` is digit characters without a leading zero
/// (but for 0 itself) that read back as `n`.
pub proof fn lemma_decimal_digits(n: nat)
    ensures
        decimal_digits(n).len() > 0,
        forall|i: int| 0 <= i < decimal_digits(n).len() ==> '0' <= #[trigger] decimal_digits(n)[i] <= '9',
        decimal_digits(n)[0] == '0' ==> n == 0,
        decimal_value(decimal_digits(n)) == n,
    decreases n,
{
    let d = DECIMAL_DIGITS@;
    assert(d =~= seq!['0', '1', '2', '3', '4', '5', '6', '7', '8', '9']);
    assert(forall|k: int| 0 <= k < 10 ==> (d[k] as int) == '0' as int + k);
    let dd = decimal_digits(n);
    if n >= 10 {
        lemma_decimal_digits(n / 10);
        let prev = decimal_digits(n / 10);
        assert(dd.drop_last() =~= prev);
        assert(dd[0] == prev[0]);
        assert(dd.last() as int - '0' as int == n % 10);
        assert(decimal_value(dd) == (n / 10) * 10 + n % 10);
        assert(decimal_value(dd) == n);
    } else {
        assert(dd.drop_last() =~= Seq::<char>::empty());
        assert(decimal_value(dd.drop_last()) == 0);
        assert(dd.last() as int - '0' as int == n);
        assert(decimal_value(dd) == n);
    }
}

/// Law: different numbers have different decimal texts.
pub proof fn lemma_decimal_digits_injective(m: nat, n: nat)
    requires
        decimal_digits(m) == decimal_digits(n),
    ensures
        m == n,
{
    lemma_decimal_digits(m);
    lemma_decimal_digits(n);
}

/// Law: the decimal text of an integer is a `-` before the digits of its
/// magnitude exactly when it is negative.
pub proof fn lemma_decimal_sign(n: int)
    ensures
        decimal(n).len() > 0,
        (decimal(n)[0] == '-') <==> n < 0,
        n < 0 ==> decimal(n).drop_first() == decimal_digits((-n) as nat),
        n >= 0 ==> decimal(n) == decimal_digits(n as nat),
{
    if n < 0 {
        lemma_decimal_digits((-n) as nat);
        assert(decimal(n).drop_first() =~= decimal_digits((-n) as nat));
    } else {
        lemma_decimal_digits(n as nat);
        assert('0' <= decimal_digits(n as nat)[0] <= '9');
    }
}

/// Appends the decimal digits of `n`.
pub fn push_decimal_u64(out: &mut String, n: u64)
    ensures
        final(out)@ == old(out)@ + decimal_digits(n as nat),
{
    let ghost start = out@;
    let mut m = n;
    // digits below the ones still in `m`, least significant first
    let mut low: Vec<char> = Vec::new();
    while m >= 10
        invariant
            decimal_digits(n as nat) == decimal_digits(m as nat) + low@.reverse(),
        decreases m,
    {
        let d = m % 10;
        let ghost before = low@;
        low.push(DECIMAL_DIGITS[d as usize]);
        assert(low@.reverse() =~= seq![DECIMAL_DIGITS@[d as int]] + before.reverse());
        m = m / 10;
    }
    push_char(out, DECIMAL_DIGITS[m as usize]);
    let ghost rev = low@.reverse();
    let mut k = low.len();
    while k > 0
        invariant
            k <= low@.len(),
            rev == low@.reverse(),
            out@ == start + seq![DECIMAL_DIGITS@[m as int]] + rev.take(low@.len() - k),
        decreases k,
    {
        k -= 1;
        push_char(out, low[k]);
        assert(rev.take(low@.len() - k) =~= rev.take(low@.len() - k - 1).push(low@[k as int]));
    }
    assert(rev.take(low@.len() as int) =~= rev);
    assert(decimal_digits(m as nat) =~= seq![DECIMAL_DIGITS@[m as int]]);
    assert(out@ =~= start + decimal_digits(n as nat));
}

/// Appends the decimal text of `n`.
pub fn push_decimal_i32(out: &mut String, n: i32)
    ensures
        final(out)@ == old(out)@ + decimal(n as int),
{
    if n < 0 {
        push_char(out, '-');
        push_decimal_u64(out, (-(n as i64)) as u64);
        assert(final(out)@ =~= old(out)@ + decimal(n as int)) by {
            assert(seq!['-'] + decimal_digits((-n) as nat) =~= seq!['-'].add(decimal_digits((-n) as nat)));
        }
    } else {
        push_decimal_u64(out, n as u64);
    }
}

} // verus!
