//! The counter lines' text: decimal numbers, rounded the way `{:.N}` rounds an exact value,
//! and a string built from characters.

use vstd::prelude::*;

verus! {

/// The character of decimal digit `d` (below ten).
pub open spec fn digit_char(d: nat) -> char {
    (48 + d) as char
}

/// The decimal digits of `n`, most significant first, with no leading zero ("0" for zero).
pub open spec fn decimal(n: nat) -> Seq<char>
    decreases n,
{
    if n < 10 {
        seq![digit_char(n)]
    } else {
        decimal(n / 10).push(digit_char(n % 10))
    }
}

/// `num / den` rounded to the nearest integer, a tie to the even one (how `{:.0}` rounds an
/// exactly represented value).
pub open spec fn round_half_even(num: nat, den: nat) -> nat
    recommends
        den > 0,
{
    let q = num / den;
    let r = num % den;
    if 2 * r > den || (2 * r == den && q % 2 == 1) {
        q + 1
    } else {
        q
    }
}

/// `num / den` with one decimal, rounded as `{:.1}` rounds an exactly represented value.
pub open spec fn one_decimal(num: nat, den: nat) -> Seq<char>
    recommends
        den > 0,
{
    let tenths = round_half_even(10 * num, den);
    decimal(tenths / 10).push('.').push(digit_char(tenths % 10))
}

/// [`round_half_even`], computed.
pub fn rounded(num: u64, den: u64) -> (q: u64)
    requires
        den > 0,
        num / den + 1 <= u64::MAX,
    ensures
        q == round_half_even(num as nat, den as nat),
{
    let q = num / den;
    let r = num % den;
    assert(r < den);
    let twice: u128 = 2 * (r as u128);
    if twice > den as u128 || (twice == den as u128 && q % 2 == 1) {
        q + 1
    } else {
        q
    }
}

/// Appends the decimal digits of `n`.
pub fn push_decimal(out: &mut Vec<char>, n: u64)
    ensures
        final(out)@ == old(out)@ + decimal(n as nat),
    decreases n,
{
    if n >= 10 {
        push_decimal(out, n / 10);
    }
    let d = (n % 10) as u8;
    let c = (48u8 + d) as char;
    assert(c == digit_char((n % 10) as nat));
    out.push(c);
    proof {
        if n >= 10 {
            assert(decimal(n as nat) == decimal((n / 10) as nat).push(digit_char((n % 10) as nat)));
        } else {
            assert(decimal(n as nat) == seq![digit_char(n as nat)]);
        }
        assert(final(out)@ =~= old(out)@ + decimal(n as nat));
    }
}

/// Appends `n / den` with one decimal (see [`one_decimal`]).
pub fn push_one_decimal(out: &mut Vec<char>, num: u64, den: u64)
    requires
        den > 0,
        num <= u32::MAX,
        den <= u32::MAX,
    ensures
        final(out)@ == old(out)@ + one_decimal(num as nat, den as nat),
{
    let tenths = rounded(10 * num, den);
    push_decimal(out, tenths / 10);
    out.push('.');
    let d = (tenths % 10) as u8;
    let c = (48u8 + d) as char;
    assert(c == digit_char((tenths % 10) as nat));
    out.push(c);
    assert(final(out)@ =~= old(out)@ + one_decimal(num as nat, den as nat));
}

/// Appends the characters of `s`.
pub fn push_text(out: &mut Vec<char>, s: &str)
    ensures
        final(out)@ == old(out)@ + s@,
{
    let len = s.unicode_len();
    let mut i: usize = 0;
    while i < len
        invariant
            len == s@.len(),
            i <= len,
            out@ == old(out)@ + s@.take(i as int),
        decreases len - i,
    {
        let c = s.get_char(i);
        out.push(c);
        i = i + 1;
        assert(s@.take(i as int) == s@.take(i - 1).push(c));
    }
    assert(s@.take(len as int) == s@);
}

/// The code of `c` with an ASCII capital turned to its small letter.
pub open spec fn ascii_lower(c: char) -> u32 {
    if 65 <= c as u32 <= 90 {
        (c as u32 + 32) as u32
    } else {
        c as u32
    }
}

/// Whether `a` and `b` are equal but for the case of ASCII letters.
pub open spec fn eq_ignore_ascii_case(a: Seq<char>, b: Seq<char>) -> bool {
    a.len() == b.len() && forall|i: int| 0 <= i < a.len() ==> #[trigger] ascii_lower(a[i]) == ascii_lower(b[i])
}

fn lower_code(c: char) -> (code: u32)
    ensures
        code == ascii_lower(c),
{
    let x = c as u32;
    if 65 <= x && x <= 90 {
        x + 32
    } else {
        x
    }
}

/// [`eq_ignore_ascii_case`] of two strings.
pub fn text_eq_ignore_ascii_case(a: &str, b: &str) -> (equal: bool)
    ensures
        equal == eq_ignore_ascii_case(a@, b@),
{
    let len = a.unicode_len();
    if len != b.unicode_len() {
        return false;
    }
    let mut i: usize = 0;
    while i < len
        invariant
            len == a@.len(),
            len == b@.len(),
            i <= len,
            forall|k: int| 0 <= k < i ==> #[trigger] ascii_lower(a@[k]) == ascii_lower(b@[k]),
        decreases len - i,
    {
        if lower_code(a.get_char(i)) != lower_code(b.get_char(i)) {
            return false;
        }
        i = i + 1;
    }
    true
}

/// What `{:?}` writes of a string (`str`'s `Debug`): the string in double quotes, its
/// quotes, backslashes and control characters escaped.
pub uninterp spec fn debug_text(text: Seq<char>) -> Seq<char>;

/// `text` quoted and escaped as `{:?}` writes it (`str`'s `Debug`), named [`debug_text`]: what
/// it writes depends on the text alone.
#[verifier::external_body]
pub(crate) fn debug_quoted(text: &str) -> (quoted: String)
    ensures
        quoted@ == debug_text(text@),
{
    format!("{text:?}")
}

/// The string of `chars`.
#[verifier::external_body]
pub(crate) fn string_of(chars: Vec<char>) -> (s: String)
    ensures
        s@ == chars@,
{
    chars.into_iter().collect()
}

} // verus!
