//! Text primitives over `Seq<char>` models: whitespace trimming, prefixes,
//! the byte-order mark, slash normalisation and decimal numerals.

use vstd::prelude::*;

verus! {

/// Whether `c` has the Unicode property `White_Space`.
pub open spec fn is_whitespace(c: char) -> bool {
    let u = c as u32;
    ||| 0x09 <= u <= 0x0D
    ||| u == 0x20
    ||| u == 0x85
    ||| u == 0xA0
    ||| u == 0x1680
    ||| 0x2000 <= u <= 0x200A
    ||| u == 0x2028
    ||| u == 0x2029
    ||| u == 0x202F
    ||| u == 0x205F
    ||| u == 0x3000
}

/// `s` without its leading whitespace.
pub open spec fn trim_start(s: Seq<char>) -> Seq<char>
    decreases s.len(),
{
    if s.len() > 0 && is_whitespace(s[0]) {
        trim_start(s.drop_first())
    } else {
        s
    }
}

/// `s` without its trailing whitespace.
pub open spec fn trim_end(s: Seq<char>) -> Seq<char>
    decreases s.len(),
{
    if s.len() > 0 && is_whitespace(s.last()) {
        trim_end(s.drop_last())
    } else {
        s
    }
}

/// `s` without leading and trailing whitespace.
pub open spec fn trimmed(s: Seq<char>) -> Seq<char> {
    trim_end(trim_start(s))
}

/// Whether `c` is whitespace.
pub fn char_is_whitespace(c: char) -> (r: bool)
    ensures
        r == is_whitespace(c),
{
    let u: u32 = c as u32;
    (0x09 <= u && u <= 0x0D) || u == 0x20 || u == 0x85 || u == 0xA0 || u == 0x1680 || (0x2000 <= u
        && u <= 0x200A) || u == 0x2028 || u == 0x2029 || u == 0x202F || u == 0x205F || u == 0x3000
}

/// Removes leading and trailing whitespace.
pub fn trim(s: &str) -> (r: &str)
    ensures
        r@ == trimmed(s@),
{
    let n = s.unicode_len();
    let mut a: usize = 0;
    assert(s@.subrange(0, n as int) =~= s@);
    while a < n && char_is_whitespace(s.get_char(a))
        invariant
            a <= n,
            n == s@.len(),
            trim_start(s@) == trim_start(s@.subrange(a as int, n as int)),
        decreases n - a,
    {
        assert(s@.subrange(a as int, n as int).drop_first() =~= s@.subrange(a + 1, n as int));
        a += 1;
    }
    assert(trim_start(s@) == s@.subrange(a as int, n as int));
    let mut b: usize = n;
    while b > a && char_is_whitespace(s.get_char(b - 1))
        invariant
            a <= b <= n,
            n == s@.len(),
            trimmed(s@) == trim_end(s@.subrange(a as int, b as int)),
        decreases b,
    {
        assert(s@.subrange(a as int, b as int).drop_last() =~= s@.subrange(a as int, b - 1));
        b -= 1;
    }
    s.substring_char(a, b)
}

/// What trimming the start cuts off is whitespace, and what is left does
/// not begin with whitespace: `trim_start(s)` is `s` from the returned
/// index on.
pub proof fn lemma_trim_start_cuts_whitespace(s: Seq<char>) -> (cut: int)
    ensures
        0 <= cut <= s.len(),
        trim_start(s) == s.skip(cut),
        forall|i: int| 0 <= i < cut ==> is_whitespace(#[trigger] s[i]),
        cut < s.len() ==> !is_whitespace(s[cut]),
    decreases s.len(),
{
    if s.len() > 0 && is_whitespace(s[0]) {
        let rest = s.drop_first();
        let cut = lemma_trim_start_cuts_whitespace(rest);
        assert(rest.skip(cut) =~= s.skip(cut + 1));
        assert forall|i: int| 0 <= i < cut + 1 implies is_whitespace(#[trigger] s[i]) by {
            if i > 0 {
                assert(s[i] == rest[i - 1]);
            }
        }
        if cut < rest.len() {
            assert(rest[cut] == s[cut + 1]);
        }
        cut + 1
    } else {
        assert(s.skip(0) =~= s);
        0
    }
}

/// What trimming the end cuts off is whitespace, and what is left does not
/// end in whitespace: `trim_end(s)` is `s` up to the returned index.
pub proof fn lemma_trim_end_cuts_whitespace(s: Seq<char>) -> (cut: int)
    ensures
        0 <= cut <= s.len(),
        trim_end(s) == s.take(cut),
        forall|i: int| cut <= i < s.len() ==> is_whitespace(#[trigger] s[i]),
        0 < cut ==> !is_whitespace(s[cut - 1]),
    decreases s.len(),
{
    if s.len() > 0 && is_whitespace(s.last()) {
        let rest = s.drop_last();
        let cut = lemma_trim_end_cuts_whitespace(rest);
        assert(rest.take(cut) =~= s.take(cut));
        assert forall|i: int| cut <= i < s.len() implies is_whitespace(#[trigger] s[i]) by {
            if i < s.len() - 1 {
                assert(s[i] == rest[i]);
            }
        }
        if 0 < cut {
            assert(rest[cut - 1] == s[cut - 1]);
        }
        cut
    } else {
        assert(s.take(s.len() as int) =~= s);
        s.len() as int
    }
}

/// Trimming cuts whitespace, and only whitespace, from both ends:
/// `trimmed(s)` is `s` between the two returned indices, everything outside
/// them is whitespace, and what stands between them neither begins nor
/// ends with whitespace.
pub proof fn lemma_trimmed_is_the_core(s: Seq<char>) -> (cut: (int, int))
    ensures
        0 <= cut.0 <= cut.1 <= s.len(),
        trimmed(s) == s.subrange(cut.0, cut.1),
        forall|i: int| 0 <= i < cut.0 ==> is_whitespace(#[trigger] s[i]),
        forall|i: int| cut.1 <= i < s.len() ==> is_whitespace(#[trigger] s[i]),
        cut.0 < cut.1 ==> !is_whitespace(s[cut.0]) && !is_whitespace(s[cut.1 - 1]),
{
    let from = lemma_trim_start_cuts_whitespace(s);
    let rest = s.skip(from);
    let upto = lemma_trim_end_cuts_whitespace(rest);
    assert(rest.take(upto) =~= s.subrange(from, from + upto));
    assert forall|i: int| from + upto <= i < s.len() implies is_whitespace(#[trigger] s[i]) by {
        assert(s[i] == rest[i - from]);
    }
    if 0 < upto {
        assert(rest[upto - 1] == s[from + upto - 1]);
    }
    (from, from + upto)
}

/// Trimming what is trimmed changes nothing.
pub proof fn lemma_trimmed_is_idempotent(s: Seq<char>)
    ensures
        trimmed(trimmed(s)) == trimmed(s),
{
    let cut = lemma_trimmed_is_the_core(s);
    let t = trimmed(s);
    if t.len() > 0 {
        assert(t[0] == s[cut.0]);
        assert(t.last() == s[cut.1 - 1]);
    }
}

/// Whether `s` begins with `prefix`.
pub fn starts_with(s: &str, prefix: &str) -> (r: bool)
    ensures
        r == prefix@.is_prefix_of(s@),
{
    let n = s.unicode_len();
    let m = prefix.unicode_len();
    if m > n {
        return false;
    }
    let mut i: usize = 0;
    while i < m
        invariant
            i <= m <= n,
            n == s@.len(),
            m == prefix@.len(),
            forall|j: int| 0 <= j < i ==> s@[j] == prefix@[j],
        decreases m - i,
    {
        if s.get_char(i) != prefix.get_char(i) {
            assert(s@.subrange(0, m as int)[i as int] != prefix@[i as int]);
            return false;
        }
        i += 1;
    }
    assert(prefix@ =~= s@.subrange(0, m as int));
    true
}

/// What follows `prefix` in `s`, where `s` begins with it.
pub fn strip_prefix<'a>(s: &'a str, prefix: &str) -> (r: Option<&'a str>)
    ensures
        match r {
            Some(rest) => prefix@.is_prefix_of(s@) && rest@ == s@.skip(prefix@.len() as int),
            None => !prefix@.is_prefix_of(s@),
        },
{
    if starts_with(s, prefix) {
        Some(s.substring_char(prefix.unicode_len(), s.unicode_len()))
    } else {
        None
    }
}

/// Whether two strings hold the same characters.
pub fn same_text(a: &str, b: &str) -> (r: bool)
    ensures
        r == (a@ == b@),
{
    if a.unicode_len() != b.unicode_len() {
        return false;
    }
    let r = starts_with(a, b);
    assert(a@.subrange(0, a@.len() as int) =~= a@);
    r
}

/// The byte-order mark, U+FEFF, whose UTF-8 form is the bytes EF BB BF.
pub open spec fn bom() -> char {
    '\u{feff}'
}

/// `s` without a byte-order mark at its start.
pub open spec fn without_bom(s: Seq<char>) -> Seq<char> {
    if s.len() > 0 && s[0] == bom() {
        s.drop_first()
    } else {
        s
    }
}

/// Drops a byte-order mark from the start of `s`, if there is one.
pub fn strip_bom(s: &str) -> (r: &str)
    ensures
        r@ == without_bom(s@),
{
    let n = s.unicode_len();
    if n > 0 && s.get_char(0) == '\u{feff}' {
        s.substring_char(1, n)
    } else {
        s
    }
}

/// `s` with every backslash turned into a forward slash.
pub open spec fn forward_slashed(s: Seq<char>) -> Seq<char> {
    s.map_values(|c: char| if c == '\\' { '/' } else { c })
}

/// Turning backslashes into forward slashes keeps the length and every
/// other character, leaves no backslash, and brings in nothing but
/// forward slashes.
pub proof fn lemma_forward_slashed(s: Seq<char>)
    ensures
        forward_slashed(s).len() == s.len(),
        !forward_slashed(s).contains('\\'),
        forall|i: int|
            0 <= i < s.len() ==> #[trigger] forward_slashed(s)[i] == (if s[i] == '\\' {
                '/'
            } else {
                s[i]
            }),
        forall|c: char| #[trigger] forward_slashed(s).contains(c) ==> c == '/' || s.contains(c),
        forward_slashed(forward_slashed(s)) == forward_slashed(s),
{
    let t = forward_slashed(s);
    assert forall|c: char| #[trigger] t.contains(c) implies c == '/' || s.contains(c) by {
        let i = choose|i: int| 0 <= i < t.len() && t[i] == c;
        if c != '/' {
            assert(s[i] == c);
        }
    }
    assert(forward_slashed(t) =~= t);
}

/// Turns every backslash of `s` into a forward slash.
pub fn to_forward_slashes(s: &str) -> (r: String)
    ensures
        r@ == forward_slashed(s@),
{
    let n = s.unicode_len();
    let mut out = String::new();
    let mut start: usize = 0;
    let mut i: usize = 0;
    while i < n
        invariant
            start <= i <= n,
            n == s@.len(),
            out@ == forward_slashed(s@.subrange(0, start as int)),
            forall|j: int| start <= j < i ==> s@[j] != '\\',
        decreases n - i,
    {
        if s.get_char(i) == '\\' {
            out.append(s.substring_char(start, i));
            out.append("/");
            proof {
                reveal_strlit("/");
                assert(out@ =~= forward_slashed(s@.subrange(0, i + 1)));
            }
            start = i + 1;
        }
        i += 1;
    }
    out.append(s.substring_char(start, n));
    assert(out@ =~= forward_slashed(s@));
    out
}

/// The ten decimal digits, in order.
pub open spec fn digits() -> Seq<char> {
    "0123456789"@
}

/// The character of the decimal digit `d`.
pub open spec fn digit_char(d: nat) -> char
    recommends
        d < 10,
{
    digits()[d as int]
}

/// The decimal numeral of `n`, without leading zeros.
pub open spec fn decimal(n: nat) -> Seq<char>
    decreases n,
{
    if n < 10 {
        seq![digit_char(n)]
    } else {
        decimal(n / 10).push(digit_char(n % 10))
    }
}

fn digit_text(d: u8) -> (r: &'static str)
    requires
        d < 10,
    ensures
        r@ == seq![digit_char(d as nat)],
{
    proof {
        reveal_strlit("0123456789");
    }
    let from: usize = d as usize;
    let r = "0123456789".substring_char(from, from + 1);
    assert(r@ =~= seq![digit_char(d as nat)]);
    r
}

/// Appends the decimal numeral of `n` to `out`.
pub fn push_decimal(out: &mut String, n: u128)
    ensures
        final(out)@ == old(out)@ + decimal(n as nat),
    decreases n,
{
    if n >= 10 {
        push_decimal(out, n / 10);
    }
    out.append(digit_text((n % 10) as u8));
    assert(out@ =~= old(out)@ + decimal(n as nat));
}

} // verus!
