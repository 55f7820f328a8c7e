use vstd::prelude::*;

verus! {

/// What `str::to_lowercase` gives back for a string, as a function of its characters.
pub uninterp spec fn lowercase_of(s: Seq<char>) -> Seq<char>;

/// A character that is ASCII.
pub open spec fn is_ascii_char(c: char) -> bool {
    (c as u32) < 128
}

/// Every character is ASCII.
pub open spec fn all_ascii(s: Seq<char>) -> bool {
    forall|i: int| 0 <= i < s.len() ==> #[trigger] is_ascii_char(s[i])
}

/// An ASCII upper-case letter made lower-case; any other character kept.
pub open spec fn ascii_lower_char(c: char) -> char {
    if 'A' <= c && c <= 'Z' {
        ((c as u32) + 32) as char
    } else {
        c
    }
}

/// An ASCII lower-case letter made upper-case; any other character kept.
pub open spec fn ascii_upper_char(c: char) -> char {
    if 'a' <= c && c <= 'z' {
        ((c as u32) - 32) as char
    } else {
        c
    }
}

/// The text with its ASCII upper-case letters made lower-case.
pub open spec fn ascii_lower(s: Seq<char>) -> Seq<char> {
    s.map_values(|c: char| ascii_lower_char(c))
}

/// The text with its ASCII lower-case letters made upper-case.
pub open spec fn ascii_upper(s: Seq<char>) -> Seq<char> {
    s.map_values(|c: char| ascii_upper_char(c))
}

/// Upper-casing the ASCII letters of a text and then lower-casing them gives
/// what lower-casing alone gives.
pub proof fn lemma_ascii_lower_of_upper(s: Seq<char>)
    ensures
        ascii_lower(ascii_upper(s)) == ascii_lower(s),
{
    assert forall|i: int| 0 <= i < s.len() implies ascii_lower_char(ascii_upper_char(s[i]))
        == ascii_lower_char(s[i]) by {
        let c = s[i];
        if 'a' <= c && c <= 'z' {
            let u = ((c as u32) - 32) as char;
            assert(u as u32 == (c as u32) - 32);
            assert(((u as u32) + 32) as char == c);
        }
    }
    assert(ascii_lower(ascii_upper(s)) =~= ascii_lower(s));
}

/// Lower-cases a string by calling `str::to_lowercase`.
///
/// Trusted: the result is taken to depend on the characters of `s` alone and
/// is named `lowercase_of`. Of the Unicode case mapping only its ASCII part is
/// stated: on ASCII text, `A` to `Z` become `a` to `z` and every other
/// character stays as it is.
#[verifier::external_body]
pub(crate) fn to_lowercase(s: &str) -> (r: String)
    ensures
        r@ == lowercase_of(s@),
        all_ascii(s@) ==> r@ == ascii_lower(s@),
{
    s.to_lowercase()
}

/// An ASCII decimal digit.
pub open spec fn is_digit(c: char) -> bool {
    '0' <= c && c <= '9'
}

/// Every character is an ASCII decimal digit.
pub open spec fn all_digits(s: Seq<char>) -> bool {
    forall|i: int| 0 <= i < s.len() ==> #[trigger] is_digit(s[i])
}

/// The number written by a string of decimal digits.
pub open spec fn decimal_value(s: Seq<char>) -> int
    decreases s.len(),
{
    if s.len() == 0 {
        0
    } else {
        decimal_value(s.drop_last()) * 10 + ((s.last() as int) - ('0' as int))
    }
}

/// The digits of an unsigned number: what follows a leading `+`, if there is one.
pub open spec fn unsigned_digits(s: Seq<char>) -> Seq<char> {
    if s.len() > 0 && s[0] == '+' {
        s.drop_first()
    } else {
        s
    }
}

/// The `u64` that a string denotes: an optional `+`, then one or more ASCII
/// digits whose value fits in a `u64`; `None` for anything else.
pub open spec fn parsed_u64(s: Seq<char>) -> Option<u64> {
    let d = unsigned_digits(s);
    if d.len() > 0 && all_digits(d) && decimal_value(d) <= u64::MAX {
        Some(decimal_value(d) as u64)
    } else {
        None
    }
}

/// A number written with more digits is at least the number its first
/// digits write.
proof fn lemma_decimal_value_prefix(s: Seq<char>, m: int)
    requires
        0 <= m <= s.len(),
        all_digits(s),
    ensures
        decimal_value(s) >= decimal_value(s.subrange(0, m)) >= 0,
    decreases s.len(),
{
    if s.len() > 0 {
        let m2 = if m == s.len() { m - 1 } else { m };
        lemma_decimal_value_prefix(s.drop_last(), m2);
        assert(s.drop_last().subrange(0, m2) =~= s.subrange(0, m2));
        if m == s.len() {
            assert(s.subrange(0, m) =~= s);
            assert(s.subrange(0, m - 1) =~= s.drop_last());
        }
        assert(is_digit(s[s.len() - 1]));
        let p = decimal_value(s.drop_last());
        assert(p * 10 >= p) by (nonlinear_arith)
            requires
                p >= 0,
        ;
    } else {
        assert(s.subrange(0, m) =~= s);
    }
}

/// Reads a decimal `u64`, as `str::parse::<u64>` does: an optional `+`, then
/// one or more ASCII digits whose number fits in a `u64`; `None` for any
/// other text.
pub fn parse_u64(s: &str) -> (r: Option<u64>)
    ensures
        r == parsed_u64(s@),
{
    let n = s.unicode_len();
    let mut start: usize = 0;
    if n > 0 && s.get_char(0) == '+' {
        start = 1;
    }
    let ghost d = unsigned_digits(s@);
    assert(d =~= s@.subrange(start as int, n as int));
    if start == n {
        return None;
    }
    let mut v: u64 = 0;
    let mut k = start;
    while k < n
        invariant
            n == s@.len(),
            start <= k <= n,
            d == s@.subrange(start as int, n as int),
            d == unsigned_digits(s@),
            forall|j: int| 0 <= j < k - start ==> #[trigger] is_digit(d[j]),
            v == decimal_value(d.subrange(0, k - start)),
        decreases n - k,
    {
        let c = s.get_char(k);
        assert(d[k - start] == c);
        if (c as u32) < 48 || (c as u32) > 57 {
            assert(!is_digit(d[k - start]));
            return None;
        }
        let dg = ((c as u32) - 48) as u64;
        assert(d.subrange(0, k - start + 1).drop_last() =~= d.subrange(0, k - start));
        if v > (u64::MAX - dg) / 10 {
            proof {
                assert(v * 10 + dg > u64::MAX) by (nonlinear_arith)
                    requires
                        v > (u64::MAX - dg) / 10,
                        dg <= 9,
                ;
                if all_digits(d) {
                    lemma_decimal_value_prefix(d, k - start + 1);
                }
            }
            return None;
        }
        assert(v * 10 + dg <= u64::MAX) by (nonlinear_arith)
            requires
                v <= (u64::MAX - dg) / 10,
                dg <= 9,
        ;
        v = v * 10 + dg;
        k = k + 1;
    }
    assert(d.subrange(0, n - start) =~= d);
    Some(v)
}

/// Whether a string holds exactly the characters of `lit`.
pub fn has_text(s: &String, lit: &str) -> (b: bool)
    ensures
        b == (s@ == lit@),
{
    let t = String::from_str(lit);
    *s == t
}

/// The views of a sequence of strings.
pub open spec fn views(v: Seq<String>) -> Seq<Seq<char>> {
    v.map_values(|s: String| s@)
}

/// The words joined together with `sep` between each two of them.
pub open spec fn joined(words: Seq<Seq<char>>, sep: Seq<char>) -> Seq<char>
    decreases words.len(),
{
    if words.len() == 0 {
        Seq::empty()
    } else if words.len() == 1 {
        words[0]
    } else {
        joined(words.drop_last(), sep) + sep + words.last()
    }
}

/// Joins the words with `sep` between each two of them, as `[String]::join` does.
pub fn join(words: &Vec<String>, sep: &str) -> (r: String)
    ensures
        r@ == joined(views(words@), sep@),
{
    let mut r = String::new();
    let ghost ws = views(words@);
    let n = words.len();
    let mut i: usize = 0;
    while i < n
        invariant
            n == words.len(),
            ws == views(words@),
            i <= n,
            r@ == joined(ws.take(i as int), sep@),
        decreases n - i,
    {
        if i != 0 {
            r.append(sep);
        }
        r.append(words[i].as_str());
        assert(ws.take(i + 1).drop_last() =~= ws.take(i as int));
        i = i + 1;
    }
    assert(ws.take(n as int) =~= ws);
    r
}

} // verus!
