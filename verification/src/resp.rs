use vstd::prelude::*;
use vstd::utf8::{decode_utf8, encode_utf8, encode_utf8_decode_utf8, encode_utf8_valid_utf8, valid_utf8};

verus! {

/// A value of the Redis serialization protocol, as requests arrive and
/// replies leave.
#[derive(Debug, PartialEq)]
pub enum RESP {
    SimpleString(String),
    BulkString(String),
    Null,
    Array(Vec<RESP>),
}

/// What a `RESP` value holds, with its strings taken by their characters.
pub enum RespValue {
    SimpleString(Seq<char>),
    BulkString(Seq<char>),
    Null,
    Array(Seq<RespValue>),
}

/// The contents of a `RESP` value.
pub open spec fn resp_value(r: RESP) -> RespValue
    decreases r,
{
    match r {
        RESP::SimpleString(s) => RespValue::SimpleString(s@),
        RESP::BulkString(s) => RespValue::BulkString(s@),
        RESP::Null => RespValue::Null,
        RESP::Array(v) => RespValue::Array(resp_values(v@)),
    }
}

/// The contents of a sequence of `RESP` values.
pub open spec fn resp_values(s: Seq<RESP>) -> Seq<RespValue>
    decreases s,
{
    if s.len() == 0 {
        Seq::empty()
    } else {
        resp_values(s.subrange(0, s.len() - 1)).push(resp_value(s[s.len() - 1]))
    }
}

/// The line terminator, `\r\n`.
pub open spec fn crlf() -> Seq<u8> {
    seq![13u8, 10u8]
}

/// The ASCII decimal digits of `n`, with no leading zero.
pub open spec fn decimal(n: nat) -> Seq<u8>
    decreases n,
{
    if n < 10 {
        seq![(48 + n) as u8]
    } else {
        decimal(n / 10).push((48 + n % 10) as u8)
    }
}

/// The bytes of the null reply, `$-1\r\n`.
pub open spec fn null_bytes() -> Seq<u8> {
    seq![36u8, 45u8, 49u8, 13u8, 10u8]
}

/// The bytes that stand for a value: `+text\r\n`, `$length\r\nbytes\r\n`,
/// `$-1\r\n`, or `*count\r\n` and the items; text is written in UTF-8.
pub open spec fn encoded(v: RespValue) -> Seq<u8>
    decreases v,
{
    match v {
        RespValue::SimpleString(s) => seq![43u8] + encode_utf8(s) + crlf(),
        RespValue::BulkString(s) => seq![36u8] + decimal(encode_utf8(s).len()) + crlf()
            + encode_utf8(s) + crlf(),
        RespValue::Null => null_bytes(),
        RespValue::Array(items) => seq![42u8] + decimal(items.len()) + crlf() + encoded_all(items),
    }
}

/// The bytes of the items one after the other.
pub open spec fn encoded_all(items: Seq<RespValue>) -> Seq<u8>
    decreases items,
{
    if items.len() == 0 {
        Seq::empty()
    } else {
        encoded_all(items.subrange(0, items.len() - 1)) + encoded(items[items.len() - 1])
    }
}

/// Appends `bytes` to `out`.
fn push_all(out: &mut Vec<u8>, bytes: &[u8])
    ensures
        final(out)@ == old(out)@ + bytes@,
{
    let n = bytes.len();
    let mut i: usize = 0;
    while i < n
        invariant
            n == bytes@.len(),
            i <= n,
            out@ == old(out)@ + bytes@.subrange(0, i as int),
        decreases n - i,
    {
        out.push(bytes[i]);
        assert(bytes@.subrange(0, i + 1) =~= bytes@.subrange(0, i as int).push(bytes@[i as int]));
        i = i + 1;
    }
    assert(bytes@.subrange(0, n as int) =~= bytes@);
}

/// Appends the decimal digits of `n` to `out`.
fn push_decimal(out: &mut Vec<u8>, n: usize)
    ensures
        final(out)@ == old(out)@ + decimal(n as nat),
    decreases n,
{
    if n >= 10 {
        push_decimal(out, n / 10);
    }
    out.push(48u8 + (n % 10) as u8);
    assert(old(out)@ + decimal(n as nat) =~= out@) by {
        if n >= 10 {
            assert(decimal(n as nat) == decimal((n / 10) as nat).push((48 + n % 10) as u8));
        }
    }
}

/// Appends `\r\n` to `out`.
fn push_crlf(out: &mut Vec<u8>)
    ensures
        final(out)@ == old(out)@ + crlf(),
{
    out.push(13u8);
    out.push(10u8);
    assert(out@ =~= old(out)@ + crlf());
}

impl RESP {
    /// Appends the bytes that stand for this value to `out`.
    pub fn write_to(&self, out: &mut Vec<u8>)
        ensures
            final(out)@ == old(out)@ + encoded(resp_value(*self)),
        decreases self,
    {
        match self {
            RESP::SimpleString(s) => {
                out.push(43u8);
                push_all(out, s.as_str().as_bytes());
                push_crlf(out);
                assert(out@ =~= old(out)@ + encoded(resp_value(*self)));
            },
            RESP::BulkString(s) => {
                let bytes = s.as_str().as_bytes();
                out.push(36u8);
                push_decimal(out, bytes.len());
                push_crlf(out);
                push_all(out, bytes);
                push_crlf(out);
                assert(out@ =~= old(out)@ + encoded(resp_value(*self)));
            },
            RESP::Null => {
                out.push(36u8);
                out.push(45u8);
                out.push(49u8);
                push_crlf(out);
                assert(out@ =~= old(out)@ + encoded(resp_value(*self)));
            },
            RESP::Array(items) => {
                let ghost start = out@;
                out.push(42u8);
                push_decimal(out, items.len());
                push_crlf(out);
                let ghost header = out@;
                let n = items.len();
                let mut i: usize = 0;
                while i < n
                    invariant
                        n == items@.len(),
                        i <= n,
                        *self == RESP::Array(*items),
                        out@ == header + encoded_all(resp_values(items@.subrange(0, i as int))),
                    decreases n - i,
                {
                    proof {
                        assert(decreases_to!(*self => (*self)->Array_0));
                        assert(decreases_to!(*items => items@));
                        assert(decreases_to!(items@ => items@[i as int]));
                    }
                    items[i].write_to(out);
                    proof {
                        let s = items@.subrange(0, i + 1);
                        lemma_resp_values_len(s);
                        assert(s.subrange(0, i as int) =~= items@.subrange(0, i as int));
                        assert(resp_values(s) == resp_values(s.subrange(0, i as int)).push(
                            resp_value(s[i as int]),
                        ));
                        let vs = resp_values(s);
                        assert(vs.subrange(0, i as int) =~= resp_values(items@.subrange(0, i as int)));
                        assert(encoded_all(vs) == encoded_all(vs.subrange(0, vs.len() - 1))
                            + encoded(vs[vs.len() - 1]));
                        assert(out@ =~= header + encoded_all(vs));
                    }
                    i = i + 1;
                }
                assert(items@.subrange(0, n as int) =~= items@);
                proof {
                    lemma_resp_values_len(items@);
                }
                assert(out@ =~= old(out)@ + encoded(resp_value(*self)));
            },
        }
    }

    /// The bytes that stand for this value.
    pub fn to_bytes(&self) -> (b: Vec<u8>)
        ensures
            b@ == encoded(resp_value(*self)),
    {
        let mut out: Vec<u8> = Vec::new();
        self.write_to(&mut out);
        assert(out@ =~= encoded(resp_value(*self)));
        out
    }
}

/// There are as many contents as values.
pub proof fn lemma_resp_values_len(s: Seq<RESP>)
    ensures
        resp_values(s).len() == s.len(),
        forall|i: int| 0 <= i < s.len() ==> #[trigger] resp_values(s)[i] == resp_value(s[i]),
    decreases s.len(),
{
    if s.len() > 0 {
        lemma_resp_values_len(s.subrange(0, s.len() - 1));
    }
}


/// Why bytes could not be read as a value.
#[derive(Debug, PartialEq, Eq, Clone, Copy)]
pub enum RESPError {
    /// The bytes end before the value does.
    OutOfBounds,
    /// The first byte names no kind of value.
    WrongType,
    /// A length or a count is not a decimal number that fits in a `usize`.
    ParseInt,
    /// A text is not valid UTF-8.
    FromUtf8,
    /// A line, or the bytes of a bulk string, are not followed by `\r\n`.
    IncorrectLength,
}

/// The position of the first `\r` at or after `i`, or the length of `b` if
/// there is none.
pub open spec fn cr_from(b: Seq<u8>, i: int) -> int
    decreases b.len() - i,
{
    if i < 0 || i >= b.len() {
        b.len() as int
    } else if b[i] == 13u8 {
        i
    } else {
        cr_from(b, i + 1)
    }
}

/// The first `\r` at or after `i` is not before `i`.
pub proof fn lemma_cr_from_bounds(b: Seq<u8>, i: int)
    requires
        0 <= i <= b.len(),
    ensures
        i <= cr_from(b, i) <= b.len(),
        cr_from(b, i) < b.len() ==> b[cr_from(b, i)] == 13u8,
        forall|k: int| i <= k < cr_from(b, i) ==> b[k] != 13u8,
    decreases b.len() - i,
{
    if i < b.len() && b[i] != 13u8 {
        lemma_cr_from_bounds(b, i + 1);
    }
}

/// The line that starts at `i`: where its text ends and where what follows it
/// starts. A line ends at its first `\r`, which must be followed by `\n`.
pub open spec fn line_at(b: Seq<u8>, i: int) -> Result<(int, int), RESPError> {
    let k = cr_from(b, i);
    if k + 1 >= b.len() {
        Err(RESPError::OutOfBounds)
    } else if b[k + 1] != 10u8 {
        Err(RESPError::IncorrectLength)
    } else {
        Ok((k, k + 2))
    }
}

/// An ASCII decimal digit.
pub open spec fn is_digit_byte(c: u8) -> bool {
    48 <= c && c <= 57
}

/// The number that a string of decimal digits writes.
pub open spec fn digits_value(s: Seq<u8>) -> int
    decreases s.len(),
{
    if s.len() == 0 {
        0
    } else {
        digits_value(s.drop_last()) * 10 + (s.last() - 48)
    }
}

/// A length or a count: one or more decimal digits whose number fits in a `usize`.
pub open spec fn parsed_size(s: Seq<u8>) -> Option<usize> {
    if s.len() > 0 && (forall|k: int| 0 <= k < s.len() ==> #[trigger] is_digit_byte(s[k]))
        && digits_value(s) <= usize::MAX {
        Some(digits_value(s) as usize)
    } else {
        None
    }
}

/// Reads the value that starts at position `i` of `b`: what it is, and where
/// what follows it starts.
pub open spec fn parse_value(b: Seq<u8>, i: int) -> Result<(RespValue, int), RESPError>
    decreases b.len() - i, 0int,
{
    if i < 0 || i >= b.len() {
        Err(RESPError::OutOfBounds)
    } else if b[i] != 43u8 && b[i] != 36u8 && b[i] != 42u8 {
        Err(RESPError::WrongType)
    } else {
        match line_at(b, i + 1) {
            Err(e) => Err(e),
            Ok((end, next)) => {
                let text = b.subrange(i + 1, end);
                if b[i] == 43u8 {
                    if valid_utf8(text) {
                        Ok((RespValue::SimpleString(decode_utf8(text)), next))
                    } else {
                        Err(RESPError::FromUtf8)
                    }
                } else if b[i] == 36u8 {
                    if text == seq![45u8, 49u8] {
                        Ok((RespValue::Null, next))
                    } else {
                        match parsed_size(text) {
                            None => Err(RESPError::ParseInt),
                            Some(n) => if next + n + 2 > b.len() {
                                Err(RESPError::OutOfBounds)
                            } else if b[next + n] != 13u8 || b[next + n + 1] != 10u8 {
                                Err(RESPError::IncorrectLength)
                            } else {
                                let content = b.subrange(next, next + n);
                                if valid_utf8(content) {
                                    Ok((RespValue::BulkString(decode_utf8(content)), next + n + 2))
                                } else {
                                    Err(RESPError::FromUtf8)
                                }
                            },
                        }
                    }
                } else {
                    match parsed_size(text) {
                        None => Err(RESPError::ParseInt),
                        Some(n) => {
                            proof {
                                lemma_cr_from_bounds(b, i + 1);
                            }
                            match parse_items(b, next, n as nat, Seq::empty()) {
                                Ok((items, j)) => Ok((RespValue::Array(items), j)),
                                Err(e) => Err(e),
                            }
                        },
                    }
                }
            },
        }
    }
}

/// Reads `n` more values from position `i`, after the values `acc`.
pub open spec fn parse_items(b: Seq<u8>, i: int, n: nat, acc: Seq<RespValue>) -> Result<
    (Seq<RespValue>, int),
    RESPError,
>
    decreases b.len() - i, n + 1,
{
    if n == 0 {
        Ok((acc, i))
    } else {
        match parse_value(b, i) {
            Err(e) => Err(e),
            Ok((v, j)) => if j <= i || j > b.len() {
                Err(RESPError::OutOfBounds)
            } else {
                parse_items(b, j, (n - 1) as nat, acc.push(v))
            },
        }
    }
}

/// Turns UTF-8 bytes into a `String` by calling `String::from_utf8`.
///
/// Trusted: as its documentation says, it fails exactly when the bytes are not
/// valid UTF-8, and otherwise holds the characters that they encode.
#[verifier::external_body]
fn string_from_utf8(bytes: Vec<u8>) -> (r: Option<String>)
    ensures
        r is Some <==> valid_utf8(bytes@),
        r matches Some(s) ==> s@ == decode_utf8(bytes@),
{
    String::from_utf8(bytes).ok()
}

/// The bytes of `b` from `start` to `end`, as a new vector.
fn copy_range(b: &Vec<u8>, start: usize, end: usize) -> (r: Vec<u8>)
    requires
        start <= end <= b.len(),
    ensures
        r@ == b@.subrange(start as int, end as int),
{
    let mut r: Vec<u8> = Vec::new();
    let mut k = start;
    while k < end
        invariant
            start <= k <= end <= b.len(),
            r@ == b@.subrange(start as int, k as int),
        decreases end - k,
    {
        r.push(b[k]);
        assert(b@.subrange(start as int, k + 1) =~= b@.subrange(start as int, k as int).push(
            b@[k as int],
        ));
        k = k + 1;
    }
    r
}

/// The text of the bytes of `b` from `start` to `end`, when they are UTF-8.
fn text_of(b: &Vec<u8>, start: usize, end: usize) -> (r: Option<String>)
    requires
        start <= end <= b.len(),
    ensures
        r is Some <==> valid_utf8(b@.subrange(start as int, end as int)),
        r matches Some(s) ==> s@ == decode_utf8(b@.subrange(start as int, end as int)),
{
    string_from_utf8(copy_range(b, start, end))
}

/// The position of the first `\r` at or after `i`.
fn find_cr(b: &Vec<u8>, i: usize) -> (k: usize)
    requires
        i <= b.len(),
    ensures
        k == cr_from(b@, i as int),
{
    let mut k = i;
    while k < b.len() && b[k] != 13u8
        invariant
            i <= k <= b.len(),
            cr_from(b@, k as int) == cr_from(b@, i as int),
        decreases b.len() - k,
    {
        k = k + 1;
    }
    k
}

/// The line that starts at `i`: where its text ends and where what follows it starts.
fn read_line(b: &Vec<u8>, i: usize) -> (r: Result<(usize, usize), RESPError>)
    requires
        i <= b.len(),
    ensures
        match line_at(b@, i as int) {
            Ok((end, next)) => r matches Ok((e, n)) && e == end && n == next,
            Err(err) => r == Err::<(usize, usize), RESPError>(err),
        },
{
    let k = find_cr(b, i);
    if k >= b.len() || k + 1 >= b.len() {
        Err(RESPError::OutOfBounds)
    } else if b[k + 1] != 10u8 {
        Err(RESPError::IncorrectLength)
    } else {
        Ok((k, k + 2))
    }
}

/// A number written with more digits is at least the number its first
/// digits write.
proof fn lemma_digits_value_prefix(s: Seq<u8>, m: int)
    requires
        0 <= m <= s.len(),
        forall|k: int| 0 <= k < s.len() ==> #[trigger] is_digit_byte(s[k]),
    ensures
        digits_value(s) >= digits_value(s.subrange(0, m)) >= 0,
    decreases s.len(),
{
    if s.len() > 0 {
        lemma_digits_value_prefix(s.drop_last(), if m == s.len() { m - 1 } else { m });
        assert(s.drop_last().subrange(0, if m == s.len() { m - 1 } else { m }) =~= s.subrange(
            0,
            if m == s.len() { m - 1 } else { m },
        ));
        if m == s.len() {
            assert(s.subrange(0, m) =~= s);
            assert(s.subrange(0, m - 1) =~= s.drop_last());
        }
        assert(is_digit_byte(s.last()));
        let p = digits_value(s.drop_last());
        assert(p >= 0);
        assert(p * 10 >= p) by (nonlinear_arith)
            requires
                p >= 0,
        ;
    } else {
        assert(s.subrange(0, m) =~= s);
    }
}

/// Reads a length or a count from the bytes of `b` from `start` to `end`.
fn read_size(b: &Vec<u8>, start: usize, end: usize) -> (r: Option<usize>)
    requires
        start <= end <= b.len(),
    ensures
        r == parsed_size(b@.subrange(start as int, end as int)),
{
    let ghost s = b@.subrange(start as int, end as int);
    if start == end {
        return None;
    }
    let mut v: usize = 0;
    let mut k = start;
    while k < end
        invariant
            start <= k <= end <= b.len(),
            s == b@.subrange(start as int, end as int),
            forall|j: int| 0 <= j < k - start ==> #[trigger] is_digit_byte(s[j]),
            v == digits_value(s.subrange(0, k - start)),
        decreases end - k,
    {
        let c = b[k];
        if c < 48u8 || c > 57u8 {
            assert(!is_digit_byte(s[k - start]));
            return None;
        }
        let d = (c - 48u8) as usize;
        assert(s.subrange(0, k - start + 1).drop_last() =~= s.subrange(0, k - start));
        if v > (usize::MAX - d) / 10 {
            proof {
                assert(v * 10 + d > usize::MAX) by (nonlinear_arith)
                    requires
                        v > (usize::MAX - d) / 10,
                        d <= 9,
                ;
                if forall|j: int| 0 <= j < s.len() ==> #[trigger] is_digit_byte(s[j]) {
                    lemma_digits_value_prefix(s, k - start + 1);
                }
            }
            return None;
        }
        assert(v * 10 + d <= usize::MAX) by (nonlinear_arith)
            requires
                v <= (usize::MAX - d) / 10,
                d <= 9,
        ;
        v = v * 10 + d;
        k = k + 1;
    }
    assert(s.subrange(0, end - start) =~= s);
    Some(v)
}

/// Reads the value that starts at position `i` of `b`, and where what follows
/// it starts.
pub fn parse_at(b: &Vec<u8>, i: usize) -> (r: Result<(RESP, usize), RESPError>)
    requires
        i <= b.len(),
    ensures
        match parse_value(b@, i as int) {
            Ok((v, j)) => r matches Ok((x, k)) && resp_value(x) == v && k == j,
            Err(e) => r == Err::<(RESP, usize), RESPError>(e),
        },
        r matches Ok((_, k)) ==> i < k <= b.len(),
    decreases b.len() - i,
{
    if i >= b.len() {
        return Err(RESPError::OutOfBounds);
    }
    let t = b[i];
    if t != 43u8 && t != 36u8 && t != 42u8 {
        return Err(RESPError::WrongType);
    }
    let (end, next) = match read_line(b, i + 1) {
        Err(e) => {
            return Err(e);
        },
        Ok(p) => p,
    };
    proof {
        lemma_cr_from_bounds(b@, i + 1);
    }
    let ghost text = b@.subrange(i + 1, end as int);
    if t == 43u8 {
        match text_of(b, i + 1, end) {
            None => Err(RESPError::FromUtf8),
            Some(s) => Ok((RESP::SimpleString(s), next)),
        }
    } else if t == 36u8 {
        if end - (i + 1) == 2 && b[i + 1] == 45u8 && b[i + 2] == 49u8 {
            assert(text =~= seq![45u8, 49u8]);
            return Ok((RESP::Null, next));
        }
        assert(text != seq![45u8, 49u8]) by {
            if text == seq![45u8, 49u8] {
                assert(text[0] == b@[i + 1] && text[1] == b@[i + 2]);
            }
        }
        match read_size(b, i + 1, end) {
            None => Err(RESPError::ParseInt),
            Some(n) => {
                if n > b.len() - next || b.len() - next - n < 2 {
                    return Err(RESPError::OutOfBounds);
                }
                if b[next + n] != 13u8 || b[next + n + 1] != 10u8 {
                    return Err(RESPError::IncorrectLength);
                }
                match text_of(b, next, next + n) {
                    None => Err(RESPError::FromUtf8),
                    Some(s) => Ok((RESP::BulkString(s), next + n + 2)),
                }
            },
        }
    } else {
        match read_size(b, i + 1, end) {
            None => Err(RESPError::ParseInt),
            Some(n) => {
                let mut items: Vec<RESP> = Vec::new();
                let mut pos = next;
                let mut k: usize = 0;
                assert(resp_values(items@) =~= Seq::<RespValue>::empty());
                while k < n
                    invariant
                        i < next <= pos <= b.len(),
                        k <= n,
                        parse_value(b@, i as int) == (match parse_items(
                            b@,
                            next as int,
                            n as nat,
                            Seq::empty(),
                        ) {
                            Ok((items, j)) => Ok((RespValue::Array(items), j)),
                            Err(e) => Err(e),
                        }),
                        parse_items(b@, pos as int, (n - k) as nat, resp_values(items@))
                            == parse_items(b@, next as int, n as nat, Seq::empty()),
                    decreases n - k,
                {
                    match parse_at(b, pos) {
                        Err(e) => {
                            return Err(e);
                        },
                        Ok((x, j)) => {
                            proof {
                                assert((items@.push(x)).subrange(0, items@.len() as int)
                                    =~= items@);
                            }
                            items.push(x);
                            pos = j;
                            k = k + 1;
                        },
                    }
                }
                Ok((RESP::Array(items), pos))
            },
        }
    }
}

/// Reads one value from `buffer`, starting at `*index`. On success `*index`
/// moves past the bytes that were read; on failure it stays where it was.
pub fn bytes_to_resp(buffer: &Vec<u8>, index: &mut usize) -> (r: Result<RESP, RESPError>)
    ensures
        match parse_value(buffer@, *old(index) as int) {
            Ok((v, j)) => r matches Ok(x) && resp_value(x) == v && *final(index) == j,
            Err(e) => r == Err::<RESP, RESPError>(e) && *final(index) == *old(index),
        },
{
    if *index > buffer.len() {
        return Err(RESPError::OutOfBounds);
    }
    match parse_at(buffer, *index) {
        Ok((x, j)) => {
            *index = j;
            Ok(x)
        },
        Err(e) => Err(e),
    }
}


/// A value that reads back from its bytes: the text of no simple string holds
/// a `\r`, and no length or count exceeds a `usize`.
pub open spec fn well_formed(v: RespValue) -> bool
    decreases v,
{
    match v {
        RespValue::SimpleString(s) => !encode_utf8(s).contains(13u8),
        RespValue::BulkString(s) => encode_utf8(s).len() <= usize::MAX,
        RespValue::Null => true,
        RespValue::Array(items) => items.len() <= usize::MAX && all_well_formed(items),
    }
}

/// Every item reads back from its bytes.
pub open spec fn all_well_formed(items: Seq<RespValue>) -> bool
    decreases items,
{
    if items.len() == 0 {
        true
    } else {
        all_well_formed(items.subrange(0, items.len() - 1)) && well_formed(items[items.len() - 1])
    }
}

/// The digits of a number write it back.
proof fn lemma_decimal(n: nat)
    ensures
        decimal(n).len() >= 1,
        forall|k: int| 0 <= k < decimal(n).len() ==> #[trigger] is_digit_byte(decimal(n)[k]),
        digits_value(decimal(n)) == n,
    decreases n,
{
    let d = decimal(n);
    if n >= 10 {
        lemma_decimal(n / 10);
        let p = decimal(n / 10);
        assert(d.drop_last() =~= p);
        assert(d.last() as int == 48 + n % 10);
        assert forall|k: int| 0 <= k < d.len() implies #[trigger] is_digit_byte(d[k]) by {
            if k < d.len() - 1 {
                assert(d[k] == p[k]);
            }
        }
        assert((n / 10) * 10 + n % 10 == n) by (nonlinear_arith);
        assert(digits_value(d) == digits_value(p) * 10 + (d.last() - 48));
        assert(digits_value(p) == n / 10);
    } else {
        assert(d.drop_last() =~= Seq::<u8>::empty());
        assert(d[0] as int == 48 + n);
        assert(digits_value(d) == digits_value(d.drop_last()) * 10 + (d.last() - 48));
        assert(digits_value(Seq::<u8>::empty()) == 0);
    }
}

/// Scanning for `\r` from `j` stops at the first one.
proof fn lemma_cr_from_scan(b: Seq<u8>, j: int, e: int)
    requires
        0 <= j <= e < b.len(),
        forall|k: int| j <= k < e ==> b[k] != 13u8,
        b[e] == 13u8,
    ensures
        cr_from(b, j) == e,
    decreases e - j,
{
    if j < e {
        lemma_cr_from_scan(b, j + 1, e);
    }
}

/// A line of `len` bytes with no `\r`, then `\r\n`.
proof fn lemma_line_at(b: Seq<u8>, i: int, len: int)
    requires
        0 <= i,
        0 <= len,
        i + len + 2 <= b.len(),
        forall|k: int| i <= k < i + len ==> b[k] != 13u8,
        b[i + len] == 13u8,
        b[i + len + 1] == 10u8,
    ensures
        line_at(b, i) == Ok::<(int, int), RESPError>((i + len, i + len + 2)),
{
    lemma_cr_from_scan(b, i, i + len);
}

/// The bytes of items, split after the first one.
proof fn lemma_encoded_all_front(items: Seq<RespValue>)
    requires
        items.len() > 0,
    ensures
        encoded_all(items) == encoded(items[0]) + encoded_all(items.subrange(1, items.len() as int)),
        all_well_formed(items) ==> well_formed(items[0]) && all_well_formed(
            items.subrange(1, items.len() as int),
        ),
    decreases items.len(),
{
    let n = items.len() as int;
    let tail = items.subrange(1, n);
    if n == 1 {
        assert(items.subrange(0, 0) =~= Seq::<RespValue>::empty());
        assert(tail =~= Seq::<RespValue>::empty());
        assert(encoded_all(items) =~= encoded(items[0]) + encoded_all(tail));
    } else {
        let init = items.subrange(0, n - 1);
        lemma_encoded_all_front(init);
        assert(tail.subrange(0, tail.len() - 1) =~= init.subrange(1, init.len() as int));
        assert(init[0] == items[0]);
        assert(tail[tail.len() - 1] == items[n - 1]);
        assert(encoded_all(items) =~= encoded(items[0]) + encoded_all(tail));
    }
}

/// The bytes of `e` stand at position `i` of `b`.
pub open spec fn bytes_at(b: Seq<u8>, i: int, e: Seq<u8>) -> bool {
    &&& 0 <= i
    &&& i + e.len() <= b.len()
    &&& b.subrange(i, i + e.len()) == e
}

/// Byte by byte, what `bytes_at` says.
proof fn lemma_bytes_at(b: Seq<u8>, i: int, e: Seq<u8>)
    requires
        bytes_at(b, i, e),
    ensures
        forall|k: int| 0 <= k < e.len() ==> b[i + k] == #[trigger] e[k],
{
    assert forall|k: int| 0 <= k < e.len() implies b[i + k] == #[trigger] e[k] by {
        assert(b.subrange(i, i + e.len())[k] == b[i + k]);
    }
}

/// The bytes of a simple string read back.
proof fn lemma_parse_simple(s: Seq<char>, b: Seq<u8>, i: int)
    requires
        !encode_utf8(s).contains(13u8),
        bytes_at(b, i, encoded(RespValue::SimpleString(s))),
    ensures
        parse_value(b, i) == Ok::<(RespValue, int), RESPError>(
            (RespValue::SimpleString(s), i + encoded(RespValue::SimpleString(s)).len()),
        ),
{
    let e = encoded(RespValue::SimpleString(s));
    let t = encode_utf8(s);
    lemma_bytes_at(b, i, e);
    assert(e[0] == 43u8);
    assert(b[i] == 43u8);
    assert forall|k: int| i + 1 <= k < i + 1 + t.len() implies b[k] != 13u8 by {
        assert(e[k - i] == t[k - i - 1]);
        assert(b[i + (k - i)] == e[k - i]);
        if b[k] == 13u8 {
            assert(t.contains(13u8));
        }
    }
    assert(b[i + (1 + t.len())] == e[1 + t.len() as int]);
    assert(b[i + (2 + t.len())] == e[2 + t.len() as int]);
    lemma_line_at(b, i + 1, t.len() as int);
    assert(b.subrange(i + 1, i + 1 + t.len()) =~= t) by {
        assert forall|k: int| 0 <= k < t.len() implies b.subrange(i + 1, i + 1 + t.len())[k]
            == t[k] by {
            assert(e[1 + k] == t[k]);
            assert(b[i + (1 + k)] == e[1 + k]);
        }
    }
    encode_utf8_valid_utf8(s);
    encode_utf8_decode_utf8(s);
}

/// The bytes of a bulk string read back.
proof fn lemma_parse_bulk(s: Seq<char>, b: Seq<u8>, i: int)
    requires
        encode_utf8(s).len() <= usize::MAX,
        bytes_at(b, i, encoded(RespValue::BulkString(s))),
    ensures
        parse_value(b, i) == Ok::<(RespValue, int), RESPError>(
            (RespValue::BulkString(s), i + encoded(RespValue::BulkString(s)).len()),
        ),
{
    let e = encoded(RespValue::BulkString(s));
    let t = encode_utf8(s);
    let d = decimal(t.len());
    lemma_decimal(t.len());
    lemma_bytes_at(b, i, e);
    assert(e[0] == 36u8);
    assert(b[i] == 36u8);
    assert forall|k: int| i + 1 <= k < i + 1 + d.len() implies b[k] != 13u8 by {
        assert(e[k - i] == d[k - i - 1]);
        assert(b[i + (k - i)] == e[k - i]);
        assert(is_digit_byte(d[k - i - 1]));
    }
    assert(b[i + (1 + d.len())] == e[1 + d.len() as int]);
    assert(b[i + (2 + d.len())] == e[2 + d.len() as int]);
    lemma_line_at(b, i + 1, d.len() as int);
    let text = b.subrange(i + 1, i + 1 + d.len());
    assert(text =~= d) by {
        assert forall|k: int| 0 <= k < d.len() implies text[k] == d[k] by {
            assert(e[1 + k] == d[k]);
            assert(b[i + (1 + k)] == e[1 + k]);
        }
    }
    assert(text != seq![45u8, 49u8]) by {
        assert(is_digit_byte(d[0]));
    }
    let next = i + 3 + d.len();
    assert(b[i + (3 + d.len() + t.len())] == e[3 + d.len() + t.len() as int]);
    assert(b[i + (4 + d.len() + t.len())] == e[4 + d.len() + t.len() as int]);
    assert(b.subrange(next, next + t.len()) =~= t) by {
        assert forall|k: int| 0 <= k < t.len() implies b.subrange(next, next + t.len())[k]
            == t[k] by {
            assert(e[3 + d.len() + k] == t[k]);
            assert(b[i + (3 + d.len() + k)] == e[3 + d.len() + k]);
        }
    }
    encode_utf8_valid_utf8(s);
    encode_utf8_decode_utf8(s);
}

/// The bytes of the null reply read back.
proof fn lemma_parse_null(b: Seq<u8>, i: int)
    requires
        bytes_at(b, i, encoded(RespValue::Null)),
    ensures
        parse_value(b, i) == Ok::<(RespValue, int), RESPError>((RespValue::Null, i + 5)),
{
    let e = encoded(RespValue::Null);
    lemma_bytes_at(b, i, e);
    assert(b[i + 0] == e[0] && b[i + 1] == e[1] && b[i + 2] == e[2] && b[i + 3] == e[3] && b[i
        + 4] == e[4]);
    lemma_line_at(b, i + 1, 2);
    assert(b.subrange(i + 1, i + 3) =~= seq![45u8, 49u8]);
}

/// The bytes of an array read back.
proof fn lemma_parse_array(items: Seq<RespValue>, b: Seq<u8>, i: int)
    requires
        items.len() <= usize::MAX,
        all_well_formed(items),
        bytes_at(b, i, encoded(RespValue::Array(items))),
    ensures
        parse_value(b, i) == Ok::<(RespValue, int), RESPError>(
            (RespValue::Array(items), i + encoded(RespValue::Array(items)).len()),
        ),
    decreases items, 3int,
{
    let e = encoded(RespValue::Array(items));
    let d = decimal(items.len());
    lemma_decimal(items.len());
    lemma_bytes_at(b, i, e);
    assert(e[0] == 42u8);
    assert(b[i] == 42u8);
    assert forall|k: int| i + 1 <= k < i + 1 + d.len() implies b[k] != 13u8 by {
        assert(e[k - i] == d[k - i - 1]);
        assert(b[i + (k - i)] == e[k - i]);
        assert(is_digit_byte(d[k - i - 1]));
    }
    assert(b[i + (1 + d.len())] == e[1 + d.len() as int]);
    assert(b[i + (2 + d.len())] == e[2 + d.len() as int]);
    lemma_line_at(b, i + 1, d.len() as int);
    assert(b.subrange(i + 1, i + 1 + d.len()) =~= d) by {
        assert forall|k: int| 0 <= k < d.len() implies b.subrange(i + 1, i + 1 + d.len())[k]
            == d[k] by {
            assert(e[1 + k] == d[k]);
            assert(b[i + (1 + k)] == e[1 + k]);
        }
    }
    let next = i + 3 + d.len();
    let body = encoded_all(items);
    assert(b.subrange(next, next + body.len()) =~= body) by {
        assert forall|k: int| 0 <= k < body.len() implies b.subrange(next, next + body.len())[k]
            == body[k] by {
            assert(e[3 + d.len() + k] == body[k]);
            assert(b[i + (3 + d.len() + k)] == e[3 + d.len() + k]);
        }
    }
    lemma_parse_encoded_items(items, b, next, Seq::empty());
    assert(Seq::<RespValue>::empty() + items =~= items);
}

/// Reading the bytes of a well-formed value gives back the value, and stops
/// right after its bytes.
pub proof fn lemma_parse_encoded(v: RespValue, b: Seq<u8>, i: int)
    requires
        well_formed(v),
        bytes_at(b, i, encoded(v)),
    ensures
        parse_value(b, i) == Ok::<(RespValue, int), RESPError>((v, i + encoded(v).len())),
    decreases v, 1int,
{
    match v {
        RespValue::SimpleString(s) => lemma_parse_simple(s, b, i),
        RespValue::BulkString(s) => lemma_parse_bulk(s, b, i),
        RespValue::Null => lemma_parse_null(b, i),
        RespValue::Array(items) => lemma_parse_array(items, b, i),
    }
}

/// Reading the bytes of well-formed items one after the other gives them back.
pub proof fn lemma_parse_encoded_items(
    items: Seq<RespValue>,
    b: Seq<u8>,
    i: int,
    acc: Seq<RespValue>,
)
    requires
        all_well_formed(items),
        bytes_at(b, i, encoded_all(items)),
    ensures
        parse_items(b, i, items.len(), acc) == Ok::<(Seq<RespValue>, int), RESPError>(
            (acc + items, i + encoded_all(items).len()),
        ),
    decreases items, 2int,
{
    if items.len() == 0 {
        assert(acc + items =~= acc);
    } else {
        lemma_encoded_all_front(items);
        let first = items[0];
        let tail = items.subrange(1, items.len() as int);
        let l0 = encoded(first).len();
        let all = encoded_all(items);
        assert(b.subrange(i, i + l0) =~= encoded(first)) by {
            assert forall|k: int| 0 <= k < l0 implies b.subrange(i, i + l0)[k] == encoded(
                first,
            )[k] by {
                assert(b.subrange(i, i + all.len())[k] == all[k]);
            }
        }
        assert(l0 > 0) by {
            match first {
                RespValue::SimpleString(_) => {},
                RespValue::BulkString(_) => {},
                RespValue::Null => {},
                RespValue::Array(_) => {},
            }
        }
        lemma_parse_encoded(first, b, i);
        let rest = encoded_all(tail);
        assert(b.subrange(i + l0, i + l0 + rest.len()) =~= rest) by {
            assert forall|k: int| 0 <= k < rest.len() implies b.subrange(
                i + l0,
                i + l0 + rest.len(),
            )[k] == rest[k] by {
                assert(b.subrange(i, i + all.len())[l0 + k] == all[l0 + k]);
            }
        }
        lemma_parse_encoded_items(tail, b, i + l0, acc.push(first));
        assert(acc.push(first) + tail =~= acc + items);
    }
}

/// What is written is read back: the bytes of a well-formed value, whatever
/// follows them, read as that value and end where its bytes end.
pub proof fn law_read_back_what_is_written(v: RespValue, rest: Seq<u8>)
    requires
        well_formed(v),
    ensures
        parse_value(encoded(v) + rest, 0) == Ok::<(RespValue, int), RESPError>(
            (v, encoded(v).len() as int),
        ),
{
    let b = encoded(v) + rest;
    assert(b.subrange(0, encoded(v).len() as int) =~= encoded(v));
    assert(bytes_at(b, 0, encoded(v)));
    lemma_parse_encoded(v, b, 0);
}

} // verus!
