//! The base framing of the protocol: `Content-Length: <n>\r\n\r\n` followed by `n` bytes of
//! JSON.
use vstd::prelude::*;

verus! {

/// `serde_json::Value`, carried through opaquely.
#[verifier::external_type_specification]
#[verifier::external_body]
pub struct ExJsonValue(serde_json::Value);

/// `serde_json::Error`, carried through opaquely.
#[verifier::external_type_specification]
#[verifier::external_body]
pub struct ExJsonError(serde_json::Error);

/// Whether `serde_json::from_slice` accepts the bytes as one JSON value.
pub uninterp spec fn json_parses(b: Seq<u8>) -> bool;

/// Relies on `serde_json::from_slice`: parses the bytes as one JSON value, or fails; which of
/// the two depends on the bytes alone.
#[verifier::external_body]
fn parse_json(body: &[u8]) -> (r: Result<serde_json::Value, serde_json::Error>)
    ensures
        r is Ok <==> json_parses(body@),
{
    serde_json::from_slice(body)
}

pub open spec fn is_ascii_space(b: u8) -> bool {
    b == 32 || (9 <= b && b <= 13)
}

pub open spec fn is_ascii_digit(b: u8) -> bool {
    48 <= b && b <= 57
}

/// The number written by a run of ASCII digits.
pub open spec fn digits_value(s: Seq<u8>) -> int
    decreases s.len(),
{
    if s.len() == 0 {
        0
    } else {
        digits_value(s.drop_last()) * 10 + (s.last() - 48)
    }
}

/// Every byte is an ASCII digit.
pub open spec fn all_digits(d: Seq<u8>) -> bool {
    forall|k: int| 0 <= k < d.len() ==> is_ascii_digit(#[trigger] d[k])
}

/// The first index at or after `j` that holds no white space, or the length.
pub open spec fn skip_space(s: Seq<u8>, j: int) -> int
    decreases s.len() - j,
{
    if j < 0 || j >= s.len() || !is_ascii_space(s[j]) {
        j
    } else {
        skip_space(s, j + 1)
    }
}

/// The end of `s[..j]` without its trailing white space.
pub open spec fn trim_end(s: Seq<u8>, j: int) -> int
    decreases j,
{
    if j <= 0 || j > s.len() || !is_ascii_space(s[j - 1]) {
        j
    } else {
        trim_end(s, j - 1)
    }
}

/// The value of a `Content-Length` header: white space, an optional `+`, one or more digits
/// whose value fits a machine integer, white space. `None` when it is not that.
pub open spec fn header_value(v: Seq<u8>) -> Option<int> {
    let a = skip_space(v, 0);
    let b = trim_end(v, v.len() as int);
    let a2 = if a < b && v[a] == 43 {
        a + 1
    } else {
        a
    };
    let d = v.subrange(a2, b);
    if a2 < b && all_digits(d) && digits_value(d) <= usize::MAX {
        Some(digits_value(d))
    } else {
        None
    }
}

/// The header name, `Content-Length:`.
pub open spec fn length_name() -> Seq<u8> {
    seq![67u8, 111, 110, 116, 101, 110, 116, 45, 76, 101, 110, 103, 116, 104, 58]
}

/// The first index at or after `j` that holds a line feed, or the length.
pub open spec fn newline_from(s: Seq<u8>, j: int) -> int
    decreases s.len() - j,
{
    if j < 0 || j >= s.len() || s[j] == 10 {
        j
    } else {
        newline_from(s, j + 1)
    }
}

/// Reads header lines from `p`, `len` being the length found so far. `None` when the buffer
/// ends before the blank line that ends the header; else the body's start and the length.
pub open spec fn header_from(buf: Seq<u8>, p: int, len: Option<int>) -> Option<(int, Option<int>)>
    decreases buf.len() - p,
    via header_from_decreases
{
    if p < 0 || p >= buf.len() {
        None
    } else {
        let nl = newline_from(buf, p);
        if nl >= buf.len() {
            None
        } else if nl == p + 1 && buf[p] == 13 {
            Some((nl + 1, len))
        } else {
            let line = buf.subrange(p, nl + 1);
            let len2 = if line.len() >= 15 && line.subrange(0, 15) == length_name() {
                header_value(line.subrange(15, line.len() as int))
            } else {
                len
            };
            header_from(buf, nl + 1, len2)
        }
    }
}

proof fn lemma_newline_from(s: Seq<u8>, j: int)
    requires
        0 <= j <= s.len(),
    ensures
        j <= newline_from(s, j) <= s.len(),
        newline_from(s, j) < s.len() ==> s[newline_from(s, j)] == 10,
        forall|k: int| j <= k < newline_from(s, j) ==> s[k] != 10,
    decreases s.len() - j,
{
    if j < s.len() && s[j] != 10 {
        lemma_newline_from(s, j + 1);
    }
}

proof fn lemma_header_value_nonneg(v: Seq<u8>)
    ensures
        header_value(v) is Some ==> header_value(v)->0 >= 0,
{
    let a = skip_space(v, 0);
    let b = trim_end(v, v.len() as int);
    let a2 = if a < b && v[a] == 43 { a + 1 } else { a };
    if header_value(v) is Some {
        lemma_digits_nonneg(v.subrange(a2, b));
    }
}

proof fn lemma_header_from_bound(buf: Seq<u8>, p: int, len: Option<int>)
    requires
        len is Some ==> len->0 >= 0,
    ensures
        match header_from(buf, p, len) {
            Some((start, l)) => 0 <= start <= buf.len() && (l is Some ==> l->0 >= 0),
            None => true,
        },
    decreases buf.len() - p,
{
    if 0 <= p < buf.len() {
        lemma_newline_from(buf, p);
        let nl = newline_from(buf, p);
        if nl < buf.len() && !(nl == p + 1 && buf[p] == 13) {
            let line = buf.subrange(p, nl + 1);
            let len2 = if line.len() >= 15 && line.subrange(0, 15) == length_name() {
                header_value(line.subrange(15, line.len() as int))
            } else {
                len
            };
            lemma_header_value_nonneg(line.subrange(15, line.len() as int));
            lemma_header_from_bound(buf, nl + 1, len2);
        }
    }
}

#[via_fn]
proof fn header_from_decreases(buf: Seq<u8>, p: int, len: Option<int>) {
    if 0 <= p < buf.len() {
        lemma_newline_from(buf, p);
    }
}

/// What the start of a byte buffer holds.
#[derive(Clone, Copy, Debug, PartialEq, Eq, Structural)]
pub enum FrameScan {
    /// The buffer ends before a whole message.
    Incomplete,
    /// The header, `consumed` bytes long, has no valid `Content-Length`.
    MissingLength { consumed: usize },
    /// A whole message, whose body is `buf[body_start..body_end]`.
    Complete { body_start: usize, body_end: usize },
}

/// The meaning of the start of a buffer.
pub open spec fn frame_of(buf: Seq<u8>) -> FrameScan {
    match header_from(buf, 0, None) {
        None => FrameScan::Incomplete,
        Some((start, None)) => FrameScan::MissingLength { consumed: start as usize },
        Some((start, Some(n))) => if start + n <= buf.len() {
            FrameScan::Complete { body_start: start as usize, body_end: (start + n) as usize }
        } else {
            FrameScan::Incomplete
        },
    }
}

fn parse_header_value(buf: &[u8], from: usize, to: usize) -> (r: Option<usize>)
    requires
        from <= to <= buf@.len(),
    ensures
        match r {
            Some(n) => header_value(buf@.subrange(from as int, to as int)) == Some(n as int),
            None => header_value(buf@.subrange(from as int, to as int)) is None,
        },
{
    let ghost v = buf@.subrange(from as int, to as int);
    let mut a: usize = from;
    while a < to && (buf[a] == 32 || (9 <= buf[a] && buf[a] <= 13))
        invariant
            from <= a <= to <= buf@.len(),
            v == buf@.subrange(from as int, to as int),
            skip_space(v, 0) == skip_space(v, a - from),
        decreases to - a,
    {
        a = a + 1;
    }
    let mut b: usize = to;
    while b > a && (buf[b - 1] == 32 || (9 <= buf[b - 1] && buf[b - 1] <= 13))
        invariant
            from <= a <= b <= to <= buf@.len(),
            v == buf@.subrange(from as int, to as int),
            skip_space(v, 0) == a - from,
            trim_end(v, v.len() as int) == trim_end(v, b - from),
            forall|k: int| b - from <= k < v.len() ==> is_ascii_space(#[trigger] v[k]),
        decreases b,
    {
        b = b - 1;
    }
    proof {
        lemma_trim_end_le(v, b - from);
        if a < b {
            assert(!is_ascii_space(v[b - from - 1]));
            assert(trim_end(v, v.len() as int) == b - from);
            assert(v[a - from] == buf@[a as int]);
        }
    }
    let mut a2 = a;
    if a < b && buf[a] == 43 {
        a2 = a + 1;
    }
    if a2 >= b {
        return None;
    }
    assert(v.subrange(a2 - from, b - from) =~= buf@.subrange(a2 as int, b as int));
    let mut value: usize = 0;
    let mut k: usize = a2;
    while k < b
        invariant
            from <= a2 <= k <= b <= to <= buf@.len(),
            a2 < b,
            v == buf@.subrange(from as int, to as int),
            header_value(v) == (if all_digits(buf@.subrange(a2 as int, b as int)) && digits_value(
                buf@.subrange(a2 as int, b as int),
            ) <= usize::MAX {
                Some(digits_value(buf@.subrange(a2 as int, b as int)))
            } else {
                None
            }),
            forall|x: int| a2 <= x < k ==> is_ascii_digit(#[trigger] buf@[x]),
            value == digits_value(buf@.subrange(a2 as int, k as int)),
        decreases b - k,
    {
        let c = buf[k];
        if !(48 <= c && c <= 57) {
            proof {
                assert(buf@.subrange(a2 as int, b as int)[k - a2] == c);
            }
            return None;
        }
        assert(buf@.subrange(a2 as int, k + 1).drop_last() =~= buf@.subrange(a2 as int, k as int));
        if value > (usize::MAX - (c - 48) as usize) / 10 {
            proof {
                let s1 = buf@.subrange(a2 as int, k + 1);
                let t1 = buf@.subrange(a2 as int, b as int);
                assert(s1 =~= t1.subrange(0, s1.len() as int));
                let d = (c - 48) as int;
                assert(value * 10 + d > usize::MAX) by (nonlinear_arith)
                    requires
                        value > (usize::MAX - d) / 10,
                        0 <= d <= 9,
                ;
                lemma_digits_overflow(s1, t1);
            }
            return None;
        }
        value = value * 10 + (c - 48) as usize;
        k = k + 1;
    }
    Some(value)
}

proof fn lemma_trim_end_le(v: Seq<u8>, j: int)
    requires
        0 <= j <= v.len(),
    ensures
        trim_end(v, j) <= j,
    decreases j,
{
    if j > 0 && is_ascii_space(v[j - 1]) {
        lemma_trim_end_le(v, j - 1);
    }
}

proof fn lemma_digits_monotone(s: Seq<u8>, t: Seq<u8>)
    requires
        s.len() <= t.len(),
        s == t.subrange(0, s.len() as int),
        forall|k: int| 0 <= k < t.len() ==> is_ascii_digit(#[trigger] t[k]),
    ensures
        0 <= digits_value(s) <= digits_value(t),
    decreases t.len(),
{
    if s.len() == t.len() {
        assert(s =~= t);
        lemma_digits_nonneg(t);
    } else {
        assert(t.drop_last().subrange(0, s.len() as int) =~= s);
        lemma_digits_monotone(s, t.drop_last());
        lemma_digits_nonneg(t.drop_last());
        assert(digits_value(t) >= digits_value(t.drop_last())) by (nonlinear_arith)
            requires
                digits_value(t) == digits_value(t.drop_last()) * 10 + (t.last() - 48),
                digits_value(t.drop_last()) >= 0,
                t.last() >= 48,
        ;
    }
}

proof fn lemma_digits_nonneg(t: Seq<u8>)
    requires
        forall|k: int| 0 <= k < t.len() ==> is_ascii_digit(#[trigger] t[k]),
    ensures
        digits_value(t) >= 0,
    decreases t.len(),
{
    if t.len() > 0 {
        lemma_digits_nonneg(t.drop_last());
        assert(digits_value(t) >= 0) by (nonlinear_arith)
            requires
                digits_value(t) == digits_value(t.drop_last()) * 10 + (t.last() - 48),
                digits_value(t.drop_last()) >= 0,
                t.last() >= 48,
        ;
    }
}

proof fn lemma_digits_overflow(s: Seq<u8>, t: Seq<u8>)
    requires
        s.len() <= t.len(),
        s == t.subrange(0, s.len() as int),
        digits_value(s) > usize::MAX,
    ensures
        (forall|k: int| 0 <= k < t.len() ==> is_ascii_digit(#[trigger] t[k])) ==> digits_value(t)
            > usize::MAX,
{
    if forall|k: int| 0 <= k < t.len() ==> is_ascii_digit(#[trigger] t[k]) {
        lemma_digits_monotone(s, t);
    }
}

fn is_length_name(buf: &[u8], p: usize) -> (r: bool)
    requires
        p + 15 <= buf@.len(),
    ensures
        r == (buf@.subrange(p as int, p + 15) == length_name()),
{
    let r = buf[p] == 67 && buf[p + 1] == 111 && buf[p + 2] == 110 && buf[p + 3] == 116 && buf[p
        + 4] == 101 && buf[p + 5] == 110 && buf[p + 6] == 116 && buf[p + 7] == 45 && buf[p + 8]
        == 76 && buf[p + 9] == 101 && buf[p + 10] == 110 && buf[p + 11] == 103 && buf[p + 12]
        == 116 && buf[p + 13] == 104 && buf[p + 14] == 58;
    proof {
        if r {
            assert(buf@.subrange(p as int, p + 15) =~= length_name());
        } else {
            if buf@.subrange(p as int, p + 15) == length_name() {
                assert(buf@.subrange(p as int, p + 15)[0] == length_name()[0]);
                assert(buf@.subrange(p as int, p + 15)[1] == length_name()[1]);
                assert(buf@.subrange(p as int, p + 15)[2] == length_name()[2]);
                assert(buf@.subrange(p as int, p + 15)[3] == length_name()[3]);
                assert(buf@.subrange(p as int, p + 15)[4] == length_name()[4]);
                assert(buf@.subrange(p as int, p + 15)[5] == length_name()[5]);
                assert(buf@.subrange(p as int, p + 15)[6] == length_name()[6]);
                assert(buf@.subrange(p as int, p + 15)[7] == length_name()[7]);
                assert(buf@.subrange(p as int, p + 15)[8] == length_name()[8]);
                assert(buf@.subrange(p as int, p + 15)[9] == length_name()[9]);
                assert(buf@.subrange(p as int, p + 15)[10] == length_name()[10]);
                assert(buf@.subrange(p as int, p + 15)[11] == length_name()[11]);
                assert(buf@.subrange(p as int, p + 15)[12] == length_name()[12]);
                assert(buf@.subrange(p as int, p + 15)[13] == length_name()[13]);
                assert(buf@.subrange(p as int, p + 15)[14] == length_name()[14]);
            }
        }
    }
    r
}

/// An optional machine integer as a mathematical one.
pub open spec fn opt_view(o: Option<usize>) -> Option<int> {
    match o {
        Some(n) => Some(n as int),
        None => None,
    }
}

/// Looks at the start of `buf` for one framed message: header lines up to a blank line, a
/// `Content-Length` among them (the last one counts), then that many body bytes.
pub fn scan_frame(buf: &[u8]) -> (r: FrameScan)
    ensures
        r == frame_of(buf@),
{
    let n = buf.len();
    let mut p: usize = 0;
    let mut len: Option<usize> = None;
    while p < n
        invariant
            p <= n == buf@.len(),
            header_from(buf@, 0, None) == header_from(buf@, p as int, opt_view(len)),
        decreases n - p,
    {
        let mut j: usize = p;
        while j < n && buf[j] != 10
            invariant
                p <= j <= n == buf@.len(),
                newline_from(buf@, p as int) == newline_from(buf@, j as int),
            decreases n - j,
        {
            j = j + 1;
        }
        if j >= n {
            return FrameScan::Incomplete;
        }
        if j == p + 1 && buf[p] == 13 {
            let start = j + 1;
            return match len {
                None => FrameScan::MissingLength { consumed: start },
                Some(l) => {
                    if l <= n - start {
                        FrameScan::Complete { body_start: start, body_end: start + l }
                    } else {
                        FrameScan::Incomplete
                    }
                },
            };
        }
        let ghost line = buf@.subrange(p as int, j + 1);
        if j + 1 - p >= 15 && is_length_name(buf, p) {
            assert(line.subrange(0, 15) =~= buf@.subrange(p as int, p + 15));
            assert(line.subrange(15, line.len() as int) =~= buf@.subrange(p + 15, j + 1));
            len = parse_header_value(buf, p + 15, j + 1);
        } else {
            proof {
                if line.len() >= 15 {
                    assert(line.subrange(0, 15) =~= buf@.subrange(p as int, p + 15));
                }
            }
        }
        p = j + 1;
    }
    FrameScan::Incomplete
}

/// The decimal digits of a number, most significant first.
pub open spec fn decimal(n: nat) -> Seq<u8>
    decreases n,
{
    if n < 10 {
        seq![(48 + n) as u8]
    } else {
        decimal(n / 10).push((48 + n % 10) as u8)
    }
}

/// A framed message: the `Content-Length` header for the body, a blank line, the body.
pub open spec fn framed(body: Seq<u8>) -> Seq<u8> {
    length_name() + seq![32u8] + decimal(body.len()) + seq![13u8, 10, 13, 10] + body
}

fn push_decimal(out: &mut Vec<u8>, n: usize)
    ensures
        final(out)@ == old(out)@ + decimal(n as nat),
{
    let mut rev: Vec<u8> = Vec::new();
    let mut m: usize = n;
    let ghost mut tail: Seq<u8> = Seq::empty();
    while m >= 10
        invariant
            decimal(n as nat) == decimal(m as nat) + tail,
            rev@.len() == tail.len(),
            forall|i: int| 0 <= i < tail.len() ==> tail[i] == rev@[rev@.len() - 1 - i],
        decreases m,
    {
        let d = (m % 10) as u8;
        proof {
            assert(decimal(m as nat) == decimal((m / 10) as nat).push((48 + m % 10) as u8));
            tail = seq![(48 + d) as u8] + tail;
            assert(decimal(n as nat) =~= decimal((m / 10) as nat) + tail);
        }
        rev.push(48 + d);
        m = m / 10;
    }
    assert(decimal(m as nat) == seq![(48 + m) as u8]);
    let ghost start = out@;
    out.push(48 + m as u8);
    let mut k: usize = rev.len();
    while k > 0
        invariant
            k <= rev@.len(),
            rev@.len() == tail.len(),
            forall|i: int| 0 <= i < tail.len() ==> tail[i] == rev@[rev@.len() - 1 - i],
            out@ == start + seq![(48 + m) as u8] + tail.subrange(0, rev@.len() - k),
        decreases k,
    {
        k = k - 1;
        out.push(rev[k]);
        assert(out@ =~= start + seq![(48 + m) as u8] + tail.subrange(0, rev@.len() - k));
    }
    assert(tail.subrange(0, tail.len() as int) =~= tail);
    assert(out@ =~= start + decimal(n as nat));
}

/// Frames a message body for sending: `Content-Length: <n>\r\n\r\n` and the `n` body bytes.
pub fn frame_message(body: &[u8]) -> (r: Vec<u8>)
    ensures
        r@ == framed(body@),
{
    let mut out: Vec<u8> = vec![67, 111, 110, 116, 101, 110, 116, 45, 76, 101, 110, 103, 116, 104, 58, 32];
    assert(out@ =~= length_name() + seq![32u8]);
    push_decimal(&mut out, body.len());
    out.push(13);
    out.push(10);
    out.push(13);
    out.push(10);
    let ghost head = out@;
    let mut k: usize = 0;
    while k < body.len()
        invariant
            k <= body@.len(),
            out@ == head + body@.subrange(0, k as int),
        decreases body.len() - k,
    {
        out.push(body[k]);
        k = k + 1;
        assert(out@ =~= head + body@.subrange(0, k as int));
    }
    assert(body@.subrange(0, body@.len() as int) =~= body@);
    assert(out@ =~= framed(body@));
    out
}
/// What the start of a byte buffer yields.
#[derive(Debug)]
pub enum ReadOutcome {
    /// The buffer ends before a whole message.
    Incomplete,
    /// The header, `consumed` bytes long, has no valid `Content-Length`: a transport error.
    MissingLength { consumed: usize },
    /// A whole message, `consumed` bytes long, whose body is not JSON: to be skipped.
    Malformed { consumed: usize },
    /// A whole message, `consumed` bytes long, and its body as a JSON value.
    Message { value: serde_json::Value, consumed: usize },
}

/// Reads one framed message from the start of `buf` (see `scan_frame`) and parses its body
/// as JSON: `Message` when the body parses, `Malformed` when it does not.
pub fn read_message(buf: &[u8]) -> (r: ReadOutcome)
    ensures
        match frame_of(buf@) {
            FrameScan::Incomplete => r is Incomplete,
            FrameScan::MissingLength { consumed } => r == (ReadOutcome::MissingLength { consumed }),
            FrameScan::Complete { body_start, body_end } => {
                &&& (r is Message <==> json_parses(
                    buf@.subrange(body_start as int, body_end as int),
                ))
                &&& match r {
                    ReadOutcome::Malformed { consumed } => consumed == body_end,
                    ReadOutcome::Message { consumed, .. } => consumed == body_end,
                    _ => false,
                }
            },
        },
{
    match scan_frame(buf) {
        FrameScan::Incomplete => ReadOutcome::Incomplete,
        FrameScan::MissingLength { consumed } => ReadOutcome::MissingLength { consumed },
        FrameScan::Complete { body_start, body_end } => {
            proof {
                lemma_header_from_bound(buf@, 0, None);
                assert(buf@.len() == buf.len());
                match header_from(buf@, 0, None) {
                    Some((st, Some(l))) => {
                        assert(body_start == st);
                        assert(body_end == st + l);
                    },
                    _ => {},
                }
            }
            let body = vstd::slice::slice_subrange(buf, body_start, body_end);
            match parse_json(body) {
                Ok(value) => ReadOutcome::Message { value, consumed: body_end },
                Err(_) => ReadOutcome::Malformed { consumed: body_end },
            }
        },
    }
}
proof fn lemma_newline_at(s: Seq<u8>, j: int, k: int)
    requires
        0 <= j <= k < s.len(),
        s[k] == 10,
        forall|i: int| j <= i < k ==> s[i] != 10,
    ensures
        newline_from(s, j) == k,
    decreases k - j,
{
    if j < k {
        lemma_newline_at(s, j + 1, k);
    }
}

proof fn lemma_decimal(n: nat)
    ensures
        decimal(n).len() >= 1,
        all_digits(decimal(n)),
        digits_value(decimal(n)) == n,
    decreases n,
{
    if n >= 10 {
        lemma_decimal(n / 10);
        let d = decimal(n);
        assert(d.drop_last() =~= decimal(n / 10));
        assert(d.last() == (48 + n % 10) as u8);
        assert(d.last() - 48 == n % 10);
        assert(digits_value(d) == digits_value(decimal(n / 10)) * 10 + (d.last() - 48));
        assert((n / 10) * 10 + n % 10 == n) by (nonlinear_arith);
        assert forall|k: int| 0 <= k < d.len() implies is_ascii_digit(#[trigger] d[k]) by {
            if k < d.len() - 1 {
                assert(d[k] == decimal(n / 10)[k]);
            }
        }
    } else {
        let d = decimal(n);
        assert(d.drop_last() =~= Seq::<u8>::empty());
        assert(d.last() - 48 == n);
        assert(digits_value(d) == digits_value(d.drop_last()) * 10 + (d.last() - 48));
    }
}

/// A framed body is read back as exactly that body: the frame is complete, and its body
/// starts right after the header and has the body's length, whatever bytes follow.
pub proof fn lemma_frame_round_trip(body: Seq<u8>, rest: Seq<u8>)
    requires
        framed(body).len() + rest.len() <= usize::MAX,
    ensures
        ({
            let start = framed(body).len() - body.len();
            frame_of(framed(body) + rest) == (FrameScan::Complete {
                body_start: start as usize,
                body_end: (start + body.len()) as usize,
            })
        }),
{
    let n = body.len();
    let d = decimal(n);
    lemma_decimal(n);
    let buf = framed(body) + rest;
    let name = length_name();
    let k: int = 16 + d.len() as int;
    assert(buf.len() == k + 4 + n + rest.len());
    assert forall|i: int| 0 <= i < 15 implies buf[i] == name[i] && buf[i] != 10 by {}
    assert(buf[15] == 32);
    assert forall|i: int| 16 <= i < k implies buf[i] == d[i - 16] by {}
    assert(buf[k] == 13);
    assert(buf[k + 1] == 10);
    assert(buf[k + 2] == 13);
    assert(buf[k + 3] == 10);
    assert forall|i: int| 0 <= i < k + 1 implies buf[i] != 10 by {
        if 16 <= i < k {
            assert(is_ascii_digit(d[i - 16]));
        }
    }
    lemma_newline_at(buf, 0, k + 1);
    let line = buf.subrange(0, k + 2);
    assert(line.subrange(0, 15) =~= name);
    let v = line.subrange(15, line.len() as int);
    assert(v =~= seq![32u8] + d + seq![13u8, 10]);
    assert(skip_space(v, 1) == 1);
    assert(skip_space(v, 0) == 1);
    let e = v.len() as int;
    assert(trim_end(v, e - 2) == e - 2);
    assert(trim_end(v, e - 1) == e - 2);
    assert(trim_end(v, e) == e - 2);
    assert(v.subrange(1, e - 2) =~= d);
    assert(header_value(v) == Some(n as int));
    lemma_newline_at(buf, k + 2, k + 3);
    assert(header_from(buf, k + 2, Some(n as int)) == Some((k + 4, Some(n as int))));
    assert(header_from(buf, 0, None) == Some((k + 4, Some(n as int))));
}
} // verus!
