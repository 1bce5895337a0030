//! Character-level helpers shared by the completion engine.
use vstd::prelude::*;

verus! {

/// What `char::is_alphanumeric` answers for a character (Unicode alphabetic or numeric).
pub uninterp spec fn alphanumeric(c: char) -> bool;

/// An ASCII letter or digit.
pub open spec fn ascii_alphanumeric(c: char) -> bool {
    ('a' <= c && c <= 'z') || ('A' <= c && c <= 'Z') || ('0' <= c && c <= '9')
}

/// Relies on `char::is_alphanumeric`: its answer depends on the character alone, and among
/// ASCII characters exactly the letters and digits are alphanumeric.
#[verifier::external_body]
fn char_is_alphanumeric(c: char) -> (r: bool)
    ensures
        r == alphanumeric(c),
        (c as u32) < 128 ==> (r <==> ascii_alphanumeric(c)),
{
    c.is_alphanumeric()
}

/// Relies on `str::chars`: the characters of the text, in order.
#[verifier::external_body]
pub(crate) fn chars_of(s: &str) -> (r: Vec<char>)
    ensures
        r@ == s@,
{
    s.chars().collect()
}

/// Relies on `String::from_iter`: the string made of these characters, in order.
#[verifier::external_body]
pub(crate) fn string_of(v: &[char]) -> (r: String)
    ensures
        r@ == v@,
{
    String::from_iter(v.iter())
}

/// An identifier character: a letter, a digit or an underscore.
pub open spec fn word_char(c: char) -> bool {
    alphanumeric(c) || c == '_'
}

/// Whether `ch` may stand inside an identifier.
pub fn is_word_char(ch: char) -> (r: bool)
    ensures
        r == word_char(ch),
{
    ch == '_' || char_is_alphanumeric(ch)
}

/// The ASCII lower-case form of one character; every other character is kept.
pub open spec fn lower_char(c: char) -> char {
    if 'A' <= c && c <= 'Z' {
        ((c as u32) + 32) as char
    } else {
        c
    }
}

/// The ASCII lower-case form of a text.
pub open spec fn lower(s: Seq<char>) -> Seq<char> {
    s.map_values(|c: char| lower_char(c))
}

/// ASCII lower-case form of one character.
pub fn ascii_lower_char(c: char) -> (r: char)
    ensures
        r == lower_char(c),
{
    if 'A' <= c && c <= 'Z' {
        ((c as u8) + 32) as char
    } else {
        c
    }
}

/// ASCII lower-case form of a sequence of characters.
pub fn ascii_lower(s: &Vec<char>) -> (r: Vec<char>)
    ensures
        r@ == lower(s@),
{
    let mut out: Vec<char> = Vec::new();
    let mut i: usize = 0;
    while i < s.len()
        invariant
            i <= s.len(),
            out@ == lower(s@.subrange(0, i as int)),
        decreases s.len() - i,
    {
        out.push(ascii_lower_char(s[i]));
        i = i + 1;
        assert(lower(s@.subrange(0, i as int)) =~= out@);
    }
    assert(s@.subrange(0, s.len() as int) =~= s@);
    out
}

/// Whether two texts are equal.
pub fn same_text(a: &str, b: &str) -> (r: bool)
    ensures
        r == (a@ == b@),
{
    let x = chars_of(a);
    let y = chars_of(b);
    if x.len() != y.len() {
        return false;
    }
    let mut i: usize = 0;
    while i < x.len()
        invariant
            x@ == a@,
            y@ == b@,
            x.len() == y.len(),
            i <= x.len(),
            forall|k: int| 0 <= k < i ==> x@[k] == y@[k],
        decreases x.len() - i,
    {
        if x[i] != y[i] {
            return false;
        }
        i = i + 1;
    }
    assert(x@ =~= y@);
    true
}

/// The number of characters in a line.
pub fn line_len_chars(line: &str) -> (r: usize)
    ensures
        r == line@.len(),
{
    line.unicode_len()
}

/// A Unicode White_Space character, what `char::is_whitespace` answers true for.
pub open spec fn whitespace(c: char) -> bool {
    let u = c as u32;
    (0x9 <= u && u <= 0xD) || u == 0x20 || u == 0x85 || u == 0xA0 || u == 0x1680 || (0x2000 <= u
        && u <= 0x200A) || u == 0x2028 || u == 0x2029 || u == 0x202F || u == 0x205F || u == 0x3000
}

/// Whether `c` is white space.
pub fn is_whitespace_char(c: char) -> (r: bool)
    ensures
        r == whitespace(c),
{
    let u = c as u32;
    (0x9 <= u && u <= 0xD) || u == 0x20 || u == 0x85 || u == 0xA0 || u == 0x1680 || (0x2000 <= u
        && u <= 0x200A) || u == 0x2028 || u == 0x2029 || u == 0x202F || u == 0x205F || u == 0x3000
}

/// The first position at or after `i` that holds no white space, or the length.
pub open spec fn space_end(s: Seq<char>, i: int) -> int
    decreases s.len() - i,
{
    if i < 0 || i >= s.len() || !whitespace(s[i]) {
        i
    } else {
        space_end(s, i + 1)
    }
}

/// The end of `s[..j]` without its trailing white space.
pub open spec fn space_start(s: Seq<char>, j: int) -> int
    decreases j,
{
    if j <= 0 || j > s.len() || !whitespace(s[j - 1]) {
        j
    } else {
        space_start(s, j - 1)
    }
}

/// A text without its leading and trailing white space (what `str::trim` leaves).
pub open spec fn trimmed(s: Seq<char>) -> Seq<char> {
    let a = space_end(s, 0);
    let b = space_start(s, s.len() as int);
    if a < b {
        s.subrange(a, b)
    } else {
        Seq::empty()
    }
}

/// Removes leading and trailing white space.
pub fn trim_text(s: &str) -> (r: String)
    ensures
        r@ == trimmed(s@),
{
    let c = chars_of(s);
    let n = c.len();
    let mut a: usize = 0;
    while a < n && is_whitespace_char(c[a])
        invariant
            c@ == s@,
            n == c.len(),
            a <= n,
            space_end(s@, 0) == space_end(s@, a as int),
        decreases n - a,
    {
        a = a + 1;
    }
    let mut b: usize = n;
    while b > a && is_whitespace_char(c[b - 1])
        invariant
            c@ == s@,
            n == c.len(),
            a <= b <= n,
            space_start(s@, n as int) == space_start(s@, b as int),
        decreases b,
    {
        b = b - 1;
    }
    if a >= b {
        proof {
            lemma_space_start_le(s@, b as int);
        }
        return String::new();
    }
    let mut out: Vec<char> = Vec::new();
    let mut k: usize = a;
    while k < b
        invariant
            c@ == s@,
            a <= k <= b <= n,
            n == c.len(),
            out@ == s@.subrange(a as int, k as int),
        decreases b - k,
    {
        out.push(c[k]);
        k = k + 1;
        assert(out@ =~= s@.subrange(a as int, k as int));
    }
    string_of(out.as_slice())
}

proof fn lemma_space_start_le(s: Seq<char>, j: int)
    requires
        0 <= j <= s.len(),
    ensures
        space_start(s, j) <= j,
    decreases j,
{
    if j > 0 && whitespace(s[j - 1]) {
        lemma_space_start_le(s, j - 1);
    }
}

/// Scanning back from `idx` over identifier characters: where the identifier starts.
pub open spec fn ident_start_from(s: Seq<char>, idx: int) -> int
    decreases idx,
{
    if idx <= 0 || idx > s.len() {
        0
    } else if word_char(s[idx - 1]) {
        ident_start_from(s, idx - 1)
    } else {
        idx
    }
}

/// The column where the identifier that ends at column `col` (clamped to the line) starts.
pub open spec fn identifier_start(s: Seq<char>, col: int) -> int {
    ident_start_from(s, if col <= s.len() { col } else { s.len() as int })
}

proof fn lemma_ident_start_from(s: Seq<char>, idx: int)
    requires
        0 <= idx <= s.len(),
    ensures
        0 <= ident_start_from(s, idx) <= idx,
        forall|k: int| ident_start_from(s, idx) <= k < idx ==> word_char(#[trigger] s[k]),
        ident_start_from(s, idx) == 0 || !word_char(s[ident_start_from(s, idx) - 1]),
    decreases idx,
{
    if idx > 0 && word_char(s[idx - 1]) {
        lemma_ident_start_from(s, idx - 1);
    }
}

/// Scans back from column `col` (clamped to the line) over identifier characters and
/// returns the column where that run starts.
pub fn identifier_start_col(line: &str, col: usize) -> (r: usize)
    ensures
        r == identifier_start(line@, col as int),
        r <= col,
        r <= line@.len(),
        forall|k: int|
            r <= k < (if col <= line@.len() { col as int } else { line@.len() as int })
                ==> word_char(#[trigger] line@[k]),
        r == 0 || !word_char(line@[r - 1]),
{
    let chars = chars_of(line);
    let mut idx: usize = if col < chars.len() { col } else { chars.len() };
    proof {
        lemma_ident_start_from(line@, idx as int);
    }
    let ghost end = idx;
    while idx > 0 && is_word_char(chars[idx - 1])
        invariant
            chars@ == line@,
            idx <= end <= chars.len(),
            ident_start_from(line@, idx as int) == ident_start_from(line@, end as int),
            forall|k: int| idx <= k < end ==> word_char(#[trigger] line@[k]),
        decreases idx,
    {
        idx = idx - 1;
    }
    proof {
        lemma_ident_start_from(line@, end as int);
    }
    idx
}
} // verus!
