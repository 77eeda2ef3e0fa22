//! Bytes, strings and numbers: the vocabulary the other modules share.
//!
//! Text is modelled by its UTF-8 bytes wherever positions matter and by its characters wherever
//! only the content does.
use vstd::prelude::*;

verus! {

/// The UTF-8 bytes of a text.
pub open spec fn utf8(s: Seq<char>) -> Seq<u8> {
    vstd::utf8::encode_utf8(s)
}

/// The text that UTF-8 bytes stand for.
pub open spec fn chars_of(b: Seq<u8>) -> Seq<char> {
    vstd::utf8::decode_utf8(b)
}

/// Whether bytes are the UTF-8 encoding of some text.
pub open spec fn is_utf8(b: Seq<u8>) -> bool {
    vstd::utf8::valid_utf8(b)
}

/// Encoding a text and reading it back gives the text, and its bytes are UTF-8.
pub proof fn lemma_utf8_text(s: Seq<char>)
    ensures
        is_utf8(utf8(s)),
        chars_of(utf8(s)) == s,
{
    vstd::utf8::encode_utf8_valid_utf8(s);
    vstd::utf8::encode_utf8_decode_utf8(s);
}

/// The bytes of a concatenation are the concatenated bytes.
pub proof fn lemma_utf8_concat(a: Seq<char>, b: Seq<char>)
    ensures
        utf8(a + b) == utf8(a) + utf8(b),
    decreases a.len(),
{
    if a.len() == 0 {
        assert(a + b =~= b);
        assert(utf8(a) + utf8(b) =~= utf8(b));
    } else {
        assert((a + b).drop_first() =~= a.drop_first() + b);
        lemma_utf8_concat(a.drop_first(), b);
        assert(utf8(a + b) =~= utf8(a) + utf8(b));
    }
}

/// Whether a place in a text has an ASCII byte on one of its sides, or is at an end.
pub open spec fn is_cut(b: Seq<u8>, at: int) -> bool {
    at == 0 || at == b.len() || (0 < at < b.len() && (b[at] < 0x80 || b[at - 1] < 0x80))
}

/// Both sides of a cut beside an ASCII byte are UTF-8.
pub proof fn lemma_utf8_cut(b: Seq<u8>, at: int)
    requires
        is_utf8(b),
        is_cut(b, at),
    ensures
        is_utf8(b.subrange(0, at)),
        is_utf8(b.subrange(at, b.len() as int)),
{
    if at == 0 || at == b.len() {
        vstd::utf8::is_char_boundary_start_end_of_seq(b);
        vstd::utf8::valid_utf8_split(b, at);
    } else if b[at] < 0x80 {
        vstd::utf8::is_char_boundary_iff_not_is_continuation_byte(b, at);
        vstd::utf8::valid_utf8_split(b, at);
    } else {
        vstd::utf8::is_char_boundary_iff_not_is_continuation_byte(b, at - 1);
        vstd::utf8::valid_utf8_split(b, at - 1);
        let front = b.subrange(0, at - 1);
        let tail = b.subrange(at - 1, b.len() as int);
        assert(vstd::utf8::pop_first_scalar(tail) =~= b.subrange(at, b.len() as int));
        let one = b.subrange(at - 1, at);
        assert(is_utf8(one)) by {
            reveal_with_fuel(vstd::utf8::valid_utf8, 2);
        }
        vstd::utf8::valid_utf8_concat(front, one);
        assert(front + one =~= b.subrange(0, at));
    }
}

/// What is cut out of UTF-8 bytes beside ASCII bytes is UTF-8.
pub proof fn lemma_utf8_slice(b: Seq<u8>, from: int, to: int)
    requires
        is_utf8(b),
        0 <= from <= to <= b.len(),
        is_cut(b, from),
        is_cut(b, to),
    ensures
        is_utf8(b.subrange(from, to)),
{
    lemma_utf8_cut(b, from);
    let tail = b.subrange(from, b.len() as int);
    assert(is_cut(tail, to - from)) by {
        if from < to < b.len() {
            assert(tail[to - from] == b[to]);
            assert(tail[to - from - 1] == b[to - 1]);
        }
    }
    lemma_utf8_cut(tail, to - from);
    assert(tail.subrange(0, to - from) =~= b.subrange(from, to));
}

/// ASCII bytes are UTF-8.
pub proof fn lemma_ascii_utf8(b: Seq<u8>)
    requires
        forall|i: int| 0 <= i < b.len() ==> b[i] < 0x80,
    ensures
        is_utf8(b),
    decreases b.len(),
{
    if b.len() > 0 {
        lemma_ascii_utf8(b.drop_first());
        assert(vstd::utf8::pop_first_scalar(b) =~= b.drop_first());
    }
}

/// Reads bytes as text.
///
/// Calls `std::str::from_utf8`, which succeeds exactly on UTF-8 and keeps the bytes.
#[verifier::external_body]
pub(crate) fn utf8_str(bytes: &[u8]) -> (res: Option<&str>)
    ensures
        res is Some <==> is_utf8(bytes@),
        res matches Some(s) ==> utf8(s@) == bytes@,
{
    std::str::from_utf8(bytes).ok()
}

/// Whether two byte slices hold the same bytes.
pub fn bytes_eq(a: &[u8], b: &[u8]) -> (res: bool)
    ensures
        res == (a@ == b@),
{
    if a.len() != b.len() {
        return false;
    }
    let mut i: usize = 0;
    while i < a.len()
        invariant
            i <= a.len(),
            a.len() == b.len(),
            a@.take(i as int) =~= b@.take(i as int),
        decreases a.len() - i,
    {
        if a[i] != b[i] {
            return false;
        }
        assert(a@.take(i + 1) =~= a@.take(i as int).push(a@[i as int]));
        assert(b@.take(i + 1) =~= b@.take(i as int).push(b@[i as int]));
        i += 1;
    }
    assert(a@.take(i as int) =~= a@);
    assert(b@.take(i as int) =~= b@);
    true
}

/// Where the run of bytes from `i` up to the next `stop`, or the end, stops.
pub open spec fn run_end(b: Seq<u8>, stop: u8, i: int) -> int
    decreases b.len() - i,
{
    if i < 0 || i >= b.len() || b[i] == stop {
        i
    } else {
        run_end(b, stop, i + 1)
    }
}

/// A run ends at a `stop` or at the end, and holds no `stop`.
pub proof fn lemma_run_end(b: Seq<u8>, stop: u8, i: int)
    requires
        0 <= i <= b.len(),
    ensures
        i <= run_end(b, stop, i) <= b.len(),
        run_end(b, stop, i) < b.len() ==> b[run_end(b, stop, i)] == stop,
        forall|k: int| i <= k < run_end(b, stop, i) ==> b[k] != stop,
    decreases b.len() - i,
{
    if i < b.len() && b[i] != stop {
        lemma_run_end(b, stop, i + 1);
    }
}

/// A run that has no `stop` in it and ends at one, or at the end, is the run from its start.
pub proof fn lemma_run_end_is(b: Seq<u8>, stop: u8, i: int, e: int)
    requires
        0 <= i <= e <= b.len(),
        e < b.len() ==> b[e] == stop,
        forall|k: int| i <= k < e ==> b[k] != stop,
    ensures
        run_end(b, stop, i) == e,
    decreases e - i,
{
    if i < e {
        lemma_run_end_is(b, stop, i + 1, e);
    }
}

/// Finds where the run of bytes from `i` up to the next `stop`, or the end, stops.
pub fn find_run_end(b: &[u8], stop: u8, i: usize) -> (res: usize)
    requires
        i <= b@.len(),
    ensures
        res == run_end(b@, stop, i as int),
        i <= res <= b@.len(),
{
    let mut e: usize = i;
    while e < b.len() && b[e] != stop
        invariant
            i <= e <= b@.len(),
            run_end(b@, stop, i as int) == run_end(b@, stop, e as int),
        decreases b@.len() - e,
    {
        e += 1;
    }
    e
}

/// A byte with an ASCII capital made small.
pub open spec fn lower_byte(b: u8) -> u8 {
    if 65 <= b <= 90 {
        (b + 32) as u8
    } else {
        b
    }
}

/// Bytes with the ASCII capitals made small.
pub open spec fn lower(b: Seq<u8>) -> Seq<u8> {
    b.map_values(|x: u8| lower_byte(x))
}

/// Makes an ASCII capital small.
pub fn to_lower_byte(b: u8) -> (res: u8)
    ensures
        res == lower_byte(b),
{
    if 65 <= b && b <= 90 {
        b + 32
    } else {
        b
    }
}

/// Whether two byte slices are the same but for the case of ASCII letters.
pub fn eq_ignore_case(a: &[u8], b: &[u8]) -> (res: bool)
    ensures
        res == (lower(a@) == lower(b@)),
{
    if a.len() != b.len() {
        assert(lower(a@).len() != lower(b@).len());
        return false;
    }
    let mut i: usize = 0;
    while i < a.len()
        invariant
            i <= a.len(),
            a.len() == b.len(),
            forall|k: int| 0 <= k < i ==> lower(a@)[k] == lower(b@)[k],
        decreases a.len() - i,
    {
        if to_lower_byte(a[i]) != to_lower_byte(b[i]) {
            assert(lower(a@)[i as int] != lower(b@)[i as int]);
            return false;
        }
        i += 1;
    }
    assert(lower(a@) =~= lower(b@));
    true
}

/// Whether two texts are the same but for the case of ASCII letters.
pub open spec fn same_word(a: Seq<char>, b: Seq<char>) -> bool {
    lower(utf8(a)) == lower(utf8(b))
}

/// Whether two texts are the same but for the case of ASCII letters.
pub fn eq_word(a: &str, b: &str) -> (res: bool)
    ensures
        res == same_word(a@, b@),
{
    eq_ignore_case(a.as_bytes(), b.as_bytes())
}

/// The part of a text between two cuts.
pub fn cut_str(text: &str, from: usize, to: usize) -> (res: &str)
    requires
        from <= to <= utf8(text@).len(),
        is_cut(utf8(text@), from as int),
        is_cut(utf8(text@), to as int),
    ensures
        utf8(res@) == utf8(text@).subrange(from as int, to as int),
        res@ == chars_of(utf8(text@).subrange(from as int, to as int)),
{
    let part = vstd::slice::slice_subrange(text.as_bytes(), from, to);
    proof {
        lemma_utf8_text(text@);
        lemma_utf8_slice(utf8(text@), from as int, to as int);
    }
    let res = utf8_str(part).unwrap();
    proof {
        lemma_utf8_text(res@);
    }
    res
}

/// A decimal digit.
pub open spec fn digit(d: nat) -> char {
    if d == 0 {
        '0'
    } else if d == 1 {
        '1'
    } else if d == 2 {
        '2'
    } else if d == 3 {
        '3'
    } else if d == 4 {
        '4'
    } else if d == 5 {
        '5'
    } else if d == 6 {
        '6'
    } else if d == 7 {
        '7'
    } else if d == 8 {
        '8'
    } else {
        '9'
    }
}

/// A number in decimal digits.
pub open spec fn decimal(n: nat) -> Seq<char>
    decreases n,
{
    if n < 10 {
        seq![digit(n)]
    } else {
        decimal(n / 10).push(digit(n % 10))
    }
}

fn digit_str(d: u64) -> (res: &'static str)
    requires
        d < 10,
    ensures
        res@ == seq![digit(d as nat)],
{
    proof {
        reveal_strlit("0");
        reveal_strlit("1");
        reveal_strlit("2");
        reveal_strlit("3");
        reveal_strlit("4");
        reveal_strlit("5");
        reveal_strlit("6");
        reveal_strlit("7");
        reveal_strlit("8");
        reveal_strlit("9");
    }
    let res = match d {
        0 => "0",
        1 => "1",
        2 => "2",
        3 => "3",
        4 => "4",
        5 => "5",
        6 => "6",
        7 => "7",
        8 => "8",
        _ => "9",
    };
    assert(res@ =~= seq![digit(d as nat)]);
    res
}

/// Writes a number in decimal digits.
pub fn to_decimal(n: u64) -> (res: String)
    ensures
        res@ == decimal(n as nat),
    decreases n,
{
    if n < 10 {
        digit_str(n).to_string()
    } else {
        let mut s = to_decimal(n / 10);
        s.append(digit_str(n % 10));
        assert(s@ =~= decimal(n as nat));
        s
    }
}

/// What `str::to_lowercase` makes of a text.
pub uninterp spec fn lowercase(s: Seq<char>) -> Seq<char>;

/// A text in small letters.
///
/// Calls `str::to_lowercase`, which goes by the Unicode property and on ASCII text only makes the
/// capitals small.
#[verifier::external_body]
pub(crate) fn to_lowercase(s: &str) -> (res: String)
    ensures
        res@ == lowercase(s@),
        vstd::utf8::is_ascii_chars(s@) ==> utf8(res@) == lower(utf8(s@)),
{
    s.to_lowercase()
}

/// Puts a text behind another.
pub fn push(out: &mut String, s: &str)
    ensures
        final(out)@ == old(out)@ + s@,
        utf8(final(out)@) == utf8(old(out)@) + utf8(s@),
{
    proof {
        lemma_utf8_concat(out@, s@);
    }
    out.append(s);
}

/// Decimal digits are digits.
pub proof fn lemma_decimal_digits(n: nat)
    ensures
        decimal(n).len() > 0,
        forall|i: int| 0 <= i < decimal(n).len() ==> '0' <= #[trigger] decimal(n)[i] <= '9',
    decreases n,
{
    if n >= 10 {
        lemma_decimal_digits(n / 10);
    }
}

/// Different numbers are written differently.
pub proof fn lemma_decimal_unique(n: nat, m: nat)
    requires
        decimal(n) == decimal(m),
    ensures
        n == m,
    decreases n,
{
    lemma_decimal_digits(n / 10);
    lemma_decimal_digits(m / 10);
    assert(decimal(n).last() == digit(n % 10));
    assert(decimal(m).last() == digit(m % 10));
    if n >= 10 && m >= 10 {
        assert(decimal(n).drop_last() =~= decimal(n / 10));
        assert(decimal(m).drop_last() =~= decimal(m / 10));
        lemma_decimal_unique(n / 10, m / 10);
    }
}

/// Whether a character is white space: the characters with the Unicode property `White_Space`.
pub open spec fn is_space(c: char) -> bool {
    ||| '\u{9}' <= c <= '\u{d}'
    ||| c == '\u{20}'
    ||| c == '\u{85}'
    ||| c == '\u{a0}'
    ||| c == '\u{1680}'
    ||| '\u{2000}' <= c <= '\u{200a}'
    ||| c == '\u{2028}'
    ||| c == '\u{2029}'
    ||| c == '\u{202f}'
    ||| c == '\u{205f}'
    ||| c == '\u{3000}'
}

/// Whether a character is white space.
fn check_space(c: char) -> (res: bool)
    ensures
        res == is_space(c),
{
    ('\u{9}' <= c && c <= '\u{d}') || c == '\u{20}' || c == '\u{85}' || c == '\u{a0}' || c
        == '\u{1680}' || ('\u{2000}' <= c && c <= '\u{200a}') || c == '\u{2028}' || c == '\u{2029}'
        || c == '\u{202f}' || c == '\u{205f}' || c == '\u{3000}'
}

/// A text without the white space at its start.
pub open spec fn trim_start(s: Seq<char>) -> Seq<char>
    decreases s.len(),
{
    if s.len() > 0 && is_space(s[0]) {
        trim_start(s.drop_first())
    } else {
        s
    }
}

/// A text without the white space at its end.
pub open spec fn trim_end(s: Seq<char>) -> Seq<char>
    decreases s.len(),
{
    if s.len() > 0 && is_space(s.last()) {
        trim_end(s.drop_last())
    } else {
        s
    }
}

/// A text without the white space around it.
pub open spec fn trim(s: Seq<char>) -> Seq<char> {
    trim_end(trim_start(s))
}

/// The characters of a text.
pub fn to_chars(s: &str) -> (res: Vec<char>)
    ensures
        res@ == s@,
{
    let mut v: Vec<char> = Vec::new();
    for c in it: s.chars()
        invariant
            it.seq() == s@,
            v@ =~= s@.take(it.index() as int),
    {
        v.push(c);
    }
    assert(s@.take(s@.len() as int) =~= s@);
    v
}

/// The part of a text between two characters, without the white space around it.
pub fn trimmed_part(s: &str, chars: &Vec<char>, from: usize, to: usize) -> (res: String)
    requires
        chars@ == s@,
        from <= to <= s@.len(),
    ensures
        res@ == trim(s@.subrange(from as int, to as int)),
{
    let ghost part = s@.subrange(from as int, to as int);
    let mut i: usize = from;
    assert(s@.subrange(i as int, to as int) =~= part);
    while i < to && check_space(chars[i])
        invariant
            chars@ == s@,
            from <= i <= to <= s@.len(),
            trim_start(part) == trim_start(s@.subrange(i as int, to as int)),
        decreases to - i,
    {
        assert(s@.subrange(i as int, to as int).drop_first() =~= s@.subrange(i + 1, to as int));
        i += 1;
    }
    let ghost body = s@.subrange(i as int, to as int);
    assert(trim_start(part) == body);
    let mut j: usize = to;
    while j > i && check_space(chars[j - 1])
        invariant
            chars@ == s@,
            i <= j <= to <= s@.len(),
            trim_end(body) == trim_end(s@.subrange(i as int, j as int)),
        decreases j - i,
    {
        assert(s@.subrange(i as int, j as int).drop_last() =~= s@.subrange(i as int, j - 1));
        assert(s@.subrange(i as int, j as int).last() == s@[j - 1]);
        j -= 1;
    }
    proof {
        let rest = s@.subrange(i as int, j as int);
        if j > i {
            assert(rest.last() == s@[j - 1]);
        }
        assert(trim_end(rest) == rest);
    }
    s.substring_char(i, j).to_string()
}

} // verus!
