//! How an image and a moment are written into a document.
use vstd::prelude::*;
use crate::cmd::Duration;

verus! {

/// A byte of the data; zero behind its end.
pub open spec fn byte_at(d: Seq<u8>, i: int) -> int {
    if 0 <= i < d.len() {
        d[i] as int
    } else {
        0
    }
}

/// The six bits with the number `k` in the bits of the data.
pub open spec fn six_bits(d: Seq<u8>, k: int) -> int {
    let q = 3 * (k / 4);
    if k % 4 == 0 {
        byte_at(d, q) / 4
    } else if k % 4 == 1 {
        byte_at(d, q) % 4 * 16 + byte_at(d, q + 1) / 16
    } else if k % 4 == 2 {
        byte_at(d, q + 1) % 16 * 4 + byte_at(d, q + 2) / 64
    } else {
        byte_at(d, q + 2) % 64
    }
}

/// The character that stands for six bits: `A` to `Z`, `a` to `z`, `0` to `9`, `+` and `/`.
pub open spec fn base64_char(v: int) -> char {
    if v < 26 {
        (65 + v) as char
    } else if v < 52 {
        (97 + v - 26) as char
    } else if v < 62 {
        (48 + v - 52) as char
    } else if v == 62 {
        '+'
    } else {
        '/'
    }
}

/// How many characters the base64 form of `n` bytes has.
pub open spec fn base64_len(n: int) -> int {
    4 * ((n + 2) / 3)
}

/// The base64 form of data: a character for each six bits, filled up with `=` to a multiple of
/// four.
pub open spec fn base64(d: Seq<u8>) -> Seq<char> {
    Seq::new(
        base64_len(d.len() as int) as nat,
        |k: int|
            if 3 * k < 4 * d.len() {
                base64_char(six_bits(d, k))
            } else {
                '='
            },
    )
}

/// Puts data into base64 form.
///
/// Calls `base64::encode`, which uses the standard alphabet and padding. It panics where the
/// length of the result does not fit.
#[verifier::external_body]
pub(crate) fn to_base64(data: &[u8]) -> (res: String)
    requires
        base64_len(data@.len() as int) <= isize::MAX,
    ensures
        res@ == base64(data@),
{
    base64::encode(data)
}

/// The first second that cannot be written: that after the year 9999.
pub const TIME_END: u64 = 253402300800;

/// Whether the moment so long after the start of 1970 can be written.
pub open spec fn is_writable(since: Duration) -> bool {
    since.secs < TIME_END && since.nanos < 1_000_000_000
}

/// What `humantime::format_rfc3339` writes for the moment so many seconds and nanoseconds after
/// the start of 1970.
pub uninterp spec fn rfc3339(secs: u64, nanos: u32) -> Seq<char>;

/// Writes a moment, in UTC.
///
/// Calls `humantime::format_rfc3339` on the moment so many seconds and nanoseconds after the
/// start of 1970. What it writes depends on that moment alone. It fails from the year 10000 on.
#[verifier::external_body]
pub(crate) fn format_timestamp(secs: u64, nanos: u32) -> (res: String)
    requires
        secs < TIME_END,
        nanos < 1_000_000_000,
    ensures
        res@ == rfc3339(secs, nanos),
{
    let moment = std::time::UNIX_EPOCH + std::time::Duration::new(secs, nanos);
    humantime::format_rfc3339(moment).to_string()
}

proof fn lemma_char_unique(v: int, w: int)
    requires
        0 <= v < 64,
        0 <= w < 64,
        base64_char(v) == base64_char(w),
    ensures
        v == w,
{
    assert(base64_char(v) as int == (if v < 26 {
        65 + v
    } else if v < 52 {
        97 + v - 26
    } else if v < 62 {
        48 + v - 52
    } else if v == 62 {
        43
    } else {
        47
    }));
    assert(base64_char(w) as int == (if w < 26 {
        65 + w
    } else if w < 52 {
        97 + w - 26
    } else if w < 62 {
        48 + w - 52
    } else if w == 62 {
        43
    } else {
        47
    }));
}

proof fn lemma_char_not_pad(v: int)
    requires
        0 <= v < 64,
    ensures
        base64_char(v) != '=',
{
    assert(base64_char(v) as int == (if v < 26 {
        65 + v
    } else if v < 52 {
        97 + v - 26
    } else if v < 62 {
        48 + v - 52
    } else if v == 62 {
        43
    } else {
        47
    }));
    assert('=' as int == 61);
}

proof fn lemma_six_bits_range(d: Seq<u8>, k: int)
    requires
        0 <= k,
    ensures
        0 <= six_bits(d, k) < 64,
{
}

/// No two different data have the same base64 form: what is embedded can be read back.
pub proof fn lemma_base64_unique(a: Seq<u8>, b: Seq<u8>)
    requires
        base64(a) == base64(b),
    ensures
        a == b,
{
    if a.len() < b.len() {
        lemma_base64_longer(a, b);
    }
    if b.len() < a.len() {
        lemma_base64_longer(b, a);
    }
    assert forall|i: int| 0 <= i < a.len() implies a[i] == b[i] by {
        let k = 4 * (i / 3) + i % 3;
        assert(3 * k < 4 * a.len() && 3 * (k + 1) < 4 * a.len());
        lemma_same_six_bits(a, b, k);
        lemma_same_six_bits(a, b, k + 1);
    }
    assert(a =~= b);
}

proof fn lemma_same_six_bits(a: Seq<u8>, b: Seq<u8>, k: int)
    requires
        base64(a) == base64(b),
        a.len() == b.len(),
        0 <= k,
        3 * k < 4 * a.len(),
    ensures
        six_bits(a, k) == six_bits(b, k),
{
    assert(k < base64_len(a.len() as int));
    assert(base64(a)[k] == base64_char(six_bits(a, k)));
    assert(base64(b)[k] == base64_char(six_bits(b, k)));
    lemma_six_bits_range(a, k);
    lemma_six_bits_range(b, k);
    lemma_char_unique(six_bits(a, k), six_bits(b, k));
}

/// Longer data has another base64 form: a longer one, or one with less padding.
proof fn lemma_base64_longer(a: Seq<u8>, b: Seq<u8>)
    requires
        a.len() < b.len(),
    ensures
        base64(a) != base64(b),
{
    if base64_len(a.len() as int) == base64_len(b.len() as int) {
        let k = (4 * a.len() as int + 2) / 3;
        assert(3 * k >= 4 * a.len() && 3 * k < 4 * b.len());
        assert(k < base64_len(b.len() as int));
        assert(base64(a)[k] == '=');
        assert(base64(b)[k] == base64_char(six_bits(b, k)));
        lemma_six_bits_range(b, k);
        lemma_char_not_pad(six_bits(b, k));
    } else {
        assert(base64(a).len() != base64(b).len());
    }
}

} // verus!
