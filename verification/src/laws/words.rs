//! Words and numbers.
use vstd::prelude::*;
use crate::cmd;
use crate::cmd::Duration;
use crate::cmd::ParseSecsError;
use crate::encode;
use crate::text;

verus! {

/// The number that decimal digits stand for.
pub open spec fn value(s: Seq<char>) -> int
    decreases s.len(),
{
    if s.len() == 0 {
        0
    } else {
        10 * value(s.drop_last()) + (s.last() as int - 48)
    }
}

/// A number is written in the digits that stand for it, without a zero in front.
pub proof fn lemma_decimal(n: nat)
    ensures
        value(text::decimal(n)) == n,
        forall|k: int|
            0 <= k < text::decimal(n).len() ==> '0' <= #[trigger] text::decimal(n)[k] <= '9',
        n >= 10 ==> text::decimal(n)[0] != '0',
        n < 10 ==> text::decimal(n).len() == 1,
    decreases n,
{
    text::lemma_decimal_digits(n);
    let s = text::decimal(n);
    if n >= 10 {
        lemma_decimal(n / 10);
        assert(s.drop_last() =~= text::decimal(n / 10));
        assert(s.last() == text::digit(n % 10));
        assert(s[0] == text::decimal(n / 10)[0]);
        if n / 10 < 10 {
            assert(text::decimal(n / 10)[0] == text::digit(n / 10));
        }
    } else {
        assert(s.drop_last() =~= seq![]);
        assert(value(s.drop_last()) == 0);
    }
}

/// The number that decimal digits in bytes stand for.
pub open spec fn byte_value(d: Seq<u8>) -> int
    decreases d.len(),
{
    if d.len() == 0 {
        0
    } else {
        10 * byte_value(d.drop_last()) + (d.last() - 48)
    }
}

/// Whether all bytes are decimal digits.
pub open spec fn all_digits(d: Seq<u8>) -> bool {
    forall|k: int| 0 <= k < d.len() ==> 48 <= #[trigger] d[k] <= 57
}

proof fn lemma_read_digits(d: Seq<u8>)
    ensures
        all_digits(d) ==> byte_value(d) >= 0,
        cmd::read_digits(d) is Ok <==> all_digits(d) && byte_value(d) <= u64::MAX,
        cmd::read_digits(d) matches Ok(n) ==> n == byte_value(d),
        cmd::read_digits(d) == Err::<nat, ParseSecsError>(ParseSecsError::InvalidDigit) ==> exists|
            k: int,
        |
            0 <= k < d.len() && !(48 <= d[k] <= 57) && #[trigger] all_digits(d.take(k))
                && byte_value(d.take(k)) <= u64::MAX,
        cmd::read_digits(d) == Err::<nat, ParseSecsError>(ParseSecsError::PosOverflow) ==> exists|
            k: int,
        | 0 <= k <= d.len() && #[trigger] all_digits(d.take(k)) && byte_value(d.take(k)) > u64::MAX,
        cmd::read_digits(d) != Err::<nat, ParseSecsError>(ParseSecsError::Empty),
    decreases d.len(),
{
    if d.len() > 0 {
        let front = d.drop_last();
        let n = front.len() as int;
        lemma_read_digits(front);
        assert(d.take(n) =~= front);
        assert(d.take(n + 1) =~= d);
        assert(all_digits(d) == (all_digits(front) && 48 <= d.last() <= 57)) by {
            if all_digits(d) {
                assert forall|k: int| 0 <= k < front.len() implies 48 <= #[trigger] front[k] <= 57 by {
                    assert(front[k] == d[k]);
                }
                assert(d[n] == d.last());
            }
            if all_digits(front) && 48 <= d.last() <= 57 {
                assert forall|k: int| 0 <= k < d.len() implies 48 <= #[trigger] d[k] <= 57 by {
                    if k < n {
                        assert(front[k] == d[k]);
                    }
                }
            }
        }
        match cmd::read_digits(front) {
            Ok(_) => {
                assert(all_digits(d.take(n)));
                assert(d[n] == d.last());
                if 48 <= d.last() <= 57 {
                    assert(all_digits(d.take(n + 1)));
                }
            },
            Err(ParseSecsError::InvalidDigit) => {
                let k = choose|k: int|
                    0 <= k < front.len() && !(48 <= front[k] <= 57) && #[trigger] all_digits(
                        front.take(k),
                    ) && byte_value(front.take(k)) <= u64::MAX;
                assert(front.take(k) =~= d.take(k));
                assert(d[k] == front[k]);
                assert(all_digits(d.take(k)));
            },
            Err(_) => {
                let k = choose|k: int|
                    0 <= k <= front.len() && #[trigger] all_digits(front.take(k)) && byte_value(
                        front.take(k),
                    ) > u64::MAX;
                assert(front.take(k) =~= d.take(k));
                assert(all_digits(d.take(k)));
            },
        }
    } else {
        assert(all_digits(d));
    }
}

/// Seconds are read from decimal digits, with or without a `+` in front, as the number that these
/// stand for: whenever there are digits only and the number is not too large, and only then.
pub proof fn lemma_read_secs(b: Seq<u8>, d: Seq<u8>)
    requires
        d == b && !(b.len() > 1 && b[0] == 43) || b == seq![43u8] + d && d.len() > 0,
    ensures
        cmd::read_secs(b) is Ok <==> d.len() > 0 && all_digits(d) && byte_value(d) <= u64::MAX,
        cmd::read_secs(b) matches Ok(n) ==> n == byte_value(d),
        cmd::read_secs(b) == Err::<nat, ParseSecsError>(ParseSecsError::Empty) <==> b.len() == 0,
        cmd::read_secs(b) == Err::<nat, ParseSecsError>(ParseSecsError::InvalidDigit) ==> exists|
            k: int,
        |
            0 <= k < d.len() && !(48 <= d[k] <= 57) && #[trigger] all_digits(d.take(k))
                && byte_value(d.take(k)) <= u64::MAX,
        cmd::read_secs(b) == Err::<nat, ParseSecsError>(ParseSecsError::PosOverflow) ==> exists|
            k: int,
        | 0 <= k <= d.len() && #[trigger] all_digits(d.take(k)) && byte_value(d.take(k)) > u64::MAX,
{
    lemma_read_digits(d);
    if d != b {
        assert(b.skip(1) =~= d);
    } else if b.len() > 0 {
        assert(cmd::read_secs(b) == cmd::read_digits(b));
    }
}

/// Trimming a text cuts white space off its ends, and all of it.
pub proof fn lemma_trim(s: Seq<char>)
    ensures
        exists|i: int, j: int|
            0 <= i <= j <= s.len() && text::trim(s) == #[trigger] s.subrange(i, j) && (forall|k: int|
                0 <= k < i || j <= k < s.len() ==> text::is_space(#[trigger] s[k])) && (i < j
                ==> !text::is_space(s[i]) && !text::is_space(s[j - 1])),
{
    let i = lemma_trim_start(s);
    let t = s.skip(i);
    let j = lemma_trim_end(t);
    assert(t.take(j) =~= s.subrange(i, i + j));
    assert forall|k: int| 0 <= k < i || i + j <= k < s.len() implies text::is_space(
        #[trigger] s[k],
    ) by {
        if k >= i + j {
            assert(t[k - i] == s[k]);
        }
    }
    if j > 0 {
        assert(t[0] == s[i]);
        assert(t[j - 1] == s[i + j - 1]);
    }
}

proof fn lemma_trim_start(s: Seq<char>) -> (i: int)
    ensures
        0 <= i <= s.len(),
        text::trim_start(s) == s.skip(i),
        forall|k: int| 0 <= k < i ==> text::is_space(#[trigger] s[k]),
        i < s.len() ==> !text::is_space(s[i]),
    decreases s.len(),
{
    if s.len() > 0 && text::is_space(s[0]) {
        let t = s.drop_first();
        let i = lemma_trim_start(t);
        assert(t.skip(i) =~= s.skip(i + 1));
        assert forall|k: int| 0 <= k < i + 1 implies text::is_space(#[trigger] s[k]) by {
            if k > 0 {
                assert(t[k - 1] == s[k]);
            }
        }
        if i < t.len() {
            assert(t[i] == s[i + 1]);
        }
        i + 1
    } else {
        assert(s.skip(0) =~= s);
        0
    }
}

proof fn lemma_trim_end(s: Seq<char>) -> (j: int)
    ensures
        0 <= j <= s.len(),
        text::trim_end(s) == s.take(j),
        forall|k: int| j <= k < s.len() ==> text::is_space(#[trigger] s[k]),
        j > 0 ==> !text::is_space(s[j - 1]),
    decreases s.len(),
{
    if s.len() > 0 && text::is_space(s.last()) {
        let t = s.drop_last();
        let j = lemma_trim_end(t);
        assert(t.take(j) =~= s.take(j));
        assert forall|k: int| j <= k < s.len() implies text::is_space(#[trigger] s[k]) by {
            if k < t.len() {
                assert(t[k] == s[k]);
            }
        }
        j
    } else {
        assert(s.take(s.len() as int) =~= s);
        s.len() as int
    }
}

/// Words with a comma between each two.
pub open spec fn comma_joined(parts: Seq<Seq<char>>) -> Seq<char>
    decreases parts.len(),
{
    if parts.len() == 0 {
        seq![]
    } else if parts.len() == 1 {
        parts[0]
    } else {
        comma_joined(parts.drop_last()).push(',') + parts.last()
    }
}

/// A list is parted at its commas, and nowhere else: no part holds one, and put together again
/// the parts are the list.
pub proof fn lemma_comma_parts(s: Seq<char>)
    ensures
        cmd::comma_parts(s).len() > 0,
        comma_joined(cmd::comma_parts(s)) == s,
        forall|k: int|
            0 <= k < cmd::comma_parts(s).len() ==> !(#[trigger] cmd::comma_parts(s)[k]).contains(
                ',',
            ),
    decreases s.len(),
{
    let parts = cmd::comma_parts(s);
    if s.len() == 0 {
        assert(comma_joined(parts) =~= s);
    } else {
        let front = cmd::comma_parts(s.drop_last());
        let n = front.len() - 1;
        lemma_comma_parts(s.drop_last());
        if s.last() == ',' {
            assert(parts.drop_last() =~= front);
            assert(comma_joined(parts) =~= s);
            assert forall|k: int| 0 <= k < parts.len() implies !(#[trigger] parts[k]).contains(',') by {
                if k <= n {
                    assert(parts[k] == front[k]);
                }
            }
        } else {
            assert(parts.drop_last() =~= front.drop_last());
            assert(parts.last() == front.last().push(s.last()));
            if n == 0 {
                assert(comma_joined(parts) =~= s);
            } else {
                assert(comma_joined(parts) =~= comma_joined(front).push(s.last()));
                assert(comma_joined(parts) =~= s);
            }
            assert forall|k: int| 0 <= k < parts.len() implies !(#[trigger] parts[k]).contains(',') by {
                if k < n {
                    assert(parts[k] == front[k]);
                } else {
                    let w = front[n];
                    assert(!w.contains(','));
                    assert forall|i: int| 0 <= i < parts[k].len() implies parts[k][i] != ',' by {
                        if i < w.len() {
                            assert(w.contains(w[i]));
                        }
                    }
                }
            }
        }
    }
}

/// A word is among the extensions exactly if some part of the list is that word, with or without
/// white space around it.
pub proof fn lemma_words(parts: Seq<Seq<char>>, w: Seq<char>)
    ensures
        cmd::words(parts).contains(w) <==> exists|k: int|
            0 <= k < parts.len() && text::trim(#[trigger] parts[k]) == w,
{
    let trimmed = parts.map_values(|w: Seq<char>| text::trim(w));
    if cmd::words(parts).contains(w) {
        let k = choose|k: int| 0 <= k < trimmed.len() && trimmed[k] == w;
        assert(text::trim(parts[k]) == w);
    }
    if exists|k: int| 0 <= k < parts.len() && text::trim(#[trigger] parts[k]) == w {
        let k = choose|k: int| 0 <= k < parts.len() && text::trim(#[trigger] parts[k]) == w;
        assert(trimmed[k] == w);
    }
}

/// Every moment before the year 10000 can be written.
pub proof fn lemma_writable(secs: u64, nanos: u32)
    requires
        secs < 253402300800,
        nanos < 1_000_000_000,
    ensures
        encode::is_writable(Duration { secs, nanos }),
{
}

/// In small letters, ASCII capitals are their small letters and all else is as it was.
pub proof fn lemma_lower(b: Seq<u8>)
    ensures
        text::lower(b) == Seq::new(
            b.len(),
            |k: int|
                if 65 <= b[k] <= 90 {
                    (b[k] + 32) as u8
                } else {
                    b[k]
                },
        ),
{
    assert(text::lower(b) =~= Seq::new(
        b.len(),
        |k: int|
            if 65 <= b[k] <= 90 {
                (b[k] + 32) as u8
            } else {
                b[k]
            },
    ));
}

/// Two texts are the same word exactly if they agree byte by byte, but that an ASCII capital and
/// the small letter to it agree too.
pub proof fn lemma_same_word(a: Seq<char>, b: Seq<char>)
    ensures
        text::same_word(a, b) <==> text::utf8(a).len() == text::utf8(b).len() && forall|k: int|
            0 <= k < text::utf8(a).len() ==> {
                let (x, y) = (#[trigger] text::utf8(a)[k], text::utf8(b)[k]);
                x == y || (65 <= x <= 90 && y == x + 32) || (65 <= y <= 90 && x == y + 32)
            },
{
    let (p, q) = (text::utf8(a), text::utf8(b));
    let (x, y) = (text::lower(p), text::lower(q));
    if text::same_word(a, b) {
        assert(x.len() == p.len() && y.len() == q.len());
        assert forall|k: int| 0 <= k < p.len() implies ({
            let (x, y) = (#[trigger] p[k], q[k]);
            x == y || (65 <= x <= 90 && y == x + 32) || (65 <= y <= 90 && x == y + 32)
        }) by {
            assert(x[k] == y[k]);
        }
    }
    if p.len() == q.len() && forall|k: int|
        0 <= k < p.len() ==> {
            let (x, y) = (#[trigger] p[k], q[k]);
            x == y || (65 <= x <= 90 && y == x + 32) || (65 <= y <= 90 && x == y + 32)
        } {
        assert forall|k: int| 0 <= k < x.len() implies x[k] == y[k] by {
            let z = p[k];
        }
        assert(x =~= y);
    }
}

} // verus!
