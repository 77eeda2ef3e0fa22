//! The image links of a Markdown text: `![alt](link)`.
//!
//! The text is read as its UTF-8 bytes. An image link stays on one line, and each image link of a
//! line is read by itself. Of what can be read at one place,
//!
//! - an alternative text in which the brackets come in pairs comes first, so that it may hold
//!   links and images of its own; failing that, the first `](` ends it, and no image link may
//!   start in it;
//! - the link runs on to the last `)` that it can reach: no `)` in it closes a parenthesis that
//!   was not opened in it, and no image link may start in it. So it ends where its parentheses
//!   have come in pairs, or else at the last `)` there is;
//! - a link that starts with `)` comes last, and only runs on to the last `)` there is.
//!
//! A bracket or parenthesis behind a `\` does not count, and neither does a parenthesis in a link
//! between two `"` or between `<` and `>`.
use vstd::prelude::*;
use crate::text;

verus! {

pub const NEWLINE: u8 = 10;

pub const CARRIAGE_RETURN: u8 = 13;

pub const BANG: u8 = 33;

pub const QUOTE: u8 = 34;

pub const OPEN_PAREN: u8 = 40;

pub const CLOSE_PAREN: u8 = 41;

pub const LESS: u8 = 60;

pub const GREATER: u8 = 62;

pub const OPEN_BRACKET: u8 = 91;

pub const BACKSLASH: u8 = 92;

pub const CLOSE_BRACKET: u8 = 93;

/// The place of an image link: where its `!` stands, its `](`, and its last `)`.
#[verifier::ext_equal]
pub ghost struct Image {
    pub start: int,
    pub alt_end: int,
    pub link_end: int,
}

impl Image {
    /// Where the alternative text starts.
    pub open spec fn alt_start(self) -> int {
        self.start + 2
    }

    /// Where the link starts.
    pub open spec fn link_start(self) -> int {
        self.alt_end + 2
    }

    /// Where the text behind the image link starts.
    pub open spec fn end(self) -> int {
        self.link_end + 1
    }

    /// The whole image link.
    pub open spec fn whole(self, b: Seq<u8>) -> Seq<u8> {
        b.subrange(self.start, self.end())
    }

    /// The alternative text.
    pub open spec fn alt(self, b: Seq<u8>) -> Seq<u8> {
        b.subrange(self.alt_start(), self.alt_end)
    }

    /// The link.
    pub open spec fn link(self, b: Seq<u8>) -> Seq<u8> {
        b.subrange(self.link_start(), self.link_end)
    }
}

/// Whether a `![` stands at a place.
pub open spec fn opens_image(b: Seq<u8>, k: int) -> bool {
    b[k] == BANG && b[k + 1] == OPEN_BRACKET
}

/// Whether a place looks like that of an image link: `![`, any text, `](`, a link that is not
/// empty, and `)`, all on one line.
pub open spec fn has_shape(b: Seq<u8>, m: Image) -> bool {
    &&& 0 <= m.start
    &&& m.alt_start() <= m.alt_end
    &&& m.link_start() < m.link_end < b.len()
    &&& opens_image(b, m.start)
    &&& b[m.alt_end] == CLOSE_BRACKET && b[m.alt_end + 1] == OPEN_PAREN
    &&& b[m.link_end] == CLOSE_PAREN
    &&& forall|k: int| m.start <= k < m.link_end ==> b[k] != NEWLINE
}

/// Whether what looks like an image link, with no further `![` in its alternative text, starts
/// at a place.
pub open spec fn could_start(b: Seq<u8>, k: int) -> bool {
    exists|m: Image|
        #![trigger has_shape(b, m)]
        has_shape(b, m) && m.start == k && forall|j: int|
            m.alt_start() <= j < m.alt_end ==> !#[trigger] opens_image(b, j)
}

/// Whether nothing that looks like an image link starts between two places.
pub open spec fn is_clear(b: Seq<u8>, i: int, e: int) -> bool {
    forall|k: int| i <= k < e ==> !#[trigger] could_start(b, k)
}

/// Whether the brackets between two places come in pairs, when `depth` of them are open at the
/// first place. What stands behind a `\` does not count.
pub open spec fn pairs_up(b: Seq<u8>, i: int, e: int, depth: nat) -> bool
    decreases e + 1 - i,
{
    if i >= e {
        i == e && depth == 0
    } else if b[i] == BACKSLASH {
        pairs_up(b, i + 2, e, depth)
    } else if b[i] == OPEN_BRACKET {
        pairs_up(b, i + 1, e, depth + 1)
    } else if b[i] == CLOSE_BRACKET {
        depth > 0 && pairs_up(b, i + 1, e, (depth - 1) as nat)
    } else {
        pairs_up(b, i + 1, e, depth)
    }
}

/// The byte that ends a stretch in which parentheses do not count, by the byte that starts it.
pub open spec fn closer(byte: u8) -> Option<u8> {
    if byte == QUOTE {
        Some(QUOTE)
    } else if byte == LESS {
        Some(GREATER)
    } else {
        None
    }
}

/// Whether no `)` between two places closes a parenthesis that was not opened there, when `depth`
/// of them are open at the first place. What stands behind a `\`, between two `"` or between `<`
/// and `>` does not count.
pub open spec fn stays_open(b: Seq<u8>, i: int, e: int, depth: nat) -> bool
    decreases e + 1 - i,
{
    if i >= e {
        true
    } else if b[i] == BACKSLASH {
        stays_open(b, i + 2, e, depth)
    } else if b[i] == OPEN_PAREN {
        stays_open(b, i + 1, e, depth + 1)
    } else if b[i] == CLOSE_PAREN {
        depth > 0 && stays_open(b, i + 1, e, (depth - 1) as nat)
    } else {
        match closer(b[i]) {
            Some(c) if i < text::run_end(b, c, i + 1) < e => stays_open(
                b,
                text::run_end(b, c, i + 1) + 1,
                e,
                depth,
            ),
            _ => stays_open(b, i + 1, e, depth),
        }
    }
}

/// Whether the alternative text of what looks like an image link has its brackets in pairs.
pub open spec fn is_paired(b: Seq<u8>, m: Image) -> bool {
    pairs_up(b, m.alt_start(), m.alt_end, 0)
}

/// Whether the link of what looks like an image link does not start with `)`.
pub open spec fn is_proper(b: Seq<u8>, m: Image) -> bool {
    b[m.link_start()] != CLOSE_PAREN
}

/// Whether an image link can be read at a place.
pub open spec fn is_image(b: Seq<u8>, m: Image) -> bool {
    &&& has_shape(b, m)
    &&& is_paired(b, m) || is_clear(b, m.alt_start(), m.alt_end)
    &&& is_clear(b, m.link_start(), m.link_end)
    &&& is_proper(b, m) ==> stays_open(b, m.link_start(), m.link_end, 0)
}

/// Whether the first of two places is to be taken rather than the second, or is the same.
pub open spec fn preferred(b: Seq<u8>, m: Image, t: Image) -> bool {
    if m.start != t.start {
        m.start < t.start
    } else if is_proper(b, m) != is_proper(b, t) {
        is_proper(b, m)
    } else if is_paired(b, m) != is_paired(b, t) {
        is_paired(b, m)
    } else if m.alt_end != t.alt_end {
        m.alt_end < t.alt_end
    } else {
        m.link_end >= t.link_end
    }
}

/// Whether `m` is the image link found when looking from `from` on.
pub open spec fn is_first(b: Seq<u8>, from: int, m: Image) -> bool {
    &&& is_image(b, m)
    &&& from <= m.start
    &&& forall|t: Image| is_image(b, t) && from <= t.start ==> preferred(b, m, t)
}

/// The image links found one after the other when looking from `from` on.
pub open spec fn images_from(b: Seq<u8>, from: int) -> Seq<Image>
    decreases b.len() - from,
{
    if exists|m: Image| is_first(b, from, m) {
        let m = choose|m: Image| is_first(b, from, m);
        seq![m] + images_from(b, m.end())
    } else {
        seq![]
    }
}

/// The image links of a text.
pub open spec fn images(b: Seq<u8>) -> Seq<Image> {
    images_from(b, 0)
}

/// The place of an image link in the bytes of a text.
#[derive(Clone, Copy, Debug)]
pub struct ImageSpan {
    pub start: usize,
    pub alt_end: usize,
    pub link_end: usize,
}

impl View for ImageSpan {
    type V = Image;

    open spec fn view(&self) -> Image {
        Image {
            start: self.start as int,
            alt_end: self.alt_end as int,
            link_end: self.link_end as int,
        }
    }
}

/// The places in a list.
pub open spec fn places(v: Seq<ImageSpan>) -> Seq<Image> {
    v.map_values(|s: ImageSpan| s@)
}

/// Whether the line that `i` is on goes on up to `e`.
spec fn is_rest_of_line(b: Seq<u8>, i: int, e: int) -> bool {
    &&& 0 <= i <= e <= b.len()
    &&& e < b.len() ==> b[e] == NEWLINE
    &&& forall|k: int| i <= k < e ==> b[k] != NEWLINE
}

/// What looks like an image link ends on the line it starts on.
proof fn lemma_shape_on_line(b: Seq<u8>, i: int, e: int, m: Image)
    requires
        is_rest_of_line(b, i, e),
        has_shape(b, m),
        i <= m.start < e,
    ensures
        m.link_end < e,
{
    if m.link_end >= e {
        assert(m.link_end != e);
        assert(b[e] != NEWLINE);
    }
}

/// Decides whether what looks like an image link, with no further `![` in its alternative text,
/// starts at a place.
fn check_start(b: &[u8], k: usize, e: usize) -> (res: bool)
    requires
        is_rest_of_line(b@, k as int, e as int),
        k < e,
    ensures
        res == could_start(b@, k as int),
{
    if e - k < 2 || b[k] != BANG || b[k + 1] != OPEN_BRACKET {
        proof {
            assert forall|m: Image| has_shape(b@, m) implies m.start != k by {
                if m.start == k {
                    lemma_shape_on_line(b@, k as int, e as int, m);
                    assert(opens_image(b@, k as int));
                }
            }
        }
        return false;
    }
    let mut a: usize = k + 2;
    while e - a > 1
        invariant
            is_rest_of_line(b@, k as int, e as int),
            k + 2 <= a <= e,
            b@[k as int] == BANG && b@[k + 1] == OPEN_BRACKET,
            forall|j: int| k + 2 <= j < a ==> !#[trigger] opens_image(b@, j),
            forall|j: int|
                k + 2 <= j < a && b@[j] == CLOSE_BRACKET ==> #[trigger] b@[j + 1] != OPEN_PAREN,
        decreases e - a,
    {
        if b[a] == BANG && b[a + 1] == OPEN_BRACKET {
            proof {
                assert(opens_image(b@, a as int));
                assert forall|m: Image| has_shape(b@, m) && m.start == k implies exists|j: int|
                    m.alt_start() <= j < m.alt_end && #[trigger] opens_image(b@, j) by {
                    if m.alt_end < a {
                        assert(b@[m.alt_end + 1] != OPEN_PAREN);
                    }
                    assert(m.alt_start() <= a < m.alt_end);
                }
            }
            return false;
        }
        if b[a] == CLOSE_BRACKET && b[a + 1] == OPEN_PAREN {
            if e - a > 3 {
                let mut j: usize = a + 3;
                while j < e
                    invariant
                        is_rest_of_line(b@, k as int, e as int),
                        k + 2 <= a,
                        a + 3 <= j <= e,
                        b@[k as int] == BANG && b@[k + 1] == OPEN_BRACKET,
                        b@[a as int] == CLOSE_BRACKET && b@[a + 1] == OPEN_PAREN,
                        forall|i: int| k + 2 <= i < a ==> !#[trigger] opens_image(b@, i),
                        forall|i: int| a + 3 <= i < j ==> b@[i] != CLOSE_PAREN,
                    decreases e - j,
                {
                    if b[j] == CLOSE_PAREN {
                        proof {
                            let m = Image { start: k as int, alt_end: a as int, link_end: j as int };
                            assert(opens_image(b@, k as int));
                            assert(has_shape(b@, m));
                        }
                        return true;
                    }
                    j += 1;
                }
            }
            proof {
                assert forall|m: Image| has_shape(b@, m) implies m.start != k by {
                    if m.start == k {
                        lemma_shape_on_line(b@, k as int, e as int, m);
                        if m.alt_end < a {
                            assert(b@[m.alt_end + 1] != OPEN_PAREN);
                        }
                        assert(a + 3 <= m.link_end);
                    }
                }
            }
            return false;
        }
        a += 1;
    }
    proof {
        assert forall|m: Image| has_shape(b@, m) implies m.start != k by {
            if m.start == k {
                lemma_shape_on_line(b@, k as int, e as int, m);
                assert(m.alt_end < a);
                assert(b@[m.alt_end + 1] != OPEN_PAREN);
            }
        }
    }
    false
}

/// Finds where, from a place on, something that looks like an image link starts, or the end of
/// the line.
fn find_stop(b: &[u8], from: usize, e: usize) -> (res: usize)
    requires
        is_rest_of_line(b@, from as int, e as int),
    ensures
        from <= res <= e,
        is_clear(b@, from as int, res as int),
        res < e ==> could_start(b@, res as int),
{
    let mut k: usize = from;
    while k < e
        invariant
            is_rest_of_line(b@, from as int, e as int),
            from <= k <= e,
            is_clear(b@, from as int, k as int),
        decreases e - k,
    {
        if check_start(b, k, e) {
            return k;
        }
        k += 1;
    }
    k
}

/// Decides whether no `)` between two places closes a parenthesis that was not opened there.
fn check_open(b: &[u8], from: usize, e: usize) -> (res: bool)
    requires
        from <= e <= b@.len(),
    ensures
        res == stays_open(b@, from as int, e as int, 0),
{
    let mut i: usize = from;
    let mut depth: usize = 0;
    while i < e
        invariant
            from <= i <= e <= b@.len(),
            depth <= i - from,
            stays_open(b@, from as int, e as int, 0) == stays_open(
                b@,
                i as int,
                e as int,
                depth as nat,
            ),
        decreases e - i,
    {
        let byte: u8 = b[i];
        if byte == BACKSLASH {
            if e - i == 1 {
                assert(stays_open(b@, i + 2, e as int, depth as nat));
                return true;
            }
            i += 2;
        } else if byte == OPEN_PAREN {
            depth += 1;
            i += 1;
        } else if byte == CLOSE_PAREN {
            if depth == 0 {
                return false;
            }
            depth -= 1;
            i += 1;
        } else if byte == QUOTE || byte == LESS {
            let c: u8 = if byte == QUOTE {
                QUOTE
            } else {
                GREATER
            };
            let q: usize = text::find_run_end(b, c, i + 1);
            if q < e {
                i = q + 1;
            } else {
                i += 1;
            }
        } else {
            i += 1;
        }
    }
    true
}

/// Whether a link can run from one place to another.
spec fn is_link(b: Seq<u8>, from: int, e: int) -> bool {
    &&& from < e
    &&& b[e] == CLOSE_PAREN
    &&& is_clear(b, from, e)
    &&& b[from] != CLOSE_PAREN ==> stays_open(b, from, e, 0)
}

/// Finds the last place on the line that a link can run to.
fn find_link_end(b: &[u8], from: usize, e: usize) -> (res: Option<usize>)
    requires
        is_rest_of_line(b@, from as int, e as int),
    ensures
        match res {
            Some(end) => {
                &&& end < e
                &&& is_link(b@, from as int, end as int)
                &&& forall|t: int| #[trigger] is_link(b@, from as int, t) && t < e ==> t <= end
            },
            None => forall|t: int| t < e ==> !#[trigger] is_link(b@, from as int, t),
        },
{
    let stop: usize = find_stop(b, from, e);
    proof {
        assert forall|t: int| t < e && #[trigger] is_link(b@, from as int, t) implies t < stop by {
            if t >= stop {
                assert(could_start(b@, stop as int));
                if t == stop {
                    assert(b@[t] == BANG);
                }
            }
        }
    }
    let mut at: usize = stop;
    while at > from
        invariant
            is_rest_of_line(b@, from as int, e as int),
            from <= at <= stop <= e,
            is_clear(b@, from as int, stop as int),
            forall|t: int| t < e && #[trigger] is_link(b@, from as int, t) ==> t < at,
        decreases at,
    {
        at -= 1;
        if at > from && b[at] == CLOSE_PAREN && (b[from] == CLOSE_PAREN || check_open(b, from, at)) {
            assert(is_link(b@, from as int, at as int));
            return Some(at);
        }
    }
    None
}

/// Finds the `]` up to which brackets come in pairs.
fn find_close(b: &[u8], from: usize, e: usize) -> (res: Option<usize>)
    requires
        from <= e <= b@.len(),
    ensures
        match res {
            Some(a) => {
                &&& from <= a < e
                &&& b@[a as int] == CLOSE_BRACKET
                &&& pairs_up(b@, from as int, a as int, 0)
                &&& forall|t: int|
                    from <= t < e && b@[t] == CLOSE_BRACKET && #[trigger] pairs_up(
                        b@,
                        from as int,
                        t,
                        0,
                    ) ==> t == a
            },
            None => forall|t: int|
                from <= t < e && b@[t] == CLOSE_BRACKET ==> !#[trigger] pairs_up(
                    b@,
                    from as int,
                    t,
                    0,
                ),
        },
{
    let mut i: usize = from;
    let mut depth: usize = 0;
    while i < e
        invariant
            from <= i <= e <= b@.len(),
            depth <= i - from,
            forall|t: int|
                i <= t < e ==> #[trigger] pairs_up(b@, from as int, t, 0) == pairs_up(
                    b@,
                    i as int,
                    t,
                    depth as nat,
                ),
            forall|t: int|
                from <= t < i && b@[t] == CLOSE_BRACKET ==> !#[trigger] pairs_up(
                    b@,
                    from as int,
                    t,
                    0,
                ),
        decreases e - i,
    {
        let byte: u8 = b[i];
        assert(pairs_up(b@, from as int, i as int, 0) == (depth == 0));
        if byte == BACKSLASH {
            if e - i == 1 {
                return None;
            }
            assert(!pairs_up(b@, from as int, i + 1, 0)) by {
                assert(!pairs_up(b@, i + 2, i + 1, depth as nat));
            }
            i += 2;
        } else if byte == OPEN_BRACKET {
            depth += 1;
            i += 1;
        } else if byte == CLOSE_BRACKET {
            if depth == 0 {
                return Some(i);
            }
            depth -= 1;
            i += 1;
        } else {
            i += 1;
        }
    }
    None
}

/// Reads the image link with the `](` at `a`, if there is one whose link does not start with `)`,
/// or does, as asked for.
fn read_at(b: &[u8], s: usize, a: usize, e: usize, proper: bool) -> (res: Option<usize>)
    requires
        is_rest_of_line(b@, s as int, e as int),
        s + 2 <= a < e,
        opens_image(b@, s as int),
        b@[a as int] == CLOSE_BRACKET,
    ensures
        ({
            let at = |t: int| Image { start: s as int, alt_end: a as int, link_end: t };
            match res {
                Some(end) => {
                    &&& end < e
                    &&& has_shape(b@, at(end as int))
                    &&& is_link(b@, a + 2, end as int)
                    &&& is_proper(b@, at(end as int)) == proper
                    &&& forall|m: Image|
                        #[trigger] is_image(b@, m) && m.start == s && m.alt_end == a ==> m.link_end
                            <= end
                },
                None => forall|m: Image|
                    #[trigger] is_image(b@, m) && m.start == s && is_proper(b@, m) == proper
                        ==> m.alt_end != a,
            }
        }),
{
    proof {
        assert forall|m: Image| #[trigger] is_image(b@, m) && m.start == s && m.alt_end == a implies a
            + 3 < e && b@[a + 1] == OPEN_PAREN && m.link_end < e && is_link(
            b@,
            a + 2,
            m.link_end,
        ) by {
            lemma_shape_on_line(b@, s as int, e as int, m);
        }
    }
    if e - a < 4 || b[a + 1] != OPEN_PAREN || (b[a + 2] != CLOSE_PAREN) != proper {
        return None;
    }
    find_link_end(b, a + 2, e)
}

/// Reads the image link at a place, if there is one whose link does not start with `)`, or does,
/// as asked for.
fn read_kind(b: &[u8], s: usize, e: usize, proper: bool) -> (res: Option<ImageSpan>)
    requires
        is_rest_of_line(b@, s as int, e as int),
        s + 2 <= e,
        opens_image(b@, s as int),
    ensures
        match res {
            Some(m) => {
                &&& m.start == s
                &&& is_image(b@, m@)
                &&& is_proper(b@, m@) == proper
                &&& forall|t: Image|
                    #[trigger] is_image(b@, t) && t.start == s && is_proper(b@, t) == proper
                        ==> preferred(b@, m@, t)
            },
            None => forall|t: Image|
                #[trigger] is_image(b@, t) && is_proper(b@, t) == proper ==> t.start != s,
        },
{
    let ghost wanted = |t: Image| is_image(b@, t) && t.start == s && is_proper(b@, t) == proper;
    proof {
        assert forall|t: Image| #[trigger] is_image(b@, t) && t.start == s implies s + 2 <= t.alt_end
            < e && b@[t.alt_end] == CLOSE_BRACKET by {
            lemma_shape_on_line(b@, s as int, e as int, t);
        }
    }
    if let Some(a) = find_close(b, s + 2, e) {
        if let Some(end) = read_at(b, s, a, e, proper) {
            let m = ImageSpan { start: s, alt_end: a, link_end: end };
            assert(is_image(b@, m@));
            return Some(m);
        }
    }
    assert forall|t: Image| #[trigger] is_image(b@, t) && wanted(t) implies !is_paired(b@, t) by {}
    let stop: usize = find_stop(b, s + 2, e);
    let mut a: usize = s + 2;
    while a < stop
        invariant
            is_rest_of_line(b@, s as int, e as int),
            opens_image(b@, s as int),
            s + 2 <= a <= stop <= e,
            is_clear(b@, s + 2, stop as int),
            wanted == (|t: Image|
                is_image(b@, t) && t.start == s && is_proper(b@, t) == proper),
            forall|t: Image| #[trigger] is_image(b@, t) && wanted(t) ==> !is_paired(b@, t),
            forall|t: Image| #[trigger] is_image(b@, t) && wanted(t) ==> t.alt_end >= a,
        decreases stop - a,
    {
        if b[a] == CLOSE_BRACKET {
            if let Some(end) = read_at(b, s, a, e, proper) {
                let m = ImageSpan { start: s, alt_end: a, link_end: end };
                assert(is_image(b@, m@));
                return Some(m);
            }
        }
        a += 1;
    }
    proof {
        assert forall|t: Image| #[trigger] is_image(b@, t) && is_proper(b@, t) == proper implies t.start
            != s by {
            if t.start == s {
                assert(wanted(t));
                assert(could_start(b@, stop as int));
                assert(b@[stop as int] == BANG);
            }
        }
    }
    None
}

/// Reads the image link at a place, if there is one.
fn read_image(b: &[u8], s: usize, e: usize) -> (res: Option<ImageSpan>)
    requires
        is_rest_of_line(b@, s as int, e as int),
        s + 2 <= e,
        opens_image(b@, s as int),
    ensures
        match res {
            Some(m) => {
                &&& m.start == s
                &&& is_image(b@, m@)
                &&& forall|t: Image|
                    #[trigger] is_image(b@, t) && t.start == s ==> preferred(b@, m@, t)
            },
            None => forall|t: Image| #[trigger] is_image(b@, t) ==> t.start != s,
        },
{
    match read_kind(b, s, e, true) {
        Some(m) => Some(m),
        None => read_kind(b, s, e, false),
    }
}

/// Finds the image links of a text.
pub fn find_images(text: &str) -> (res: Vec<ImageSpan>)
    ensures
        places(res@) == images(text::utf8(text@)),
{
    let b = text.as_bytes();
    let mut found: Vec<ImageSpan> = Vec::new();
    let mut s: usize = 0;
    assert(places(found@) + images_from(b@, 0) =~= images_from(b@, 0));
    while s < b.len()
        invariant
            b@ == text::utf8(text@),
            s <= b@.len(),
            images(b@) == places(found@) + images_from(b@, s as int),
        decreases b.len() - s,
    {
        if b.len() - s >= 2 && b[s] == BANG && b[s + 1] == OPEN_BRACKET {
            let e: usize = text::find_run_end(b, NEWLINE, s);
            proof {
                text::lemma_run_end(b@, NEWLINE, s as int);
                assert(e != s && e != s + 1);
                assert(opens_image(b@, s as int));
            }
            if let Some(m) = read_image(b, s, e) {
                let ghost had = places(found@);
                found.push(m);
                proof {
                    assert(is_first(b@, s as int, m@));
                    let t = choose|t: Image| is_first(b@, s as int, t);
                    lemma_first_unique(b@, s as int, m@, t);
                    assert(places(found@) =~= had.push(m@));
                    assert(had + (seq![m@] + images_from(b@, m@.end())) =~= had.push(m@)
                        + images_from(b@, m@.end()));
                }
                s = m.link_end + 1;
                continue;
            }
        }
        proof {
            lemma_images_skip(b@, s as int, s + 1);
        }
        s += 1;
    }
    proof {
        assert forall|m: Image| !is_first(b@, s as int, m) by {}
        assert(places(found@) + Seq::<Image>::empty() =~= places(found@));
    }
    found
}

/// Where an image link can be read, one is found.
pub proof fn lemma_first_exists(b: Seq<u8>, from: int, t: Image)
    requires
        is_image(b, t),
        from <= t.start,
    ensures
        exists|m: Image| is_first(b, from, m),
    decreases
        t.start,
        (if is_proper(b, t) {
            0int
        } else {
            1int
        }),
        (if is_paired(b, t) {
            0int
        } else {
            1int
        }),
        t.alt_end,
        b.len() - t.link_end,
{
    if !is_first(b, from, t) {
        let u = choose|u: Image| is_image(b, u) && from <= u.start && !preferred(b, t, u);
        lemma_first_exists(b, from, u);
    }
}

/// No two image links are both found first.
pub proof fn lemma_first_unique(b: Seq<u8>, from: int, m: Image, t: Image)
    requires
        is_first(b, from, m),
        is_first(b, from, t),
    ensures
        m == t,
{
    assert(preferred(b, m, t) && preferred(b, t, m));
    assert(m =~= t);
}

/// The image links found are image links and follow each other. None is found only where none
/// can be read.
pub proof fn lemma_images(b: Seq<u8>, from: int)
    requires
        0 <= from,
    ensures
        forall|k: int|
            0 <= k < images_from(b, from).len() ==> {
                &&& is_image(b, #[trigger] images_from(b, from)[k])
                &&& from <= images_from(b, from)[k].start
            },
        forall|j: int, k: int|
            0 <= j < k < images_from(b, from).len() ==> (#[trigger] images_from(b, from)[j]).end()
                <= (#[trigger] images_from(b, from)[k]).start,
        images_from(b, from).len() == 0 ==> forall|t: Image| is_image(b, t) ==> t.start < from,
    decreases b.len() - from,
{
    let found = images_from(b, from);
    if exists|m: Image| is_first(b, from, m) {
        let m = choose|m: Image| is_first(b, from, m);
        let rest = images_from(b, m.end());
        lemma_images(b, m.end());
        assert(found == seq![m] + rest);
        assert forall|k: int| 0 <= k < found.len() implies is_image(b, #[trigger] found[k]) && from
            <= found[k].start by {
            if k > 0 {
                assert(found[k] == rest[k - 1]);
            }
        }
        assert forall|j: int, k: int| 0 <= j < k < found.len() implies (#[trigger] found[j]).end()
            <= (#[trigger] found[k]).start by {
            assert(found[k] == rest[k - 1]);
            if j > 0 {
                assert(found[j] == rest[j - 1]);
            }
        }
    } else {
        assert forall|t: Image| is_image(b, t) implies t.start < from by {
            if from <= t.start {
                lemma_first_exists(b, from, t);
            }
        }
    }
}

/// No image link is overlooked: wherever one can be read, it starts inside one that is found.
pub proof fn lemma_none_overlooked(b: Seq<u8>, from: int, t: Image)
    requires
        0 <= from <= t.start,
        is_image(b, t),
    ensures
        exists|k: int|
            0 <= k < images_from(b, from).len() && (#[trigger] images_from(b, from)[k]).start
                <= t.start < images_from(b, from)[k].end(),
    decreases b.len() - from,
{
    lemma_first_exists(b, from, t);
    let m = choose|m: Image| is_first(b, from, m);
    let rest = images_from(b, m.end());
    let found = images_from(b, from);
    assert(found == seq![m] + rest);
    assert(preferred(b, m, t));
    if t.start < m.end() {
        assert(found[0] == m);
    } else {
        lemma_none_overlooked(b, m.end(), t);
        let k = choose|k: int|
            0 <= k < rest.len() && (#[trigger] rest[k]).start <= t.start < rest[k].end();
        assert(found[k + 1] == rest[k]);
    }
}

/// Each image link of a line is found: one that can be read, that counts among those at its
/// place, and that none in front of it reaches into.
pub proof fn lemma_each_found(b: Seq<u8>, from: int, t: Image)
    requires
        0 <= from <= t.start,
        is_image(b, t),
        forall|u: Image| is_image(b, u) && u.start == t.start ==> preferred(b, t, u),
        forall|u: Image| is_image(b, u) && from <= u.start < t.start ==> u.end() <= t.start,
    ensures
        images_from(b, from).contains(t),
    decreases b.len() - from,
{
    lemma_first_exists(b, from, t);
    let m = choose|m: Image| is_first(b, from, m);
    let rest = images_from(b, m.end());
    let found = images_from(b, from);
    assert(found == seq![m] + rest);
    assert(preferred(b, m, t));
    if m.start == t.start {
        assert(m =~= t);
        assert(found[0] == t);
    } else {
        lemma_each_found(b, m.end(), t);
        let k = choose|k: int| 0 <= k < rest.len() && rest[k] == t;
        assert(found[k + 1] == t);
    }
}

/// Without a `)` nothing is closed.
proof fn lemma_nothing_closed(b: Seq<u8>, i: int, e: int, depth: nat)
    requires
        0 <= i,
        forall|k: int| i <= k < e ==> b[k] != CLOSE_PAREN,
    ensures
        stays_open(b, i, e, depth),
    decreases e + 1 - i,
{
    if i < e {
        lemma_nothing_closed(b, i + 1, e, depth);
        lemma_nothing_closed(b, i + 2, e, depth);
        lemma_nothing_closed(b, i + 1, e, depth + 1);
        if let Some(c) = closer(b[i]) {
            let q = text::run_end(b, c, i + 1);
            if i < q < e {
                lemma_nothing_closed(b, q + 1, e, depth);
            }
        }
    }
}

/// Where what looks like an image link starts, or behind it, an image link can be read.
proof fn lemma_start_is_read(b: Seq<u8>, k: int)
    requires
        0 <= k,
        could_start(b, k),
    ensures
        exists|t: Image| #[trigger] is_image(b, t) && k <= t.start,
    decreases b.len() - k,
{
    let u = choose|u: Image|
        #![trigger has_shape(b, u)]
        has_shape(b, u) && u.start == k && forall|j: int|
            u.alt_start() <= j < u.alt_end ==> !#[trigger] opens_image(b, j);
    if !is_clear(b, k + 1, u.link_end) {
        let j = choose|j: int| k + 1 <= j < u.link_end && #[trigger] could_start(b, j);
        lemma_start_is_read(b, j);
    } else {
        text::lemma_run_end(b, CLOSE_PAREN, u.link_start() + 1);
        let end = text::run_end(b, CLOSE_PAREN, u.link_start() + 1);
        assert(end <= u.link_end) by {
            if u.link_end < end {
                assert(b[u.link_end] != CLOSE_PAREN);
            }
        }
        let t = Image { link_end: end, ..u };
        assert(has_shape(b, t));
        if is_proper(b, t) {
            lemma_nothing_closed(b, t.link_start(), t.link_end, 0);
        }
        assert(is_image(b, t));
    }
}

/// What looks like an image link has a last `![` in front of its `](`.
proof fn lemma_shape_starts(b: Seq<u8>, m: Image)
    requires
        has_shape(b, m),
    ensures
        exists|k: int| m.start <= k && #[trigger] could_start(b, k),
    decreases m.alt_end - m.start,
{
    if exists|j: int| m.alt_start() <= j < m.alt_end && #[trigger] opens_image(b, j) {
        let j = choose|j: int| m.alt_start() <= j < m.alt_end && #[trigger] opens_image(b, j);
        let u = Image { start: j, ..m };
        assert(j + 1 != m.alt_end);
        assert(has_shape(b, u));
        lemma_shape_starts(b, u);
    } else {
        assert(could_start(b, m.start));
    }
}

/// Nothing that looks like an image link is passed over in silence: from it on, an image link is
/// found.
pub proof fn lemma_none_silent(b: Seq<u8>, from: int, m: Image)
    requires
        0 <= from <= m.start,
        has_shape(b, m),
    ensures
        images_from(b, from).len() > 0,
        images_from(b, from).last().end() > m.start,
{
    lemma_shape_starts(b, m);
    let k = choose|k: int| m.start <= k && #[trigger] could_start(b, k);
    lemma_start_is_read(b, k);
    let t = choose|t: Image| #[trigger] is_image(b, t) && k <= t.start;
    lemma_none_overlooked(b, from, t);
    lemma_images(b, from);
    let found = images_from(b, from);
    let n = choose|n: int|
        0 <= n < found.len() && (#[trigger] found[n]).start <= t.start < found[n].end();
    if n < found.len() - 1 {
        assert(found[n].end() <= found[found.len() - 1].start);
    }
}

/// Where the line that starts at `i` and stops at `e` ends: in front of its `\n` or `\r\n`.
pub open spec fn line_end(b: Seq<u8>, i: int, e: int) -> int {
    if i < e < b.len() && b[e - 1] == CARRIAGE_RETURN {
        e - 1
    } else {
        e
    }
}

/// A place `by` bytes further on.
pub open spec fn shifted(m: Image, by: int) -> Image {
    Image { start: m.start + by, alt_end: m.alt_end + by, link_end: m.link_end + by }
}

/// Places `by` bytes further on.
pub open spec fn all_shifted(v: Seq<Image>, by: int) -> Seq<Image> {
    v.map_values(|m: Image| shifted(m, by))
}

/// Where no image link starts between two places, looking from either finds the same.
proof fn lemma_images_skip(b: Seq<u8>, from: int, to: int)
    requires
        from <= to,
        forall|t: Image| is_image(b, t) ==> !(from <= t.start < to),
    ensures
        images_from(b, from) == images_from(b, to),
{
    assert forall|m: Image| is_first(b, from, m) == is_first(b, to, m) by {}
    if exists|m: Image| is_first(b, from, m) {
        let m = choose|m: Image| is_first(b, from, m);
        assert(is_first(b, to, m));
        let t = choose|m: Image| is_first(b, to, m);
        lemma_first_unique(b, to, m, t);
    }
}

/// Whether brackets pair up does not depend on what stands in front.
proof fn lemma_pairs_shift(b: Seq<u8>, l: Seq<u8>, by: int, i: int, e: int, depth: nat)
    requires
        0 <= i,
        forall|k: int| i <= k < e ==> l[k] == #[trigger] b[k + by],
    ensures
        pairs_up(b, i + by, e + by, depth) == pairs_up(l, i, e, depth),
    decreases e + 1 - i,
{
    if i < e {
        assert(l[i] == b[i + by]);
        lemma_pairs_shift(b, l, by, i + 1, e, depth);
        lemma_pairs_shift(b, l, by, i + 2, e, depth);
        lemma_pairs_shift(b, l, by, i + 1, e, depth + 1);
        if depth > 0 {
            lemma_pairs_shift(b, l, by, i + 1, e, (depth - 1) as nat);
        }
    }
}

/// Where the next of some byte stands in front of a place does not depend on what stands around.
proof fn lemma_run_shift(b: Seq<u8>, i0: int, c0: int, stop: u8, i: int, e: int)
    requires
        0 <= i0 <= c0 <= b.len(),
        0 <= i <= e <= c0 - i0,
    ensures
        ({
            let q = text::run_end(b.subrange(i0, c0), stop, i);
            let r = text::run_end(b, stop, i + i0);
            (q < e) == (r < e + i0) && (q < e ==> r == q + i0)
        }),
{
    let l = b.subrange(i0, c0);
    let q = text::run_end(l, stop, i);
    let r = text::run_end(b, stop, i + i0);
    text::lemma_run_end(l, stop, i);
    text::lemma_run_end(b, stop, i + i0);
    if q < e {
        assert forall|k: int| i + i0 <= k < q + i0 implies b[k] != stop by {
            assert(l[k - i0] != stop);
        }
        text::lemma_run_end_is(b, stop, i + i0, q + i0);
    }
    if r < e + i0 {
        assert forall|k: int| i <= k < r - i0 implies l[k] != stop by {
            assert(b[k + i0] != stop);
        }
        text::lemma_run_end_is(l, stop, i, r - i0);
    }
}

/// Whether a link stays open does not depend on what stands around it.
proof fn lemma_open_shift(b: Seq<u8>, i0: int, c0: int, i: int, e: int, depth: nat)
    requires
        0 <= i0 <= c0 <= b.len(),
        0 <= i,
        e <= c0 - i0,
    ensures
        stays_open(b, i + i0, e + i0, depth) == stays_open(b.subrange(i0, c0), i, e, depth),
    decreases e + 1 - i,
{
    let l = b.subrange(i0, c0);
    if i < e {
        assert(l[i] == b[i + i0]);
        lemma_open_shift(b, i0, c0, i + 1, e, depth);
        lemma_open_shift(b, i0, c0, i + 2, e, depth);
        lemma_open_shift(b, i0, c0, i + 1, e, depth + 1);
        if depth > 0 {
            lemma_open_shift(b, i0, c0, i + 1, e, (depth - 1) as nat);
        }
        if let Some(c) = closer(l[i]) {
            lemma_run_shift(b, i0, c0, c, i + 1, e);
            text::lemma_run_end(l, c, i + 1);
            text::lemma_run_end(b, c, i + i0 + 1);
            let q = text::run_end(l, c, i + 1);
            if q < e {
                lemma_open_shift(b, i0, c0, q + 1, e, depth);
            }
        }
    }
}

/// What looks like an image link does so whatever stands around it.
proof fn lemma_shape_shift(b: Seq<u8>, i: int, c: int, m: Image)
    requires
        0 <= i <= c <= b.len(),
        0 <= m.start,
        m.link_end < c - i,
    ensures
        has_shape(b.subrange(i, c), m) == has_shape(b, shifted(m, i)),
{
    let l = b.subrange(i, c);
    let u = shifted(m, i);
    if m.alt_start() <= m.alt_end && m.link_start() < m.link_end {
        assert(opens_image(l, m.start) == opens_image(b, u.start));
        if has_shape(l, m) {
            assert forall|k: int| u.start <= k < u.link_end implies b[k] != NEWLINE by {
                assert(l[k - i] != NEWLINE);
            }
        }
        if has_shape(b, u) {
            assert forall|k: int| m.start <= k < m.link_end implies l[k] != NEWLINE by {
                assert(b[k + i] != NEWLINE);
            }
        }
    }
}

/// Whether places are those where a line starts and where its text ends.
spec fn is_line(b: Seq<u8>, i: int, c: int) -> bool {
    0 <= i < b.len() && c == line_end(b, i, text::run_end(b, NEWLINE, i))
}

/// What looks like an image link and starts on a line stays in the text of the line.
proof fn lemma_shape_in_line(b: Seq<u8>, i: int, c: int, t: Image)
    requires
        is_line(b, i, c),
        has_shape(b, t),
        i <= t.start <= text::run_end(b, NEWLINE, i),
    ensures
        i <= c <= b.len(),
        t.end() <= c,
        has_shape(b.subrange(i, c), shifted(t, -i)),
{
    let e = text::run_end(b, NEWLINE, i);
    text::lemma_run_end(b, NEWLINE, i);
    if e < b.len() {
        assert(b[e] == NEWLINE);
        assert(t.start < e);
        lemma_shape_on_line(b, i, e, t);
    }
    lemma_shape_shift(b, i, c, shifted(t, -i));
    assert(shifted(shifted(t, -i), i) =~= t);
}

/// What looks like an image link starts on a line where it starts in the text.
proof fn lemma_start_shift(b: Seq<u8>, i: int, c: int, k: int)
    requires
        is_line(b, i, c),
        i <= c <= b.len(),
        0 <= k < c - i,
    ensures
        could_start(b.subrange(i, c), k) == could_start(b, k + i),
{
    let l = b.subrange(i, c);
    text::lemma_run_end(b, NEWLINE, i);
    if could_start(l, k) {
        let m = choose|m: Image|
            #![trigger has_shape(l, m)]
            has_shape(l, m) && m.start == k && forall|j: int|
                m.alt_start() <= j < m.alt_end ==> !#[trigger] opens_image(l, j);
        let u = shifted(m, i);
        lemma_shape_shift(b, i, c, m);
        assert forall|j: int| u.alt_start() <= j < u.alt_end implies !#[trigger] opens_image(b, j) by {
            assert(!opens_image(l, j - i));
        }
        assert(has_shape(b, u));
    }
    if could_start(b, k + i) {
        let u = choose|u: Image|
            #![trigger has_shape(b, u)]
            has_shape(b, u) && u.start == k + i && forall|j: int|
                u.alt_start() <= j < u.alt_end ==> !#[trigger] opens_image(b, j);
        let m = shifted(u, -i);
        lemma_shape_in_line(b, i, c, u);
        assert forall|j: int| m.alt_start() <= j < m.alt_end implies !#[trigger] opens_image(l, j) by {
            assert(!opens_image(b, j + i));
        }
        assert(has_shape(l, m));
    }
}

/// A stretch of a line is clear where it is clear in the text.
proof fn lemma_clear_shift(b: Seq<u8>, i: int, c: int, from: int, to: int)
    requires
        is_line(b, i, c),
        i <= c <= b.len(),
        0 <= from,
        to <= c - i,
    ensures
        is_clear(b.subrange(i, c), from, to) == is_clear(b, from + i, to + i),
{
    let l = b.subrange(i, c);
    if is_clear(l, from, to) {
        assert forall|k: int| from + i <= k < to + i implies !#[trigger] could_start(b, k) by {
            lemma_start_shift(b, i, c, k - i);
            assert(!could_start(l, k - i));
        }
    }
    if is_clear(b, from + i, to + i) {
        assert forall|k: int| from <= k < to implies !#[trigger] could_start(l, k) by {
            lemma_start_shift(b, i, c, k);
            assert(!could_start(b, k + i));
        }
    }
}

/// What can be read as an image link on a line can be read so in the text, and the other way
/// round.
proof fn lemma_image_shift(b: Seq<u8>, i: int, c: int, m: Image)
    requires
        is_line(b, i, c),
        i <= c <= b.len(),
        0 <= m.start,
        m.link_end < c - i,
        has_shape(b.subrange(i, c), m),
    ensures
        is_proper(b.subrange(i, c), m) == is_proper(b, shifted(m, i)),
        is_paired(b.subrange(i, c), m) == is_paired(b, shifted(m, i)),
        is_image(b.subrange(i, c), m) == is_image(b, shifted(m, i)),
{
    let l = b.subrange(i, c);
    lemma_shape_shift(b, i, c, m);
    lemma_pairs_shift(b, l, i, m.alt_start(), m.alt_end, 0);
    lemma_clear_shift(b, i, c, m.alt_start(), m.alt_end);
    lemma_clear_shift(b, i, c, m.link_start(), m.link_end);
    lemma_open_shift(b, i, c, m.link_start(), m.link_end, 0);
}

/// An image link that starts on a line is an image link of that line.
proof fn lemma_image_in_line(b: Seq<u8>, i: int, c: int, t: Image)
    requires
        is_line(b, i, c),
        is_image(b, t),
        i <= t.start <= text::run_end(b, NEWLINE, i),
    ensures
        t.end() <= c <= b.len(),
        is_image(b.subrange(i, c), shifted(t, -i)),
        is_proper(b.subrange(i, c), shifted(t, -i)) == is_proper(b, t),
        is_paired(b.subrange(i, c), shifted(t, -i)) == is_paired(b, t),
{
    lemma_shape_in_line(b, i, c, t);
    lemma_image_shift(b, i, c, shifted(t, -i));
    assert(shifted(shifted(t, -i), i) =~= t);
}

/// An image link of a line is an image link of the text.
proof fn lemma_line_in_text(b: Seq<u8>, i: int, c: int, m: Image)
    requires
        is_line(b, i, c),
        i <= c <= b.len(),
        is_image(b.subrange(i, c), m),
    ensures
        is_image(b, shifted(m, i)),
        is_proper(b, shifted(m, i)) == is_proper(b.subrange(i, c), m),
        is_paired(b, shifted(m, i)) == is_paired(b.subrange(i, c), m),
{
    lemma_image_shift(b, i, c, m);
}

/// From a place on a line on, a text has the image links of the rest of the line and those of
/// the following lines.
pub proof fn lemma_line_images(b: Seq<u8>, i: int, j: int)
    requires
        0 <= i < b.len(),
        0 <= j <= line_end(b, i, text::run_end(b, NEWLINE, i)) - i,
    ensures
        ({
            let e = text::run_end(b, NEWLINE, i);
            let l = b.subrange(i, line_end(b, i, e));
            images_from(b, i + j) == all_shifted(images_from(l, j), i) + images_from(b, e + 1)
        }),
    decreases b.len() - j,
{
    let e = text::run_end(b, NEWLINE, i);
    let c = line_end(b, i, e);
    let l = b.subrange(i, c);
    text::lemma_run_end(b, NEWLINE, i);
    if exists|m: Image| is_first(l, j, m) {
        let m = choose|m: Image| is_first(l, j, m);
        let u = shifted(m, i);
        lemma_line_in_text(b, i, c, m);
        assert forall|t: Image| is_image(b, t) && i + j <= t.start implies preferred(b, u, t) by {
            if t.start <= e {
                lemma_image_in_line(b, i, c, t);
                assert(preferred(l, m, shifted(t, -i)));
            }
        }
        let from = i + j;
        assert(is_first(b, from, u));
        let v = choose|v: Image| is_first(b, from, v);
        lemma_first_unique(b, from, u, v);
        lemma_line_images(b, i, m.end());
        assert(u.end() == i + m.end());
        assert(images_from(b, i + j) =~= all_shifted(images_from(l, j), i) + images_from(b, e + 1));
    } else {
        assert forall|t: Image| is_image(b, t) implies !(i + j <= t.start < e + 1) by {
            if i + j <= t.start < e + 1 {
                lemma_image_in_line(b, i, c, t);
                lemma_first_exists(l, j, shifted(t, -i));
            }
        }
        lemma_images_skip(b, i + j, e + 1);
        assert(images_from(b, i + j) =~= all_shifted(images_from(l, j), i) + images_from(b, e + 1));
    }
}

/// The image links of the lines from `i` on, line by line.
pub open spec fn images_by_line(b: Seq<u8>, i: int) -> Seq<Image>
    decreases b.len() - i,
{
    if i < 0 || i >= b.len() {
        seq![]
    } else {
        let e = text::run_end(b, NEWLINE, i);
        let rest = if i <= e < b.len() {
            images_by_line(b, e + 1)
        } else {
            seq![]
        };
        all_shifted(images(b.subrange(i, line_end(b, i, e))), i) + rest
    }
}

/// Looking for image links line by line finds those of the whole text, in the same order.
pub proof fn lemma_images_by_line(b: Seq<u8>, i: int)
    requires
        0 <= i,
    ensures
        images_from(b, i) == images_by_line(b, i),
    decreases b.len() + 1 - i,
{
    if i < b.len() {
        text::lemma_run_end(b, NEWLINE, i);
        lemma_line_images(b, i, 0);
        lemma_images_by_line(b, text::run_end(b, NEWLINE, i) + 1);
    } else {
        assert forall|m: Image| !is_first(b, i, m) by {}
    }
}

} // verus!
