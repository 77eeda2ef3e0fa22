//! Image links as they are written.
use vstd::prelude::*;
use crate::markdown;
use crate::markdown::Image;
use crate::text;

verus! {

/// How many more of one byte than of another stand between two places.
pub open spec fn net(b: Seq<u8>, open: u8, close: u8, i: int, e: int) -> int
    decreases e - i,
{
    if i >= e {
        0
    } else {
        (if b[i] == open {
            1int
        } else if b[i] == close {
            -1
        } else {
            0
        }) + net(b, open, close, i + 1, e)
    }
}

/// Whether one of two bytes closes the other at any depth: never more are closed than opened, and
/// in the end all are.
pub open spec fn is_balanced(b: Seq<u8>, open: u8, close: u8, i: int, e: int) -> bool {
    &&& forall|j: int| i <= j <= e ==> #[trigger] net(b, open, close, i, j) >= 0
    &&& net(b, open, close, i, e) == 0
}

/// Brackets pair up exactly if they are balanced, at any depth.
pub proof fn lemma_pairs_by_count(b: Seq<u8>, i: int, e: int, depth: nat)
    requires
        0 <= i <= e,
        forall|k: int| i <= k < e ==> b[k] != 92,
    ensures
        markdown::pairs_up(b, i, e, depth) <==> (forall|j: int|
            i <= j <= e ==> depth + #[trigger] net(b, 91, 93, i, j) >= 0) && depth + net(
            b,
            91,
            93,
            i,
            e,
        ) == 0,
    decreases e - i,
{
    if i < e {
        let next = if b[i] == 91 {
            depth as int + 1
        } else if b[i] == 93 {
            depth - 1
        } else {
            depth as int
        };
        assert(depth + net(b, 91, 93, i, i + 1) == next) by {
            assert(net(b, 91, 93, i + 1, i + 1) == 0);
        }
        if next >= 0 {
            lemma_pairs_by_count(b, i + 1, e, next as nat);
            assert forall|j: int| i + 1 <= j <= e implies #[trigger] net(b, 91, 93, i, j) + depth
                == next + net(b, 91, 93, i + 1, j) by {}
            if markdown::pairs_up(b, i, e, depth) {
                assert forall|j: int| i <= j <= e implies depth + #[trigger] net(b, 91, 93, i, j)
                    >= 0 by {
                    if j > i {
                        assert(next + net(b, 91, 93, i + 1, j) >= 0);
                    }
                }
            }
            if forall|j: int| i <= j <= e ==> depth + #[trigger] net(b, 91, 93, i, j) >= 0 {
                assert forall|j: int| i + 1 <= j <= e implies next + #[trigger] net(
                    b,
                    91,
                    93,
                    i + 1,
                    j,
                ) >= 0 by {
                    assert(depth + net(b, 91, 93, i, j) >= 0);
                }
            }
        }
    }
}

/// A link can run on exactly if never more parentheses have been closed than opened, at any depth.
pub proof fn lemma_open_by_count(b: Seq<u8>, i: int, e: int, depth: nat)
    requires
        0 <= i <= e,
        forall|k: int| i <= k < e ==> b[k] != 92 && b[k] != 34 && b[k] != 60,
    ensures
        markdown::stays_open(b, i, e, depth) <==> forall|j: int|
            i <= j <= e ==> depth + #[trigger] net(b, 40, 41, i, j) >= 0,
    decreases e - i,
{
    if i < e {
        let next = if b[i] == 40 {
            depth as int + 1
        } else if b[i] == 41 {
            depth - 1
        } else {
            depth as int
        };
        assert(depth + net(b, 40, 41, i, i + 1) == next) by {
            assert(net(b, 40, 41, i + 1, i + 1) == 0);
        }
        if next >= 0 {
            lemma_open_by_count(b, i + 1, e, next as nat);
            assert forall|j: int| i + 1 <= j <= e implies #[trigger] net(b, 40, 41, i, j) + depth
                == next + net(b, 40, 41, i + 1, j) by {}
            if markdown::stays_open(b, i, e, depth) {
                assert forall|j: int| i <= j <= e implies depth + #[trigger] net(b, 40, 41, i, j)
                    >= 0 by {
                    if j > i {
                        assert(next + net(b, 40, 41, i + 1, j) >= 0);
                    }
                }
            }
            if forall|j: int| i <= j <= e ==> depth + #[trigger] net(b, 40, 41, i, j) >= 0 {
                assert forall|j: int| i + 1 <= j <= e implies next + #[trigger] net(
                    b,
                    40,
                    41,
                    i + 1,
                    j,
                ) >= 0 by {
                    assert(depth + net(b, 40, 41, i, j) >= 0);
                }
            }
        }
    }
}

/// What stands behind a `\` does not count.
pub proof fn lemma_escaped(b: Seq<u8>, i: int, e: int, depth: nat)
    requires
        0 <= i,
        i + 2 <= e,
        b[i] == 92,
    ensures
        markdown::pairs_up(b, i, e, depth) == markdown::pairs_up(b, i + 2, e, depth),
        markdown::stays_open(b, i, e, depth) == markdown::stays_open(b, i + 2, e, depth),
{
}

/// In a link, what stands between two `"` or between `<` and `>` does not count.
pub proof fn lemma_enclosed(b: Seq<u8>, i: int, q: int, e: int, depth: nat)
    requires
        0 <= i < q < e <= b.len(),
        b[i] == 34 && b[q] == 34 || b[i] == 60 && b[q] == 62,
        forall|k: int| i < k < q ==> b[k] != b[q],
    ensures
        markdown::stays_open(b, i, e, depth) == markdown::stays_open(b, q + 1, e, depth),
{
    text::lemma_run_end_is(b, b[q], i + 1, q);
}

/// Brackets pair up to one `]` only.
proof fn lemma_pairs_once(b: Seq<u8>, i: int, a: int, t: int, depth: nat)
    requires
        0 <= i,
        b[a] == 93,
        a < t,
        markdown::pairs_up(b, i, a, depth),
    ensures
        !markdown::pairs_up(b, i, t, depth),
    decreases a + 1 - i,
{
    if i < a {
        if b[i] == 92 {
            lemma_pairs_once(b, i + 2, a, t, depth);
        } else if b[i] == 91 {
            lemma_pairs_once(b, i + 1, a, t, depth + 1);
        } else if b[i] == 93 {
            lemma_pairs_once(b, i + 1, a, t, (depth - 1) as nat);
        } else {
            lemma_pairs_once(b, i + 1, a, t, depth);
        }
    }
}

/// A link does not run on over a `)` that nothing in it opens.
proof fn lemma_open_ends(b: Seq<u8>, i: int, e: int, t: int, depth: nat)
    requires
        0 <= i <= e < t,
        forall|k: int| i <= k < e ==> b[k] != 92 && b[k] != 34 && b[k] != 60,
        forall|j: int| i <= j <= e ==> depth + #[trigger] net(b, 40, 41, i, j) >= 0,
        depth + net(b, 40, 41, i, e) == 0,
        b[e] == 41,
    ensures
        !markdown::stays_open(b, i, t, depth),
    decreases e - i,
{
    if i < e {
        let next = if b[i] == 40 {
            depth as int + 1
        } else if b[i] == 41 {
            depth - 1
        } else {
            depth as int
        };
        assert(depth + net(b, 40, 41, i, i + 1) == next) by {
            assert(net(b, 40, 41, i + 1, i + 1) == 0);
        }
        assert forall|j: int| i + 1 <= j <= e implies next + #[trigger] net(b, 40, 41, i + 1, j)
            >= 0 by {
            assert(depth + net(b, 40, 41, i, j) >= 0);
        }
        lemma_open_ends(b, i + 1, e, t, next as nat);
    }
}

/// An image link that is written out is read next: `![`, an alternative text with balanced
/// brackets, `](`, a link with balanced parentheses, and `)`, whatever follows. What comes after
/// is read as if nothing had come before.
pub proof fn lemma_written_image(b: Seq<u8>, from: int, m: Image)
    requires
        0 <= from <= m.start,
        m.start + 2 <= m.alt_end,
        m.alt_end + 2 < m.link_end < b.len(),
        b[m.start] == 33 && b[m.start + 1] == 91,
        b[m.alt_end] == 93 && b[m.alt_end + 1] == 40,
        b[m.link_end] == 41,
        is_balanced(b, 91, 93, m.start + 2, m.alt_end),
        is_balanced(b, 40, 41, m.alt_end + 2, m.link_end),
        forall|k: int| from <= k < m.start ==> b[k] != 33,
        forall|k: int| m.start + 2 <= k < m.alt_end ==> b[k] != 10 && b[k] != 33 && b[k] != 92,
        forall|k: int|
            m.alt_end + 2 <= k < m.link_end ==> b[k] != 10 && b[k] != 33 && b[k] != 92 && b[k] != 34
                && b[k] != 60,
    ensures
        markdown::images_from(b, from) == seq![m] + markdown::images_from(b, m.link_end + 1),
{
    lemma_pairs_by_count(b, m.alt_start(), m.alt_end, 0);
    lemma_open_by_count(b, m.link_start(), m.link_end, 0);
    assert(markdown::opens_image(b, m.start));
    assert(markdown::has_shape(b, m));
    assert forall|k: int| m.link_start() <= k < m.link_end implies !#[trigger] markdown::could_start(
        b,
        k,
    ) by {}
    assert(markdown::is_proper(b, m)) by {
        let l = m.link_start();
        assert(net(b, 40, 41, l, l + 1) >= 0);
        assert(net(b, 40, 41, l + 1, l + 1) == 0);
    }
    assert(markdown::is_image(b, m));
    assert forall|t: Image| markdown::is_image(b, t) && from <= t.start implies markdown::preferred(
        b,
        m,
        t,
    ) by {
        assert(b[t.start] == 33);
        if t.start == m.start && markdown::is_proper(b, t) && markdown::is_paired(b, t) {
            if t.alt_end > m.alt_end {
                lemma_pairs_once(b, m.alt_start(), m.alt_end, t.alt_end, 0);
            } else if t.alt_end < m.alt_end {
                lemma_pairs_once(b, m.alt_start(), t.alt_end, m.alt_end, 0);
            } else if t.link_end > m.link_end {
                lemma_open_ends(b, m.link_start(), m.link_end, t.link_end, 0);
            }
        }
    }
    assert(markdown::is_first(b, from, m));
    let u = choose|u: Image| markdown::is_first(b, from, u);
    markdown::lemma_first_unique(b, from, m, u);
}

/// Of all that can be read at its place, what is found is the best: a link that does not start
/// with `)` before one that does, brackets in pairs before others, the first `](` before a later
/// one, and the longest link.
pub proof fn lemma_best_reading(b: Seq<u8>, from: int, k: int, t: Image)
    requires
        0 <= from,
        0 <= k < markdown::images_from(b, from).len(),
        markdown::is_image(b, t),
        t.start == markdown::images_from(b, from)[k].start,
    ensures
        ({
            let m = markdown::images_from(b, from)[k];
            let (proper, paired) = (b[m.alt_end + 2] != 41, markdown::is_paired(b, m));
            let (t_proper, t_paired) = (b[t.alt_end + 2] != 41, markdown::is_paired(b, t));
            &&& t_proper ==> proper
            &&& t_proper == proper && t_paired ==> paired
            &&& t_proper == proper && t_paired == paired ==> m.alt_end <= t.alt_end
            &&& t.alt_end == m.alt_end ==> t.link_end <= m.link_end
        }),
    decreases b.len() - from,
{
    let found = markdown::images_from(b, from);
    assert(exists|m: Image| markdown::is_first(b, from, m));
    let m = choose|m: Image| markdown::is_first(b, from, m);
    let rest = markdown::images_from(b, m.end());
    assert(found == seq![m] + rest);
    if k == 0 {
        assert(markdown::preferred(b, m, t));
    } else {
        assert(found[k] == rest[k - 1]);
        lemma_best_reading(b, m.end(), k - 1, t);
    }
}

/// Where no `!` follows, no image link does.
pub proof fn lemma_no_image(b: Seq<u8>, from: int)
    requires
        0 <= from,
        forall|k: int| from <= k < b.len() ==> b[k] != 33,
    ensures
        markdown::images_from(b, from).len() == 0,
{
    assert forall|m: Image| !markdown::is_first(b, from, m) by {
        if markdown::is_first(b, from, m) {
            assert(b[m.start] == 33);
        }
    }
}

/// What is found as an image link is written as one, on one line.
pub proof fn lemma_found_is_written(b: Seq<u8>, from: int, k: int)
    requires
        0 <= from,
        0 <= k < markdown::images_from(b, from).len(),
    ensures
        ({
            let m = markdown::images_from(b, from)[k];
            &&& from <= m.start
            &&& m.start + 2 <= m.alt_end
            &&& m.alt_end + 2 < m.link_end < b.len()
            &&& b[m.start] == 33 && b[m.start + 1] == 91
            &&& b[m.alt_end] == 93 && b[m.alt_end + 1] == 40
            &&& b[m.link_end] == 41
            &&& forall|j: int| m.start <= j <= m.link_end ==> b[j] != 10
        }),
{
    markdown::lemma_images(b, from);
    assert(markdown::is_image(b, markdown::images_from(b, from)[k]));
}

} // verus!
