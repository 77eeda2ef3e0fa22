//! Documents: what is noted of them, and what they are rewritten to.
use vstd::prelude::*;
use crate::embed;
use crate::embed::Cause;
use crate::embed::Outcome;
use crate::encode;
use crate::image;
use crate::image::CheckEntry;
use crate::image::Checked;
use crate::image_format::ImageFormat;
use crate::cmd::Duration;
use crate::link;
use crate::link::LinkTarget;
use crate::link::LinkType;
use crate::markdown;
use crate::markdown::Image;
use crate::report;
use crate::text;

verus! {

/// The images to embed, by their image links.
pub type Table = Map<Seq<char>, (Seq<char>, ImageFormat)>;

/// Whether the image of an image link is to be embedded.
pub open spec fn stands_in(b: Seq<u8>, links: Table, m: Image) -> bool {
    links.contains_key(text::chars_of(m.whole(b)))
}

/// How many of the first `k` image links are replaced.
pub open spec fn rank(b: Seq<u8>, links: Table, found: Seq<Image>, k: int) -> nat {
    found.take(k).filter(|m: Image| stands_in(b, links, m)).len()
}

/// The text between the image link with the number `k` and the one in front of it, or the start.
pub open spec fn gap(b: Seq<u8>, found: Seq<Image>, k: int) -> Seq<u8> {
    b.subrange(
        if k == 0 {
            0
        } else {
            found[k - 1].end()
        },
        found[k].start,
    )
}

/// The text behind the last image link.
pub open spec fn tail(b: Seq<u8>, found: Seq<Image>) -> Seq<u8> {
    b.subrange(
        if found.len() == 0 {
            0
        } else {
            found[found.len() - 1].end()
        },
        b.len() as int,
    )
}

/// The text in which each image link has been replaced by the part with its number.
pub open spec fn filled(b: Seq<u8>, found: Seq<Image>, parts: Seq<Seq<u8>>) -> Seq<u8> {
    Seq::new(found.len(), |k: int| gap(b, found, k) + parts[k]).flatten() + tail(b, found)
}

/// What stands in the place of the image link with the number `k`: a reference, or the image
/// link itself.
pub open spec fn part(
    b: Seq<u8>,
    links: Table,
    found: Seq<Image>,
    names: Seq<Seq<char>>,
    k: int,
) -> Seq<u8> {
    if stands_in(b, links, found[k]) {
        text::utf8("!["@) + found[k].alt(b) + text::utf8(
            "]["@ + (text::decimal(rank(b, links, found, k)) + "_"@ + names[k]) + "]"@,
        )
    } else {
        found[k].whole(b)
    }
}

/// The line that the image link with the number `k` gets at the end, if it gets one.
pub open spec fn line_for(
    b: Seq<u8>,
    links: Table,
    found: Seq<Image>,
    names: Seq<Seq<char>>,
    k: int,
) -> Seq<char> {
    if stands_in(b, links, found[k]) {
        let image = links[text::chars_of(found[k].whole(b))];
        "["@ + (text::decimal(rank(b, links, found, k)) + "_"@ + names[k]) + "]:data:image/"@
            + image.1.name() + ";base64,"@ + image.0 + "\n"@
    } else {
        seq![]
    }
}

/// Where each image link is put back in its own place, the text is what it was: no text is lost
/// between the image links, in front of them or behind them.
pub proof fn lemma_put_back(b: Seq<u8>, found: Seq<Image>)
    requires
        embed::in_order(b, found),
    ensures
        filled(b, found, Seq::new(found.len(), |k: int| found[k].whole(b))) == b,
{
    let wholes = Seq::new(found.len(), |k: int| found[k].whole(b));
    let pieces = Seq::new(found.len(), |k: int| gap(b, found, k) + wholes[k]);
    assert(pieces =~= Seq::new(found.len(), |k: int| gap(b, found, k) + found[k].whole(b)));
    lemma_pieces(b, found, pieces, found.len() as int);
    assert(pieces.take(found.len() as int) =~= pieces);
    if found.len() > 0 {
        assert(markdown::is_image(b, found[found.len() - 1]));
    }
    assert(pieces.flatten() + tail(b, found) =~= b);
}

proof fn lemma_pieces(b: Seq<u8>, found: Seq<Image>, pieces: Seq<Seq<u8>>, n: int)
    requires
        embed::in_order(b, found),
        pieces == Seq::new(found.len(), |k: int| gap(b, found, k) + found[k].whole(b)),
        0 <= n <= found.len(),
    ensures
        pieces.take(n).flatten() == b.take(
            if n == 0 {
                0
            } else {
                found[n - 1].end()
            },
        ),
    decreases n,
{
    if n == 0 {
        assert(pieces.take(0).flatten() =~= b.take(0));
    } else {
        lemma_pieces(b, found, pieces, n - 1);
        assert(pieces.take(n) =~= pieces.take(n - 1).push(pieces[n - 1]));
        pieces.take(n - 1).lemma_flatten_push(pieces[n - 1]);
        assert(markdown::is_image(b, found[n - 1]));
        if n > 1 {
            assert(markdown::is_image(b, found[n - 2]));
            assert(found[n - 2].end() <= found[n - 1].start);
        }
        assert(pieces.take(n).flatten() =~= b.take(found[n - 1].end()));
    }
}

proof fn lemma_rewriting(
    b: Seq<u8>,
    links: Table,
    found: Seq<Image>,
    names: Seq<Seq<char>>,
    n: int,
)
    requires
        names.len() == found.len(),
        0 <= n <= found.len(),
    ensures
        ({
            let r = embed::rewriting(b, links, found.take(n), names.take(n));
            &&& r.count == rank(b, links, found, n)
            &&& r.end == (if n == 0 {
                0
            } else {
                found[n - 1].end()
            })
            &&& r.text == Seq::new(
                n as nat,
                |k: int| gap(b, found, k) + part(b, links, found, names, k),
            ).flatten()
            &&& r.notes == Seq::new(
                n as nat,
                |k: int| line_for(b, links, found, names, k),
            ).flatten()
        }),
    decreases n,
{
    let pieces = |n: int|
        Seq::new(n as nat, |k: int| gap(b, found, k) + part(b, links, found, names, k));
    let lines = |n: int| Seq::new(n as nat, |k: int| line_for(b, links, found, names, k));
    let chosen = |m: Image| stands_in(b, links, m);
    reveal(Seq::filter);
    if n == 0 {
        assert(found.take(0).filter(chosen).len() == 0);
        assert(pieces(0) =~= seq![]);
        assert(lines(0) =~= seq![]);
    } else {
        let k = n - 1;
        lemma_rewriting(b, links, found, names, k);
        assert(found.take(n).drop_last() =~= found.take(k));
        assert(names.take(n).drop_last() =~= names.take(k));
        assert(found.take(n).last() == found[k]);
        let here = gap(b, found, k) + part(b, links, found, names, k);
        assert(pieces(n) =~= pieces(k).push(here));
        pieces(k).lemma_flatten_push(here);
        assert(lines(n) =~= lines(k).push(line_for(b, links, found, names, k)));
        lines(k).lemma_flatten_push(line_for(b, links, found, names, k));
        let r = embed::rewriting(b, links, found.take(k), names.take(k));
        let s = embed::rewriting(b, links, found.take(n), names.take(n));
        assert(s.text =~= r.text + here);
        assert(s.notes =~= r.notes + line_for(b, links, found, names, k));
    }
}

/// A rewritten document is its text with a reference in the place of each image link whose image
/// is embedded, everything else as it was up to the end, then the banner, and then the embedded
/// images, one line for each reference, in the order of the text.
pub proof fn lemma_rewritten(
    b: Seq<u8>,
    links: Table,
    found: Seq<Image>,
    names: Seq<Seq<char>>,
    stamp: Seq<char>,
)
    requires
        names.len() == found.len(),
    ensures
        embed::rewritten(b, links, found, names, stamp) == filled(
            b,
            found,
            Seq::new(found.len(), |k: int| part(b, links, found, names, k)),
        ) + text::utf8(
            ("\n\n<!-- auto generated by mdutil at "@ + stamp + " -->\n\n"@) + Seq::new(
                found.len(),
                |k: int| line_for(b, links, found, names, k),
            ).flatten(),
        ),
{
    let n = found.len() as int;
    lemma_rewriting(b, links, found, names, n);
    assert(found.take(n) =~= found);
    assert(names.take(n) =~= names);
    let parts = Seq::new(found.len(), |k: int| part(b, links, found, names, k));
    assert(Seq::new(found.len(), |k: int| gap(b, found, k) + parts[k]) =~= Seq::new(
        found.len(),
        |k: int| gap(b, found, k) + part(b, links, found, names, k),
    ));
}

/// Replacing the image links of a text touches the image links that can be read in it, calls
/// each image by the file name in its link, and writes the moment into the banner.
pub proof fn lemma_replaced(b: Seq<u8>, links: Table, now: Duration, names: Seq<Seq<char>>)
    requires
        names.len() == markdown::images(b).len(),
        forall|k: int|
            0 <= k < names.len() ==> #[trigger] names[k] == link::name_in(
                text::chars_of(markdown::images(b)[k].link(b)),
                link::parsed_url(text::chars_of(markdown::images(b)[k].link(b))),
            ),
    ensures
        embed::replaced(b, links, now) == filled(
            b,
            markdown::images(b),
            Seq::new(
                markdown::images(b).len(),
                |k: int| part(b, links, markdown::images(b), names, k),
            ),
        ) + text::utf8(
            ("\n\n<!-- auto generated by mdutil at "@ + encode::rfc3339(now.secs, now.nanos)
                + " -->\n\n"@) + Seq::new(
                markdown::images(b).len(),
                |k: int| line_for(b, links, markdown::images(b), names, k),
            ).flatten(),
        ),
{
    let found = markdown::images(b);
    assert(names =~= embed::names_of(b, found));
    lemma_rewritten(b, links, found, names, encode::rfc3339(now.secs, now.nanos));
}

/// The text behind the last image link, up to the end of the document, stands unchanged directly
/// in front of the banner, and the text in front of the first image link starts the document.
pub proof fn lemma_ends_kept(
    b: Seq<u8>,
    links: Table,
    found: Seq<Image>,
    names: Seq<Seq<char>>,
    stamp: Seq<char>,
    notes: Seq<char>,
)
    requires
        names.len() == found.len(),
        embed::in_order(b, found),
        notes == Seq::new(found.len(), |k: int| line_for(b, links, found, names, k)).flatten(),
    ensures
        (tail(b, found) + text::utf8(
            "\n\n<!-- auto generated by mdutil at "@ + stamp + " -->\n\n"@ + notes,
        )).is_suffix_of(embed::rewritten(b, links, found, names, stamp)),
        found.len() > 0 ==> b.take(found[0].start).is_prefix_of(
            embed::rewritten(b, links, found, names, stamp),
        ),
{
    lemma_rewritten(b, links, found, names, stamp);
    let res = embed::rewritten(b, links, found, names, stamp);
    let parts = Seq::new(found.len(), |k: int| part(b, links, found, names, k));
    let pieces = Seq::new(found.len(), |k: int| gap(b, found, k) + parts[k]);
    let ending = text::utf8(
        ("\n\n<!-- auto generated by mdutil at "@ + stamp + " -->\n\n"@) + notes,
    );
    let end = tail(b, found) + ending;
    assert(res =~= pieces.flatten() + end);
    assert(end =~= res.subrange(res.len() - end.len(), res.len() as int));
    if found.len() > 0 {
        assert(markdown::is_image(b, found[0]));
        assert(pieces.flatten() == pieces[0] + pieces.drop_first().flatten());
        let front = b.take(found[0].start);
        assert(pieces[0] == gap(b, found, 0) + parts[0]);
        assert(gap(b, found, 0) =~= front);
        assert(front =~= res.take(front.len() as int));
    }
}

/// The jobs are for those image links whose targets are of the kind looked at: all of them, in
/// their order, and no others.
pub proof fn lemma_jobs(b: Seq<u8>, kind: LinkType, found: Seq<Image>, targets: Seq<LinkTarget>)
    requires
        targets.len() == found.len(),
    ensures
        embed::jobs_of(b, kind, found, targets) == Seq::new(
            found.len(),
            |k: int| (text::chars_of(found[k].whole(b)), targets[k]),
        ).filter(|j: (Seq<char>, LinkTarget)| kind.covers(j.1)),
    decreases found.len(),
{
    reveal(Seq::filter);
    let all = Seq::new(found.len(), |k: int| (text::chars_of(found[k].whole(b)), targets[k]));
    if found.len() > 0 {
        let (f, t) = (found.drop_last(), targets.drop_last());
        lemma_jobs(b, kind, f, t);
        assert(all.drop_last() =~= Seq::new(
            f.len(),
            |k: int| (text::chars_of(f[k].whole(b)), t[k]),
        ));
    }
}

/// The jobs for a document are for the image links that can be read in it and whose targets,
/// taken from the document's folder, are of the kind looked at.
pub proof fn lemma_document_jobs(path: Seq<u8>, b: Seq<u8>, kind: LinkType)
    ensures
        embed::jobs_of(
            b,
            kind,
            markdown::images(b),
            image::targets_of(path, b, markdown::images(b)),
        ) == Seq::new(
            markdown::images(b).len(),
            |k: int|
                {
                    let m = markdown::images(b)[k];
                    let s = text::chars_of(m.link(b));
                    (text::chars_of(m.whole(b)), link::resolved(path, s, link::parsed_url(s)))
                },
        ).filter(|j: (Seq<char>, LinkTarget)| kind.covers(j.1)),
{
    let found = markdown::images(b);
    let targets = image::targets_of(path, b, found);
    lemma_jobs(b, kind, found, targets);
    assert(Seq::new(found.len(), |k: int| (text::chars_of(found[k].whole(b)), targets[k]))
        =~= Seq::new(
        markdown::images(b).len(),
        |k: int|
            {
                let m = markdown::images(b)[k];
                let s = text::chars_of(m.link(b));
                (text::chars_of(m.whole(b)), link::resolved(path, s, link::parsed_url(s)))
            },
    ));
}

/// Whether a job made the image of an image link ready.
pub open spec fn made_ready(outcome: Outcome, s: Seq<char>) -> bool {
    outcome is Ready && outcome->Ready_0 == s
}

/// Every image that is ready is in the gathered table; of several for one image link it is that
/// of the last job, and the table holds nothing else.
pub proof fn lemma_gathered(outcomes: Seq<Outcome>, s: Seq<char>)
    ensures
        embed::ready_images(outcomes).contains_key(s) <==> exists|k: int|
            0 <= k < outcomes.len() && #[trigger] made_ready(outcomes[k], s),
        forall|k: int|
            0 <= k < outcomes.len() && #[trigger] made_ready(outcomes[k], s) && (forall|j: int|
                k < j < outcomes.len() ==> !#[trigger] made_ready(outcomes[j], s))
                ==> embed::ready_images(outcomes)[s] == outcomes[k]->Ready_1,
    decreases outcomes.len(),
{
    if outcomes.len() > 0 {
        let front = outcomes.drop_last();
        let n = outcomes.len() - 1;
        lemma_gathered(front, s);
        let table = embed::ready_images(outcomes);
        if made_ready(outcomes[n], s) {
            assert(table.contains_key(s));
        } else {
            assert(table.contains_key(s) == embed::ready_images(front).contains_key(s));
            if table.contains_key(s) {
                let k = choose|k: int| 0 <= k < front.len() && #[trigger] made_ready(front[k], s);
                assert(made_ready(outcomes[k], s));
            }
            assert forall|k: int| 0 <= k < outcomes.len() && #[trigger] made_ready(
                outcomes[k],
                s,
            ) implies embed::ready_images(front).contains_key(s) by {
                assert(made_ready(front[k], s));
            }
        }
        assert forall|k: int|
            0 <= k < outcomes.len() && #[trigger] made_ready(outcomes[k], s) && (forall|j: int|
                k < j < outcomes.len() ==> !#[trigger] made_ready(
                    outcomes[j],
                    s,
                )) implies table[s] == outcomes[k]->Ready_1 by {
            if k < n {
                assert(!made_ready(outcomes[n], s));
                assert(made_ready(front[k], s));
                assert forall|j: int| k < j < front.len() implies !#[trigger] made_ready(
                    front[j],
                    s,
                ) by {
                    assert(!made_ready(outcomes[j], s));
                }
                assert(embed::ready_images(front)[s] == front[k]->Ready_1);
                assert(table[s] == embed::ready_images(front)[s]);
            }
        }
    }
}

/// Every failure is reported, in the order of the jobs, and nothing else is.
pub proof fn lemma_failures(outcomes: Seq<Outcome>)
    ensures
        embed::failures(outcomes) == outcomes.filter(|o: Outcome| o is Failed).map_values(
            |o: Outcome| o->Failed_0,
        ),
    decreases outcomes.len(),
{
    reveal(Seq::filter);
    let strip = |o: Outcome| o->Failed_0;
    let failed = |o: Outcome| o is Failed;
    if outcomes.len() > 0 {
        let front = outcomes.drop_last();
        lemma_failures(front);
        if outcomes.last() is Failed {
            assert(front.filter(failed).push(outcomes.last()).map_values(strip) =~= front.filter(
                failed,
            ).map_values(strip).push(outcomes.last()->Failed_0));
        }
    } else {
        assert(embed::failures(outcomes) =~= outcomes.filter(failed).map_values(strip));
    }
}

/// What is noted of a line: its image links whose targets are of the kind looked at, all of them,
/// in their order, and no others; each with the path of the document, the whole image link, its
/// target, the line, and the number of the line.
pub proof fn lemma_line(
    path: Seq<u8>,
    line: Seq<u8>,
    row: int,
    kind: LinkType,
    found: Seq<Image>,
    targets: Seq<LinkTarget>,
)
    requires
        targets.len() == found.len(),
    ensures
        image::line_entries(path, line, row, kind, found, targets) == Seq::new(
            found.len(),
            |k: int|
                CheckEntry {
                    path: image::path_text(path),
                    image_link: text::chars_of(found[k].whole(line)),
                    link: targets[k],
                    line: text::chars_of(line),
                    row_num: row,
                    col_num: 0,
                    error: None,
                },
        ).filter(|e: CheckEntry| kind.covers(e.link)),
    decreases found.len(),
{
    reveal(Seq::filter);
    let entry = |m: Image, t: LinkTarget|
        CheckEntry {
            path: image::path_text(path),
            image_link: text::chars_of(m.whole(line)),
            link: t,
            line: text::chars_of(line),
            row_num: row,
            col_num: 0,
            error: None,
        };
    let all = Seq::new(found.len(), |k: int| entry(found[k], targets[k]));
    let stated = Seq::new(
        found.len(),
        |k: int|
            CheckEntry {
                path: image::path_text(path),
                image_link: text::chars_of(found[k].whole(line)),
                link: targets[k],
                line: text::chars_of(line),
                row_num: row,
                col_num: 0,
                error: None,
            },
    );
    assert(all =~= stated);
    if found.len() > 0 {
        let (f, t) = (found.drop_last(), targets.drop_last());
        lemma_line(path, line, row, kind, f, t);
        assert(all.drop_last() =~= Seq::new(
            f.len(),
            |k: int|
                CheckEntry {
                    path: image::path_text(path),
                    image_link: text::chars_of(f[k].whole(line)),
                    link: t[k],
                    line: text::chars_of(line),
                    row_num: row,
                    col_num: 0,
                    error: None,
                },
        ));
    }
}

/// Entries whose lines come `by` lines later.
pub open spec fn later(v: Seq<CheckEntry>, by: int) -> Seq<CheckEntry> {
    v.map_values(|e: CheckEntry| CheckEntry { row_num: e.row_num + by, ..e })
}

proof fn lemma_line_later(
    path: Seq<u8>,
    line: Seq<u8>,
    row: int,
    by: int,
    kind: LinkType,
    found: Seq<Image>,
    targets: Seq<LinkTarget>,
)
    ensures
        image::line_entries(path, line, row + by, kind, found, targets) == later(
            image::line_entries(path, line, row, kind, found, targets),
            by,
        ),
    decreases found.len(),
{
    if found.len() > 0 {
        lemma_line_later(path, line, row, by, kind, found.drop_last(), targets.drop_last());
    }
    assert(image::line_entries(path, line, row + by, kind, found, targets) =~= later(
        image::line_entries(path, line, row, kind, found, targets),
        by,
    ));
}

proof fn lemma_entries_shift(
    path: Seq<u8>,
    a: Seq<u8>,
    b: Seq<u8>,
    i: int,
    row: int,
    by: int,
    kind: LinkType,
)
    requires
        0 <= i,
    ensures
        image::entries_from(path, a + b, a.len() + i, row + by, kind) == later(
            image::entries_from(path, b, i, row, kind),
            by,
        ),
    decreases b.len() + 1 - i,
{
    let w = a + b;
    let at = a.len() + i;
    if i < b.len() {
        text::lemma_run_end(b, markdown::NEWLINE, i);
        let e = text::run_end(b, markdown::NEWLINE, i);
        assert forall|k: int| at <= k < a.len() + e implies w[k] != markdown::NEWLINE by {
            assert(b[k - a.len()] != markdown::NEWLINE);
        }
        text::lemma_run_end_is(w, markdown::NEWLINE, at, a.len() + e);
        let line = b.subrange(i, markdown::line_end(b, i, e));
        assert(w.subrange(at, markdown::line_end(w, at, a.len() + e)) =~= line);
        let found = markdown::images(line);
        let targets = image::targets_of(path, line, found);
        lemma_line_later(path, line, row, by, kind, found, targets);
        lemma_entries_shift(path, a, b, e + 1, row + 1, by, kind);
        let here = image::line_entries(path, line, row, kind, found, targets);
        let rest = if e < b.len() {
            image::entries_from(path, b, e + 1, row + 1, kind)
        } else {
            seq![]
        };
        assert(image::entries_from(path, b, i, row, kind) == here + rest);
        assert(later(here + rest, by) =~= later(here, by) + later(rest, by));
        assert(image::entries_from(path, w, at, row + by, kind) =~= later(here, by) + later(
            rest,
            by,
        ));
    } else {
        assert(image::entries_from(path, w, at, row + by, kind) =~= later(
            image::entries_from(path, b, i, row, kind),
            by,
        ));
    }
}

/// A document of one line has what is noted of that line, under the number 1.
pub proof fn lemma_one_line(path: Seq<u8>, line: Seq<u8>, kind: LinkType)
    requires
        forall|k: int| 0 <= k < line.len() ==> line[k] != markdown::NEWLINE,
    ensures
        image::entries_from(path, line, 0, 1, kind) == Seq::new(
            markdown::images(line).len(),
            |k: int|
                {
                    let m = markdown::images(line)[k];
                    let s = text::chars_of(m.link(line));
                    CheckEntry {
                        path: image::path_text(path),
                        image_link: text::chars_of(m.whole(line)),
                        link: link::resolved(path, s, link::parsed_url(s)),
                        line: text::chars_of(line),
                        row_num: 1,
                        col_num: 0,
                        error: None,
                    }
                },
        ).filter(|e: CheckEntry| kind.covers(e.link)),
{
    let found = markdown::images(line);
    let targets = image::targets_of(path, line, found);
    lemma_line(path, line, 1, kind, found, targets);
    assert(Seq::new(
        found.len(),
        |k: int|
            CheckEntry {
                path: image::path_text(path),
                image_link: text::chars_of(found[k].whole(line)),
                link: targets[k],
                line: text::chars_of(line),
                row_num: 1,
                col_num: 0,
                error: None,
            },
    ) =~= Seq::new(
        markdown::images(line).len(),
        |k: int|
            {
                let m = markdown::images(line)[k];
                let s = text::chars_of(m.link(line));
                CheckEntry {
                    path: image::path_text(path),
                    image_link: text::chars_of(m.whole(line)),
                    link: link::resolved(path, s, link::parsed_url(s)),
                    line: text::chars_of(line),
                    row_num: 1,
                    col_num: 0,
                    error: None,
                }
            },
    ));
    if line.len() > 0 {
        text::lemma_run_end_is(line, markdown::NEWLINE, 0, line.len() as int);
        assert(line.subrange(0, line.len() as int) =~= line);
        let here = image::line_entries(path, line, 1, kind, found, targets);
        assert(here + Seq::<CheckEntry>::empty() =~= here);
    } else {
        assert forall|m: Image| !markdown::is_first(line, 0, m) by {}
        assert(found =~= seq![]);
        assert(image::entries_from(path, line, 0, 1, kind) =~= seq![]);
    }
}

/// A line break parts a document in two: first comes what is noted of the line in front of it,
/// and then what is noted of the rest, one line later. The line break is `\n` or `\r\n`.
pub proof fn lemma_line_by_line(
    path: Seq<u8>,
    line: Seq<u8>,
    line_break: Seq<u8>,
    rest: Seq<u8>,
    kind: LinkType,
)
    requires
        forall|k: int| 0 <= k < line.len() ==> line[k] != markdown::NEWLINE,
        line_break == seq![10u8] && (line.len() > 0 ==> line.last() != 13) || line_break == seq![
            13u8,
            10u8,
        ],
    ensures
        image::entries_from(path, line + line_break + rest, 0, 1, kind) == image::entries_from(
            path,
            line,
            0,
            1,
            kind,
        ) + later(image::entries_from(path, rest, 0, 1, kind), 1),
{
    let head = line + line_break;
    let w = head + rest;
    let e = head.len() - 1;
    assert forall|k: int| 0 <= k < e implies w[k] != markdown::NEWLINE by {
        if k < line.len() {
            assert(w[k] == line[k]);
        }
    }
    assert(w[e] == 10);
    text::lemma_run_end_is(w, markdown::NEWLINE, 0, e);
    let c = markdown::line_end(w, 0, e);
    if line_break.len() == 2 {
        assert(w[e - 1] == 13);
    } else if line.len() > 0 {
        assert(w[e - 1] == line.last());
    }
    assert(c == line.len());
    assert(w.subrange(0, c) =~= line);
    lemma_entries_shift(path, head, rest, 0, 1, 1, kind);
    let found = markdown::images(line);
    let here = image::line_entries(path, line, 1, kind, found, image::targets_of(path, line, found));
    assert(image::entries_from(path, w, 0, 1, kind) == here + image::entries_from(
        path,
        w,
        e + 1,
        2,
        kind,
    ));
    if line.len() > 0 {
        text::lemma_run_end_is(line, markdown::NEWLINE, 0, line.len() as int);
        assert(line.subrange(0, line.len() as int) =~= line);
        assert(here + Seq::<CheckEntry>::empty() =~= here);
    } else {
        assert forall|m: Image| !markdown::is_first(line, 0, m) by {}
        assert(found =~= seq![]);
        assert(image::entries_from(path, line, 0, 1, kind) =~= seq![]);
        assert(here =~= seq![]);
    }
}

/// A check that came back leaves its entry, in its order, with an error exactly if the check gave
/// one, and then with that one; a check that was lost leaves nothing.
pub proof fn lemma_concluded(checked: Seq<Checked>)
    ensures
        image::concluded(checked) == checked.filter(|c: Checked| c.1 is Some).map_values(
            |c: Checked|
                CheckEntry {
                    error: match c.1->0 {
                        Ok(_) => None,
                        Err(e) => Some(e@),
                    },
                    ..c.0@
                },
        ),
    decreases checked.len(),
{
    reveal(Seq::filter);
    let back = |c: Checked| c.1 is Some;
    let enter = |c: Checked|
        CheckEntry {
            error: match c.1->0 {
                Ok(_) => None,
                Err(e) => Some(e@),
            },
            ..c.0@
        };
    if checked.len() > 0 {
        let front = checked.drop_last();
        lemma_concluded(front);
        if back(checked.last()) {
            assert(front.filter(back).push(checked.last()).map_values(enter) =~= front.filter(
                back,
            ).map_values(enter).push(enter(checked.last())));
        }
    } else {
        assert(image::concluded(checked) =~= checked.filter(back).map_values(enter));
    }
}

/// There are as many problems as checks that gave an error, whichever it was.
pub proof fn lemma_problem_count(checked: Seq<Checked>)
    ensures
        report::problems(image::concluded(checked)).len() == checked.filter(
            |c: Checked| c.1 matches Some(Err(_)),
        ).len(),
    decreases checked.len(),
{
    reveal(Seq::filter);
    if checked.len() > 0 {
        let front = checked.drop_last();
        lemma_problem_count(front);
        if checked.last().1 is Some {
            assert(image::concluded(checked).drop_last() =~= image::concluded(front));
        }
    }
}

/// The problems are the entries with an error, in their order.
pub proof fn lemma_problems(checked: Seq<CheckEntry>)
    ensures
        report::problems(checked) == checked.filter(|e: CheckEntry| e.error is Some),
    decreases checked.len(),
{
    reveal(Seq::filter);
    if checked.len() > 0 {
        lemma_problems(checked.drop_last());
    } else {
        assert(report::problems(checked) =~= checked.filter(|e: CheckEntry| e.error is Some));
    }
}

/// Each problem has its line in the report, in their order.
pub proof fn lemma_problem_lines(v: Seq<CheckEntry>)
    ensures
        report::problem_lines(v) == v.map_values(
            |e: CheckEntry|
                "row: "@ + text::decimal(e.row_num as nat) + ", link: "@ + link::shown(e.link)
                    + ", error: "@ + crate::check::fault_text(e.error->0) + ", line: "@ + e.line
                    + "\n"@,
        ).flatten(),
    decreases v.len(),
{
    let f = |e: CheckEntry|
        "row: "@ + text::decimal(e.row_num as nat) + ", link: "@ + link::shown(e.link) + ", error: "@
            + crate::check::fault_text(e.error->0) + ", line: "@ + e.line + "\n"@;
    if v.len() > 0 {
        let front = v.drop_last();
        lemma_problem_lines(front);
        assert(v.map_values(f) =~= front.map_values(f).push(f(v.last())));
        front.map_values(f).lemma_flatten_push(f(v.last()));
    } else {
        assert(report::problem_lines(v) =~= v.map_values(f).flatten());
    }
}

/// Each image that could not be embedded has its line in the report, in their order.
pub proof fn lemma_error_lines(v: Seq<(LinkTarget, Cause)>)
    ensures
        report::error_lines(v) == v.map_values(
            |e: (LinkTarget, Cause)|
                "link: "@ + link::shown(e.0) + ", cause: "@ + embed::cause_text(e.1) + "\n"@,
        ).flatten(),
    decreases v.len(),
{
    let f = |e: (LinkTarget, Cause)|
        "link: "@ + link::shown(e.0) + ", cause: "@ + embed::cause_text(e.1) + "\n"@;
    if v.len() > 0 {
        let front = v.drop_last();
        lemma_error_lines(front);
        assert(v.map_values(f) =~= front.map_values(f).push(f(v.last())));
        front.map_values(f).lemma_flatten_push(f(v.last()));
    } else {
        assert(report::error_lines(v) =~= v.map_values(f).flatten());
    }
}

} // verus!
