//! The image links of a document: which are looked at, what they point to, and how they are
//! replaced.
use vstd::prelude::*;
use crate::check;
use crate::check::LinkCheckError;
use crate::cmd::CheckerArgs;
use crate::cmd::Duration;
use crate::embed;
use crate::embed::EmbedError;
use crate::embed::EmbedJob;
use crate::embed::JobOutcome;
use crate::encode;
use crate::image_format::ImageFormat;
use crate::link;
use crate::link::Link;
use crate::link::LinkTarget;
use crate::link::LinkType;
use crate::markdown;
use crate::markdown::Image;
use crate::markdown::ImageSpan;
use crate::path;
use crate::path::UnixPath;
use crate::text;

verus! {

/// An image link of a document and what its check came to.
#[derive(Debug)]
pub struct CheckInfo {
    /// The path of the document; empty if it is not UTF-8.
    pub path: String,
    /// The whole image link.
    pub image_link: String,
    /// What the link points to.
    pub link: Link,
    /// The line the image link is on.
    pub line: String,
    /// The number of that line, counted from 1.
    pub row_num: usize,
    pub col_num: usize,
    /// Why the link does not count, if it does not.
    pub error: Option<LinkCheckError>,
}

/// The content of a `CheckInfo`.
pub ghost struct CheckEntry {
    pub path: Seq<char>,
    pub image_link: Seq<char>,
    pub link: LinkTarget,
    pub line: Seq<char>,
    pub row_num: int,
    pub col_num: int,
    pub error: Option<check::Fault>,
}

impl View for CheckInfo {
    type V = CheckEntry;

    open spec fn view(&self) -> CheckEntry {
        CheckEntry {
            path: self.path@,
            image_link: self.image_link@,
            link: self.link@,
            line: self.line@,
            row_num: self.row_num as int,
            col_num: self.col_num as int,
            error: match self.error {
                Some(e) => Some(e@),
                None => None,
            },
        }
    }
}

/// The contents of a list.
pub open spec fn entries(v: Seq<CheckInfo>) -> Seq<CheckEntry> {
    v.map_values(|info: CheckInfo| info@)
}

/// The text of a path; empty if it is not UTF-8.
pub open spec fn path_text(p: Seq<u8>) -> Seq<char> {
    if text::is_utf8(p) {
        text::chars_of(p)
    } else {
        seq![]
    }
}

/// What an image link in the document at `path` points to.
pub open spec fn target_of(path: Seq<u8>, b: Seq<u8>, m: Image) -> LinkTarget {
    let s = text::chars_of(m.link(b));
    link::resolved(path, s, link::parsed_url(s))
}

/// What the image links of the document at `path` point to.
pub open spec fn targets_of(path: Seq<u8>, b: Seq<u8>, found: Seq<Image>) -> Seq<LinkTarget> {
    found.map_values(|m: Image| target_of(path, b, m))
}

/// Whether places are those of image links.
pub open spec fn are_images(b: Seq<u8>, found: Seq<Image>) -> bool {
    forall|k: int| 0 <= k < found.len() ==> markdown::is_image(b, #[trigger] found[k])
}

/// What is noted of an image link on a line.
pub open spec fn entry_of(
    path: Seq<u8>,
    line: Seq<u8>,
    row: int,
    m: Image,
    target: LinkTarget,
) -> CheckEntry {
    CheckEntry {
        path: path_text(path),
        image_link: text::chars_of(m.whole(line)),
        link: target,
        line: text::chars_of(line),
        row_num: row,
        col_num: 0,
        error: None,
    }
}

/// What is noted of those image links of a line that are of the kind looked at, given what they
/// point to.
pub open spec fn line_entries(
    path: Seq<u8>,
    line: Seq<u8>,
    row: int,
    kind: LinkType,
    found: Seq<Image>,
    targets: Seq<LinkTarget>,
) -> Seq<CheckEntry>
    decreases found.len(),
{
    if found.len() == 0 {
        seq![]
    } else {
        let front = line_entries(path, line, row, kind, found.drop_last(), targets.drop_last());
        if kind.covers(targets.last()) {
            front.push(entry_of(path, line, row, found.last(), targets.last()))
        } else {
            front
        }
    }
}

/// What is noted of the image links of the lines from `i` on, the first of which has the number
/// `row`.
pub open spec fn entries_from(path: Seq<u8>, b: Seq<u8>, i: int, row: int, kind: LinkType) -> Seq<
    CheckEntry,
>
    decreases b.len() - i,
{
    if i < 0 || i >= b.len() {
        seq![]
    } else {
        let e = text::run_end(b, markdown::NEWLINE, i);
        let line = b.subrange(i, markdown::line_end(b, i, e));
        let found = markdown::images(line);
        let rest = if i <= e < b.len() {
            entries_from(path, b, e + 1, row + 1, kind)
        } else {
            seq![]
        };
        line_entries(path, line, row, kind, found, targets_of(path, line, found)) + rest
    }
}

/// What links point to.
pub open spec fn links_view(v: Seq<Link>) -> Seq<LinkTarget> {
    v.map_values(|l: Link| l@)
}

/// Settles what the image links of the document at `path` point to.
fn resolve_all(path: &UnixPath, text: &str, spans: &Vec<ImageSpan>) -> (res: Vec<Link>)
    requires
        path::parent(path@) is Some,
        are_images(text::utf8(text@), markdown::places(spans@)),
    ensures
        links_view(res@) == targets_of(path@, text::utf8(text@), markdown::places(spans@)),
{
    let mut targets: Vec<Link> = Vec::new();
    let ghost b = text::utf8(text@);
    let ghost found = markdown::places(spans@);
    let mut k: usize = 0;
    while k < spans.len()
        invariant
            path::parent(path@) is Some,
            b == text::utf8(text@),
            found == markdown::places(spans@),
            are_images(b, found),
            k <= spans.len(),
            links_view(targets@) =~= targets_of(path@, b, found.take(k as int)),
        decreases spans.len() - k,
    {
        let m: ImageSpan = spans[k];
        assert(found[k as int] == m@);
        let target = link::parse_link(path, text::cut_str(text, m.alt_end + 2, m.link_end));
        let ghost had = targets@;
        targets.push(target);
        proof {
            assert(links_view(targets@) =~= links_view(had).push(target@));
            assert(found.take(k + 1) =~= found.take(k as int).push(m@));
        }
        k += 1;
    }
    assert(found.take(k as int) =~= found);
    targets
}

/// Notes those image links of a line that are of the kind looked at, given what they point to.
pub fn note_line(
    path: &UnixPath,
    line: &str,
    row: usize,
    kind: LinkType,
    spans: &Vec<ImageSpan>,
    targets: &Vec<Link>,
) -> (res: Vec<CheckInfo>)
    requires
        are_images(text::utf8(line@), markdown::places(spans@)),
        targets.len() == spans.len(),
    ensures
        entries(res@) == line_entries(
            path@,
            text::utf8(line@),
            row as int,
            kind,
            markdown::places(spans@),
            links_view(targets@),
        ),
{
    let shown = match path.to_str() {
        Some(s) => s,
        None => "",
    };
    let ghost b = text::utf8(line@);
    let ghost found = markdown::places(spans@);
    let ghost to = links_view(targets@);
    proof {
        reveal_strlit("");
        assert(shown@ =~= path_text(path@));
        text::lemma_utf8_text(line@);
    }
    let size: usize = line.as_bytes().len();
    let mut infos: Vec<CheckInfo> = Vec::new();
    let mut k: usize = 0;
    while k < spans.len()
        invariant
            size == b.len(),
            b == text::utf8(line@),
            text::chars_of(b) == line@,
            found == markdown::places(spans@),
            to == links_view(targets@),
            are_images(b, found),
            targets.len() == spans.len(),
            shown@ == path_text(path@),
            k <= spans.len(),
            entries(infos@) =~= line_entries(
                path@,
                b,
                row as int,
                kind,
                found.take(k as int),
                to.take(k as int),
            ),
        decreases spans.len() - k,
    {
        let m: ImageSpan = spans[k];
        let target: &Link = &targets[k];
        proof {
            assert(found[k as int] == m@);
            assert(markdown::is_image(b, found[k as int]));
            assert(to[k as int] == target@);
            assert(found.take(k + 1).drop_last() =~= found.take(k as int));
            assert(to.take(k + 1).drop_last() =~= to.take(k as int));
        }
        if kind.selects(target) {
            let ghost had = infos@;
            let whole = text::cut_str(line, m.start, m.link_end + 1);
            infos.push(
                CheckInfo {
                    path: shown.to_string(),
                    image_link: whole.to_string(),
                    link: target.clone(),
                    line: line.to_string(),
                    row_num: row,
                    col_num: 0,
                    error: None,
                },
            );
            proof {
                assert(entries(infos@) =~= entries(had).push(infos@.last()@));
                assert(infos@.last()@ == entry_of(path@, b, row as int, m@, target@));
            }
        }
        k += 1;
    }
    assert(found.take(k as int) =~= found);
    assert(to.take(k as int) =~= to);
    infos
}

/// Takes the places on one line out of those of the text, from the place `next` on. The line
/// starts at `i`, its text ends at `c` and its line break starts at `e`.
fn spans_of_line(
    spans: &Vec<ImageSpan>,
    next: usize,
    i: usize,
    c: usize,
    e: usize,
    Ghost(b): Ghost<Seq<u8>>,
) -> (res: Vec<ImageSpan>)
    requires
        i <= c <= e <= b.len(),
        next <= spans.len(),
        markdown::places(spans@.skip(next as int)) == markdown::all_shifted(
            markdown::images(b.subrange(i as int, c as int)),
            i as int,
        ) + markdown::images_from(b, e + 1),
    ensures
        markdown::places(res@) == markdown::images(b.subrange(i as int, c as int)),
        next + res.len() <= spans.len(),
        markdown::places(spans@.skip(next + res.len())) == markdown::images_from(b, e + 1),
{
    let ghost line = b.subrange(i as int, c as int);
    let ghost found = markdown::images(line);
    let ghost later = markdown::images_from(b, e + 1);
    proof {
        markdown::lemma_images(line, 0);
        markdown::lemma_images(b, e + 1);
        assert(markdown::places(spans@.skip(next as int)).len() == spans.len() - next);
        assert forall|k: int| 0 <= k < spans.len() - next implies (#[trigger] spans@[next + k])@
            == (markdown::all_shifted(found, i as int) + later)[k] by {
            assert(markdown::places(spans@.skip(next as int))[k] == spans@.skip(next as int)[k]@);
        }
    }
    let mut own: Vec<ImageSpan> = Vec::new();
    let mut at: usize = next;
    while at < spans.len() && spans[at].start < e
        invariant
            i <= c <= e <= b.len(),
            line == b.subrange(i as int, c as int),
            next <= at <= spans.len(),
            at - next <= found.len(),
            spans.len() - next == found.len() + later.len(),
            forall|k: int|
                0 <= k < spans.len() - next ==> (#[trigger] spans@[next + k])@ == (
                markdown::all_shifted(found, i as int) + later)[k],
            forall|k: int| 0 <= k < found.len() ==> markdown::is_image(line, #[trigger] found[k]),
            forall|k: int| 0 <= k < later.len() ==> e < (#[trigger] later[k]).start,
            own.len() == at - next,
            markdown::places(own@) =~= found.take(at - next),
        decreases spans.len() - at,
    {
        let m: ImageSpan = spans[at];
        let ghost k = at - next;
        proof {
            assert(spans@[next + k] == m);
            if k == found.len() {
                assert(m@ == later[0]);
            }
            assert(m@ == markdown::shifted(found[k], i as int));
            assert(markdown::is_image(line, found[k]));
        }
        let ghost had = own@;
        own.push(
            ImageSpan { start: m.start - i, alt_end: m.alt_end - i, link_end: m.link_end - i },
        );
        assert(markdown::places(own@) =~= markdown::places(had).push(found[k]));
        at += 1;
    }
    proof {
        if at - next < found.len() {
            assert(spans@[next + (at - next)]@ == markdown::shifted(found[at - next], i as int));
            assert(markdown::is_image(line, found[at - next]));
        }
        assert(found.take(at - next) =~= found);
        assert forall|k: int| 0 <= k < later.len() implies (#[trigger] markdown::places(
            spans@.skip(at as int),
        )[k]) == later[k] by {
            assert(spans@[next + (found.len() + k)]@ == later[k]);
        }
        assert(markdown::places(spans@.skip(at as int)) =~= later);
    }
    own
}

/// Notes the image links to be checked on the line that starts at `i` and whose newline, if it
/// has one, is at `e`. The image links of the text from that line on are those from `next` on;
/// the second result says from where on they are those of the following lines.
fn check_line(
    path: &UnixPath,
    text: &str,
    kind: LinkType,
    row: usize,
    i: usize,
    e: usize,
    spans: &Vec<ImageSpan>,
    next: usize,
) -> (res: (Vec<CheckInfo>, usize))
    requires
        path::parent(path@) is Some,
        i < text::utf8(text@).len(),
        text::is_cut(text::utf8(text@), i as int),
        e == text::run_end(text::utf8(text@), markdown::NEWLINE, i as int),
        next <= spans.len(),
        markdown::places(spans@.skip(next as int)) == markdown::images_from(
            text::utf8(text@),
            i as int,
        ),
    ensures
        ({
            let b = text::utf8(text@);
            let line = b.subrange(i as int, markdown::line_end(b, i as int, e as int));
            let found = markdown::images(line);
            entries(res.0@) == line_entries(
                path@,
                line,
                row as int,
                kind,
                found,
                targets_of(path@, line, found),
            )
        }),
        res.1 <= spans.len(),
        markdown::places(spans@.skip(res.1 as int)) == markdown::images_from(
            text::utf8(text@),
            e + 1,
        ),
{
    let ghost b = text::utf8(text@);
    let bytes = text.as_bytes();
    proof {
        text::lemma_run_end(b, markdown::NEWLINE, i as int);
        markdown::lemma_line_images(b, i as int, 0);
    }
    let c: usize = if i < e && e < bytes.len() && bytes[e - 1] == markdown::CARRIAGE_RETURN {
        e - 1
    } else {
        e
    };
    let own = spans_of_line(spans, next, i, c, e, Ghost(b));
    let line = text::cut_str(text, i, c);
    proof {
        markdown::lemma_images(text::utf8(line@), 0);
    }
    let targets = resolve_all(path, line, &own);
    assert(links_view(targets@).len() == own.len());
    (note_line(path, line, row, kind, &own, &targets), next + own.len())
}

/// What is noted from a line on is what is noted of that line, and from the next line on.
proof fn lemma_entries_step(path: Seq<u8>, b: Seq<u8>, i: int, row: int, kind: LinkType)
    requires
        0 <= i < b.len(),
    ensures
        ({
            let e = text::run_end(b, markdown::NEWLINE, i);
            let line = b.subrange(i, markdown::line_end(b, i, e));
            let found = markdown::images(line);
            entries_from(path, b, i, row, kind) == line_entries(
                path,
                line,
                row,
                kind,
                found,
                targets_of(path, line, found),
            ) + entries_from(path, b, e + 1, row + 1, kind)
        }),
{
    text::lemma_run_end(b, markdown::NEWLINE, i);
}

/// Checks the image links of documents, and embeds the images.
#[derive(Debug, Clone, Copy)]
pub struct Checker {
    pub args: CheckerArgs,
}

impl Checker {
    /// A checker with the given arguments.
    pub fn new(args: CheckerArgs) -> (res: Checker)
        ensures
            res.args == args,
    {
        Checker { args }
    }

    /// Notes the image links of the document at `path` that are to be checked, line by line.
    /// None of them has been checked yet.
    pub fn check(&self, path: &UnixPath, text: &str) -> (res: Vec<CheckInfo>)
        requires
            path::parent(path@) is Some,
        ensures
            entries(res@) == entries_from(
                path@,
                text::utf8(text@),
                0,
                1,
                self.args.image_link_type,
            ),
    {
        let kind = self.args.image_link_type;
        let spans = markdown::find_images(text);
        let bytes = text.as_bytes();
        let ghost b = text::utf8(text@);
        let mut infos: Vec<CheckInfo> = Vec::new();
        let mut i: usize = 0;
        let mut row: usize = 1;
        let mut next: usize = 0;
        proof {
            assert(spans@.skip(0) =~= spans@);
            assert(entries(infos@) + entries_from(path@, b, 0, 1, kind) =~= entries_from(
                path@,
                b,
                0,
                1,
                kind,
            ));
        }
        while i < bytes.len()
            invariant
                path::parent(path@) is Some,
                kind == self.args.image_link_type,
                b == text::utf8(text@),
                bytes@ == b,
                i <= b.len(),
                1 <= row <= i + 1,
                next <= spans.len(),
                text::is_cut(b, i as int),
                markdown::places(spans@.skip(next as int)) == markdown::images_from(b, i as int),
                entries_from(path@, b, 0, 1, kind) == entries(infos@) + entries_from(
                    path@,
                    b,
                    i as int,
                    row as int,
                    kind,
                ),
            decreases b.len() - i,
        {
            let e: usize = text::find_run_end(bytes, markdown::NEWLINE, i);
            let (mut noted, left_at) = check_line(path, text, kind, row, i, e, &spans, next);
            proof {
                text::lemma_run_end(b, markdown::NEWLINE, i as int);
                lemma_entries_step(path@, b, i as int, row as int, kind);
            }
            let ghost had = entries(infos@);
            let ghost new = entries(noted@);
            let ghost rest = entries_from(path@, b, e + 1, row + 1, kind);
            infos.append(&mut noted);
            proof {
                assert(entries(infos@) =~= had + new);
                assert(had + (new + rest) =~= (had + new) + rest);
            }
            if e >= bytes.len() - 1 {
                assert(entries(infos@) + rest =~= entries(infos@));
                return infos;
            }
            next = left_at;
            i = e + 1;
            row += 1;
        }
        assert(entries(infos@) + Seq::<CheckEntry>::empty() =~= entries(infos@));
        infos
    }

    /// Makes the jobs for the image links of the document at `path` whose images are to be
    /// embedded.
    pub fn embed_jobs(&self, path: &UnixPath, text: &str) -> (res: Vec<EmbedJob>)
        requires
            path::parent(path@) is Some,
        ensures
            embed::jobs_view(res@) == embed::jobs_of(
                text::utf8(text@),
                self.args.image_link_type,
                markdown::images(text::utf8(text@)),
                targets_of(path@, text::utf8(text@), markdown::images(text::utf8(text@))),
            ),
    {
        let spans = markdown::find_images(text);
        proof {
            markdown::lemma_images(text::utf8(text@), 0);
        }
        let targets = resolve_all(path, text, &spans);
        assert(links_view(targets@).len() == spans.len());
        embed::select_jobs(text, self.args.image_link_type, &spans, &targets)
    }

    /// Embeds the images that the jobs made ready into the text, and gives back with it why
    /// others failed. Without an image that is ready the text stays as it is. `now` is the time
    /// since the start of 1970.
    pub fn embed_base64(&self, text: &str, outcomes: Vec<JobOutcome>, now: Duration) -> (res: (
        String,
        Vec<EmbedError>,
    ))
        requires
            embed::ready_images(embed::outcomes_view(outcomes@)) != Map::<
                Seq<char>,
                (Seq<char>, ImageFormat),
            >::empty() ==> encode::is_writable(now),
        ensures
            embed::errors_view(res.1@) == embed::failures(embed::outcomes_view(outcomes@)),
            ({
                let links = embed::ready_images(embed::outcomes_view(outcomes@));
                if links == Map::<Seq<char>, (Seq<char>, ImageFormat)>::empty() {
                    res.0@ == text@
                } else {
                    text::utf8(res.0@) == embed::replaced(text::utf8(text@), links, now)
                }
            }),
    {
        let (links, errors) = embed::gather(outcomes);
        if links.is_empty() {
            return (text.to_string(), errors);
        }
        (embed::replace(text, &links, now), errors)
    }
}

/// An image link that was noted, and what its check came to; `None` if the check was lost.
pub type Checked = (CheckInfo, Option<Result<(), LinkCheckError>>);

/// What was noted, with what the checks came to. Where a check was lost, nothing is left.
pub open spec fn concluded(checked: Seq<Checked>) -> Seq<CheckEntry>
    decreases checked.len(),
{
    if checked.len() == 0 {
        seq![]
    } else {
        let front = concluded(checked.drop_last());
        let noted = checked.last().0@;
        match checked.last().1 {
            Some(Ok(_)) => front.push(CheckEntry { error: None, ..noted }),
            Some(Err(e)) => front.push(CheckEntry { error: Some(e@), ..noted }),
            None => front,
        }
    }
}

/// Enters what the checks of the links came to. A link whose check was lost is left out.
pub fn conclude(checked: Vec<Checked>) -> (res: Vec<CheckInfo>)
    ensures
        entries(res@) == concluded(checked@),
{
    let ghost all = checked@;
    let mut infos: Vec<CheckInfo> = Vec::new();
    assert(all.take(0) =~= seq![]);
    for pair in it: checked
        invariant
            all == it.seq(),
            entries(infos@) =~= concluded(all.take(it.index() as int)),
    {
        let ghost k = it.index() as int;
        proof {
            assert(all.take(k + 1).drop_last() =~= all.take(k));
            assert(all.take(k + 1).last() == pair);
        }
        let (mut info, outcome) = pair;
        if let Some(result) = outcome {
            let ghost had = infos@;
            info.error = match result {
                Ok(_) => None,
                Err(e) => Some(e),
            };
            infos.push(info);
            assert(entries(infos@) =~= entries(had).push(info@));
        }
    }
    assert(all.take(all.len() as int) =~= all);
    infos
}

/// An image link and what it points to, of what is noted.
pub open spec fn jobs_in(v: Seq<CheckEntry>) -> Seq<(Seq<char>, LinkTarget)> {
    v.map_values(|e: CheckEntry| (e.image_link, e.link))
}

/// Jobs are made for one image link after the other.
proof fn lemma_jobs_concat(
    b: Seq<u8>,
    kind: LinkType,
    f1: Seq<Image>,
    t1: Seq<LinkTarget>,
    f2: Seq<Image>,
    t2: Seq<LinkTarget>,
)
    requires
        f1.len() == t1.len(),
        f2.len() == t2.len(),
    ensures
        embed::jobs_of(b, kind, f1 + f2, t1 + t2) == embed::jobs_of(b, kind, f1, t1)
            + embed::jobs_of(b, kind, f2, t2),
    decreases f2.len(),
{
    if f2.len() == 0 {
        assert(f1 + f2 =~= f1);
        assert(t1 + t2 =~= t1);
        assert(embed::jobs_of(b, kind, f1, t1) + embed::jobs_of(b, kind, f2, t2)
            =~= embed::jobs_of(b, kind, f1, t1));
    } else {
        assert((f1 + f2).drop_last() =~= f1 + f2.drop_last());
        assert((t1 + t2).drop_last() =~= t1 + t2.drop_last());
        lemma_jobs_concat(b, kind, f1, t1, f2.drop_last(), t2.drop_last());
        assert(embed::jobs_of(b, kind, f1 + f2, t1 + t2) =~= embed::jobs_of(b, kind, f1, t1)
            + embed::jobs_of(b, kind, f2, t2));
    }
}

/// What stands in an image link is the same on its line and in the whole text.
proof fn lemma_shifted(b: Seq<u8>, i: int, c: int, m: Image)
    requires
        0 <= i <= c <= b.len(),
        markdown::is_image(b.subrange(i, c), m),
    ensures
        markdown::shifted(m, i).whole(b) == m.whole(b.subrange(i, c)),
        markdown::shifted(m, i).link(b) == m.link(b.subrange(i, c)),
{
    let line = b.subrange(i, c);
    assert(markdown::shifted(m, i).whole(b) =~= m.whole(line));
    assert(markdown::shifted(m, i).link(b) =~= m.link(line));
}

/// What is noted of a line is what the jobs for its image links in the text are made for.
proof fn lemma_line_jobs(
    path: Seq<u8>,
    b: Seq<u8>,
    i: int,
    c: int,
    row: int,
    kind: LinkType,
    found: Seq<Image>,
)
    requires
        0 <= i <= c <= b.len(),
        are_images(b.subrange(i, c), found),
    ensures
        ({
            let line = b.subrange(i, c);
            let moved = markdown::all_shifted(found, i);
            jobs_in(line_entries(path, line, row, kind, found, targets_of(path, line, found)))
                == embed::jobs_of(b, kind, moved, targets_of(path, b, moved))
        }),
    decreases found.len(),
{
    let line = b.subrange(i, c);
    let moved = markdown::all_shifted(found, i);
    let to = targets_of(path, line, found);
    let moved_to = targets_of(path, b, moved);
    let noted = line_entries(path, line, row, kind, found, to);
    if found.len() == 0 {
        assert(jobs_in(noted) =~= embed::jobs_of(b, kind, moved, moved_to));
    } else {
        let f = found.drop_last();
        assert(are_images(line, f)) by {
            assert forall|k: int| 0 <= k < f.len() implies markdown::is_image(line, #[trigger] f[k]) by {
                assert(f[k] == found[k]);
            }
        }
        lemma_line_jobs(path, b, i, c, row, kind, f);
        let m = found[found.len() - 1];
        assert(markdown::is_image(line, m));
        lemma_shifted(b, i, c, m);
        assert(moved.drop_last() =~= markdown::all_shifted(f, i));
        assert(to.drop_last() =~= targets_of(path, line, f));
        assert(moved_to.drop_last() =~= targets_of(path, b, moved.drop_last()));
        assert(moved.last() == markdown::shifted(m, i));
        assert(to.last() == moved_to.last());
        let front = line_entries(path, line, row, kind, f, to.drop_last());
        assert(jobs_in(noted) =~= embed::jobs_of(b, kind, moved, moved_to)) by {
            if kind.covers(to.last()) {
                assert(jobs_in(noted) =~= jobs_in(front).push(
                    (text::chars_of(m.whole(line)), to.last()),
                ));
            }
        }
    }
}

proof fn lemma_lines_jobs(path: Seq<u8>, b: Seq<u8>, i: int, row: int, kind: LinkType)
    requires
        0 <= i,
    ensures
        jobs_in(entries_from(path, b, i, row, kind)) == embed::jobs_of(
            b,
            kind,
            markdown::images_from(b, i),
            targets_of(path, b, markdown::images_from(b, i)),
        ),
    decreases b.len() + 1 - i,
{
    let found = markdown::images_from(b, i);
    markdown::lemma_images_by_line(b, i);
    if i < b.len() {
        let e = text::run_end(b, markdown::NEWLINE, i);
        text::lemma_run_end(b, markdown::NEWLINE, i);
        let c = markdown::line_end(b, i, e);
        let line = b.subrange(i, c);
        let own = markdown::images(line);
        let moved = markdown::all_shifted(own, i);
        let later = markdown::images_from(b, e + 1);
        markdown::lemma_line_images(b, i, 0);
        markdown::lemma_images(line, 0);
        lemma_line_jobs(path, b, i, c, row, kind, own);
        lemma_lines_jobs(path, b, e + 1, row + 1, kind);
        lemma_jobs_concat(
            b,
            kind,
            moved,
            targets_of(path, b, moved),
            later,
            targets_of(path, b, later),
        );
        assert(targets_of(path, b, found) =~= targets_of(path, b, moved) + targets_of(
            path,
            b,
            later,
        ));
        let noted = line_entries(path, line, row, kind, own, targets_of(path, line, own));
        let rest = entries_from(path, b, e + 1, row + 1, kind);
        assert(entries_from(path, b, i, row, kind) =~= noted + rest);
        assert(jobs_in(noted + rest) =~= jobs_in(noted) + jobs_in(rest));
    } else {
        assert(found =~= seq![]);
        assert(jobs_in(entries_from(path, b, i, row, kind)) =~= seq![]);
    }
}

/// Checking and embedding look at the same image links, in the same order, and take them to
/// point to the same.
pub proof fn lemma_check_and_embed_agree(path: Seq<u8>, b: Seq<u8>, kind: LinkType)
    ensures
        jobs_in(entries_from(path, b, 0, 1, kind)) == embed::jobs_of(
            b,
            kind,
            markdown::images(b),
            targets_of(path, b, markdown::images(b)),
        ),
{
    lemma_lines_jobs(path, b, 0, 1, kind);
}

} // verus!
