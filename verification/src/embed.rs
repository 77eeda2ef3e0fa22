//! Embedding images: each image link is replaced by a reference, `![alt][id]`, and the images
//! follow at the end of the document, `[id]:data:image/png;base64,...`.
use vstd::prelude::*;
use vstd::hash_map::StringHashMap;
use crate::check;
use crate::check::LinkCheckError;
use crate::cmd::Duration;
use crate::encode;
use crate::image;
use crate::image_format;
use crate::image_format::ImageFormat;
use crate::link;
use crate::link::Link;
use crate::link::LinkTarget;
use crate::link::LinkType;
use crate::markdown;
use crate::markdown::Image;
use crate::markdown::ImageSpan;
use crate::text;

verus! {

/// An image in base64 form and its format.
#[derive(Debug)]
pub struct EncodedImage {
    pub base64: String,
    pub format: ImageFormat,
}

impl View for EncodedImage {
    type V = (Seq<char>, ImageFormat);

    open spec fn view(&self) -> (Seq<char>, ImageFormat) {
        (self.base64@, self.format)
    }
}

/// The images to embed, by the image links that stand for them.
pub struct ImageTable {
    images: StringHashMap<EncodedImage>,
}

impl View for ImageTable {
    type V = Map<Seq<char>, (Seq<char>, ImageFormat)>;

    closed spec fn view(&self) -> Map<Seq<char>, (Seq<char>, ImageFormat)> {
        self.images@.map_values(|e: EncodedImage| e@)
    }
}

impl ImageTable {
    /// The empty table.
    pub fn new() -> (res: ImageTable)
        ensures
            res@ == Map::<Seq<char>, (Seq<char>, ImageFormat)>::empty(),
    {
        let res = ImageTable { images: StringHashMap::new() };
        assert(res@ =~= Map::<Seq<char>, (Seq<char>, ImageFormat)>::empty());
        res
    }

    /// Enters an image for an image link, in place of any other.
    pub fn insert(&mut self, image_link: String, image: EncodedImage)
        ensures
            final(self)@ == old(self)@.insert(image_link@, image@),
    {
        self.images.insert(image_link, image);
        assert(self@ =~= old(self)@.insert(image_link@, image@));
    }

    /// The image for an image link.
    pub fn get(&self, image_link: &str) -> (res: Option<&EncodedImage>)
        ensures
            res is Some <==> self@.contains_key(image_link@),
            res matches Some(e) ==> self@[image_link@] == e@,
    {
        self.images.get(image_link)
    }

    /// Whether there is no image.
    pub fn is_empty(&self) -> (res: bool)
        ensures
            res == (self@ == Map::<Seq<char>, (Seq<char>, ImageFormat)>::empty()),
    {
        let res = self.images.is_empty();
        proof {
            if res {
                assert(self@ =~= Map::<Seq<char>, (Seq<char>, ImageFormat)>::empty());
            } else {
                let k = choose|k: Seq<char>| self.images@.contains_key(k);
                assert(self@.contains_key(k));
            }
        }
        res
    }
}

/// The id of the `count`th embedded image, counted from 0.
pub open spec fn id_of(count: nat, name: Seq<char>) -> Seq<char> {
    text::decimal(count) + "_"@ + name
}

/// The line that holds an embedded image.
pub open spec fn definition(id: Seq<char>, image: (Seq<char>, ImageFormat)) -> Seq<char> {
    "["@ + id + "]:data:image/"@ + image.1.name() + ";base64,"@ + image.0 + "\n"@
}

/// What an image link is replaced by.
pub open spec fn reference(alt: Seq<u8>, id: Seq<char>) -> Seq<u8> {
    text::utf8("!["@) + alt + text::utf8("]["@ + id + "]"@)
}

/// How far a document has been rewritten.
pub ghost struct Rewriting {
    /// The rewritten text.
    pub text: Seq<u8>,
    /// The lines that hold the embedded images.
    pub notes: Seq<char>,
    /// How many images have been embedded.
    pub count: nat,
    /// Where the text that is still to be rewritten starts.
    pub end: int,
}

/// The document rewritten up to the end of the last of the image links. Those that stand in
/// `links` are replaced; the rest of the text stays.
pub open spec fn rewriting(
    b: Seq<u8>,
    links: Map<Seq<char>, (Seq<char>, ImageFormat)>,
    found: Seq<Image>,
    names: Seq<Seq<char>>,
) -> Rewriting
    decreases found.len(),
{
    if found.len() == 0 {
        Rewriting { text: seq![], notes: seq![], count: 0, end: 0 }
    } else {
        let r = rewriting(b, links, found.drop_last(), names.drop_last());
        let m = found.last();
        let head = r.text + b.subrange(r.end, m.start);
        let key = text::chars_of(m.whole(b));
        if links.contains_key(key) {
            let id = id_of(r.count, names.last());
            Rewriting {
                text: head + reference(m.alt(b), id),
                notes: r.notes + definition(id, links[key]),
                count: r.count + 1,
                end: m.end(),
            }
        } else {
            Rewriting { text: head + m.whole(b), end: m.end(), ..r }
        }
    }
}

/// What stands between the text and the embedded images.
pub open spec fn banner(stamp: Seq<char>) -> Seq<char> {
    "\n\n<!-- auto generated by mdutil at "@ + stamp + " -->\n\n"@
}

/// The rewritten document.
pub open spec fn rewritten(
    b: Seq<u8>,
    links: Map<Seq<char>, (Seq<char>, ImageFormat)>,
    found: Seq<Image>,
    names: Seq<Seq<char>>,
    stamp: Seq<char>,
) -> Seq<u8> {
    let r = rewriting(b, links, found, names);
    r.text + b.subrange(r.end, b.len() as int) + text::utf8(banner(stamp) + r.notes)
}

/// Whether places are those of image links, one behind the other.
pub open spec fn in_order(b: Seq<u8>, found: Seq<Image>) -> bool {
    &&& image::are_images(b, found)
    &&& forall|j: int, k: int|
        0 <= j < k < found.len() ==> (#[trigger] found[j]).end() <= (#[trigger] found[k]).start
}

/// Texts by their characters.
pub open spec fn texts(v: Seq<String>) -> Seq<Seq<char>> {
    v.map_values(|s: String| s@)
}

fn make_id(count: u64, name: &str) -> (res: String)
    ensures
        res@ == id_of(count as nat, name@),
{
    let mut id = text::to_decimal(count);
    id.append("_");
    id.append(name);
    id
}

fn make_mark(id: &str) -> (res: String)
    ensures
        res@ == "]["@ + id@ + "]"@,
{
    let mut mark = "][".to_string();
    mark.append(id);
    mark.append("]");
    mark
}

fn make_definition(id: &str, image: &EncodedImage) -> (res: String)
    ensures
        res@ == definition(id@, image@),
{
    let mut line = "[".to_string();
    line.append(id);
    line.append("]:data:image/");
    line.append(image.format.lower_name());
    line.append(";base64,");
    line.append(image.base64.as_str());
    line.append("\n");
    line
}

/// Replaces the image links at the given places that stand in `links`, and puts their images
/// behind the text. The names go into the ids; `stamp` says when.
pub fn rewrite_links(
    text: &str,
    spans: &Vec<ImageSpan>,
    names: &Vec<String>,
    links: &ImageTable,
    stamp: &str,
) -> (res: String)
    requires
        in_order(text::utf8(text@), markdown::places(spans@)),
        names.len() == spans.len(),
    ensures
        text::utf8(res@) == rewritten(
            text::utf8(text@),
            links@,
            markdown::places(spans@),
            texts(names@),
            stamp@,
        ),
{
    let ghost b = text::utf8(text@);
    let ghost found = markdown::places(spans@);
    let ghost called = texts(names@);
    let size: usize = text.as_bytes().len();
    let mut out = String::new();
    let mut notes = String::new();
    let mut count: u64 = 0;
    let mut end: usize = 0;
    let mut k: usize = 0;
    proof {
        assert(text::utf8(out@) =~= seq![]);
        assert(notes@ =~= seq![]);
    }
    while k < spans.len()
        invariant
            b == text::utf8(text@),
            size == b.len(),
            found == markdown::places(spans@),
            called == texts(names@),
            in_order(b, found),
            names.len() == spans.len(),
            k <= spans.len(),
            count <= k,
            end <= b.len(),
            text::is_cut(b, end as int),
            k > 0 ==> end == found[k - 1].end(),
            k == 0 ==> end == 0,
            ({
                let r = rewriting(b, links@, found.take(k as int), called.take(k as int));
                &&& text::utf8(out@) == r.text
                &&& notes@ == r.notes
                &&& count == r.count
                &&& end == r.end
            }),
        decreases spans.len() - k,
    {
        let m: ImageSpan = spans[k];
        let ghost r = rewriting(b, links@, found.take(k as int), called.take(k as int));
        proof {
            assert(found[k as int] == m@);
            assert(markdown::is_image(b, found[k as int]));
            if k > 0 {
                assert(found[k - 1].end() <= found[k as int].start);
            }
            assert(found.take(k + 1).drop_last() =~= found.take(k as int));
            assert(called.take(k + 1).drop_last() =~= called.take(k as int));
            assert(found.take(k + 1).last() == m@);
            assert(called.take(k + 1).last() == names@[k as int]@);
        }
        text::push(&mut out, text::cut_str(text, end, m.start));
        let whole = text::cut_str(text, m.start, m.link_end + 1);
        match links.get(whole) {
            Some(e) => {
                let id = make_id(count, names[k].as_str());
                text::push(&mut out, "![");
                text::push(&mut out, text::cut_str(text, m.start + 2, m.alt_end));
                text::push(&mut out, make_mark(id.as_str()).as_str());
                notes.append(make_definition(id.as_str(), e).as_str());
                proof {
                    let key = text::chars_of(m@.whole(b));
                    assert(text::utf8(out@) =~= r.text + b.subrange(r.end, m@.start) + reference(
                        m@.alt(b),
                        id@,
                    ));
                    assert(notes@ == r.notes + definition(id@, links@[key]));
                }
                count += 1;
            },
            None => {
                text::push(&mut out, whole);
            },
        }
        end = m.link_end + 1;
        k += 1;
    }
    proof {
        assert(found.take(k as int) =~= found);
        assert(called.take(k as int) =~= called);
    }
    text::push(&mut out, text::cut_str(text, end, size));
    let mut tail = "\n\n<!-- auto generated by mdutil at ".to_string();
    tail.append(stamp);
    tail.append(" -->\n\n");
    tail.append(notes.as_str());
    assert(tail@ =~= banner(stamp@) + notes@);
    text::push(&mut out, tail.as_str());
    out
}

/// The file names in the links of image links.
pub open spec fn names_of(b: Seq<u8>, found: Seq<Image>) -> Seq<Seq<char>> {
    found.map_values(
        |m: Image|
            link::name_in(
                text::chars_of(m.link(b)),
                link::parsed_url(text::chars_of(m.link(b))),
            ),
    )
}

fn find_names(text: &str, spans: &Vec<ImageSpan>) -> (res: Vec<String>)
    requires
        image::are_images(text::utf8(text@), markdown::places(spans@)),
    ensures
        texts(res@) == names_of(text::utf8(text@), markdown::places(spans@)),
{
    let ghost b = text::utf8(text@);
    let ghost found = markdown::places(spans@);
    let mut names: Vec<String> = Vec::new();
    let mut k: usize = 0;
    while k < spans.len()
        invariant
            b == text::utf8(text@),
            found == markdown::places(spans@),
            image::are_images(b, found),
            k <= spans.len(),
            texts(names@) =~= names_of(b, found.take(k as int)),
        decreases spans.len() - k,
    {
        let m: ImageSpan = spans[k];
        assert(found[k as int] == m@);
        let name = link::get_link_name(text::cut_str(text, m.alt_end + 2, m.link_end));
        let ghost had = names@;
        names.push(name);
        proof {
            assert(texts(names@) =~= texts(had).push(name@));
            assert(found.take(k + 1) =~= found.take(k as int).push(m@));
        }
        k += 1;
    }
    assert(found.take(k as int) =~= found);
    names
}

/// The document in which the image links that stand in `links` are replaced.
pub open spec fn replaced(
    b: Seq<u8>,
    links: Map<Seq<char>, (Seq<char>, ImageFormat)>,
    now: Duration,
) -> Seq<u8> {
    rewritten(
        b,
        links,
        markdown::images(b),
        names_of(b, markdown::images(b)),
        encode::rfc3339(now.secs, now.nanos),
    )
}

/// Replaces the image links of a text that stand in `links` by references, and puts the images
/// behind the text. `now` is the time since the start of 1970.
pub fn replace(text: &str, links: &ImageTable, now: Duration) -> (res: String)
    requires
        encode::is_writable(now),
    ensures
        text::utf8(res@) == replaced(text::utf8(text@), links@, now),
{
    let spans = markdown::find_images(text);
    proof {
        markdown::lemma_images(text::utf8(text@), 0);
    }
    let names = find_names(text, &spans);
    let stamp = encode::format_timestamp(now.secs, now.nanos);
    assert(texts(names@).len() == spans.len());
    rewrite_links(text, &spans, &names, links, stamp.as_str())
}

/// An image link to embed the image of.
#[derive(Debug)]
pub struct EmbedJob {
    /// The whole image link.
    pub image_link: String,
    /// What it points to.
    pub link: Link,
}

impl View for EmbedJob {
    type V = (Seq<char>, LinkTarget);

    open spec fn view(&self) -> (Seq<char>, LinkTarget) {
        (self.image_link@, self.link@)
    }
}

/// The contents of a list of jobs.
pub open spec fn jobs_view(v: Seq<EmbedJob>) -> Seq<(Seq<char>, LinkTarget)> {
    v.map_values(|j: EmbedJob| j@)
}

/// The jobs for those image links that are of the kind looked at, given what they point to.
pub open spec fn jobs_of(
    b: Seq<u8>,
    kind: LinkType,
    found: Seq<Image>,
    targets: Seq<LinkTarget>,
) -> Seq<(Seq<char>, LinkTarget)>
    decreases found.len(),
{
    if found.len() == 0 {
        seq![]
    } else {
        let front = jobs_of(b, kind, found.drop_last(), targets.drop_last());
        if kind.covers(targets.last()) {
            front.push((text::chars_of(found.last().whole(b)), targets.last()))
        } else {
            front
        }
    }
}

/// Makes the jobs for those image links that are of the kind looked at, given what they point
/// to.
pub fn select_jobs(text: &str, kind: LinkType, spans: &Vec<ImageSpan>, targets: &Vec<Link>) -> (res:
    Vec<EmbedJob>)
    requires
        image::are_images(text::utf8(text@), markdown::places(spans@)),
        targets.len() == spans.len(),
    ensures
        jobs_view(res@) == jobs_of(
            text::utf8(text@),
            kind,
            markdown::places(spans@),
            image::links_view(targets@),
        ),
{
    let ghost b = text::utf8(text@);
    let ghost found = markdown::places(spans@);
    let ghost to = image::links_view(targets@);
    let size: usize = text.as_bytes().len();
    let mut jobs: Vec<EmbedJob> = Vec::new();
    let mut k: usize = 0;
    while k < spans.len()
        invariant
            b == text::utf8(text@),
            size == b.len(),
            found == markdown::places(spans@),
            to == image::links_view(targets@),
            image::are_images(b, found),
            targets.len() == spans.len(),
            k <= spans.len(),
            jobs_view(jobs@) =~= jobs_of(b, kind, found.take(k as int), to.take(k as int)),
        decreases spans.len() - k,
    {
        let m: ImageSpan = spans[k];
        let target: &Link = &targets[k];
        proof {
            assert(found[k as int] == m@);
            assert(markdown::is_image(b, found[k as int]));
            assert(to[k as int] == target@);
            assert(found.take(k + 1).drop_last() =~= found.take(k as int));
            assert(to.take(k + 1).drop_last() =~= to.take(k as int));
        }
        if kind.selects(target) {
            let ghost had = jobs@;
            let whole = text::cut_str(text, m.start, m.link_end + 1);
            jobs.push(EmbedJob { image_link: whole.to_string(), link: target.clone() });
            assert(jobs_view(jobs@) =~= jobs_view(had).push(jobs@.last()@));
        }
        k += 1;
    }
    assert(found.take(k as int) =~= found);
    assert(to.take(k as int) =~= to);
    jobs
}

/// Why the image of a link could not be embedded.
#[derive(Debug)]
pub enum EmbedCause {
    /// The link does not count as a link to an image.
    Check(LinkCheckError),
    /// The image could not be loaded.
    Load(String),
    /// What was loaded does not start like an image.
    UnknownFormat,
}

/// The content of an `EmbedCause`.
pub ghost enum Cause {
    Check(check::Fault),
    Load(Seq<char>),
    UnknownFormat,
}

impl View for EmbedCause {
    type V = Cause;

    open spec fn view(&self) -> Cause {
        match self {
            EmbedCause::Check(e) => Cause::Check(e@),
            EmbedCause::Load(s) => Cause::Load(s@),
            EmbedCause::UnknownFormat => Cause::UnknownFormat,
        }
    }
}

/// The message of a cause.
pub open spec fn cause_text(cause: Cause) -> Seq<char> {
    match cause {
        Cause::Check(fault) => check::fault_text(fault),
        Cause::Load(s) => s,
        Cause::UnknownFormat => "unknown format image"@,
    }
}

impl EmbedCause {
    /// The message of the cause.
    pub fn to_string(&self) -> (res: String)
        ensures
            res@ == cause_text(self@),
    {
        match self {
            EmbedCause::Check(e) => e.to_string(),
            EmbedCause::Load(s) => s.clone(),
            EmbedCause::UnknownFormat => "unknown format image".to_string(),
        }
    }
}

/// That the image of a link could not be embedded.
#[derive(Debug)]
pub struct EmbedError {
    pub link: Link,
    pub cause: EmbedCause,
}

impl View for EmbedError {
    type V = (LinkTarget, Cause);

    open spec fn view(&self) -> (LinkTarget, Cause) {
        (self.link@, self.cause@)
    }
}

/// What became of a job.
#[derive(Debug)]
pub enum JobOutcome {
    /// The job was lost.
    Lost,
    /// The image of an image link is ready.
    Ready(String, EncodedImage),
    /// The image could not be had.
    Failed(EmbedError),
}

/// The content of a `JobOutcome`.
pub ghost enum Outcome {
    Lost,
    Ready(Seq<char>, (Seq<char>, ImageFormat)),
    Failed((LinkTarget, Cause)),
}

impl View for JobOutcome {
    type V = Outcome;

    open spec fn view(&self) -> Outcome {
        match self {
            JobOutcome::Lost => Outcome::Lost,
            JobOutcome::Ready(s, e) => Outcome::Ready(s@, e@),
            JobOutcome::Failed(e) => Outcome::Failed(e@),
        }
    }
}

/// What a job does next.
#[derive(Debug)]
pub enum JobStep {
    /// It loads the image.
    Load(EmbedJob),
    /// It is done.
    Done(JobOutcome),
}

/// Goes on with a job when its link has been checked.
pub fn after_check(job: EmbedJob, checked: Result<(), LinkCheckError>) -> (res: JobStep)
    ensures
        match checked {
            Ok(_) => res == JobStep::Load(job),
            Err(e) => res matches JobStep::Done(o) && o@ == Outcome::Failed(
                (job.link@, Cause::Check(e@)),
            ),
        },
{
    match checked {
        Ok(_) => JobStep::Load(job),
        Err(e) => JobStep::Done(
            JobOutcome::Failed(EmbedError { link: job.link, cause: EmbedCause::Check(e) }),
        ),
    }
}

/// What becomes of a job when its image has been loaded, or loading it gave an error with a
/// message.
pub fn after_load(job: EmbedJob, loaded: Result<Vec<u8>, String>) -> (res: JobOutcome)
    requires
        loaded matches Ok(buf) ==> check::starts_like_image(buf@) ==> encode::base64_len(
            buf@.len() as int,
        ) <= isize::MAX,
    ensures
        match loaded {
            Ok(buf) => match res {
                JobOutcome::Ready(s, e) => {
                    &&& s@ == job.image_link@
                    &&& e@.0 == encode::base64(buf@)
                    &&& image_format::has_signature(buf@, e@.1)
                },
                _ => {
                    &&& !check::starts_like_image(buf@)
                    &&& res@ == Outcome::Failed((job.link@, Cause::UnknownFormat))
                },
            },
            Err(s) => res@ == Outcome::Failed((job.link@, Cause::Load(s@))),
        },
{
    let buf = match loaded {
        Ok(buf) => buf,
        Err(s) => {
            return JobOutcome::Failed(EmbedError { link: job.link, cause: EmbedCause::Load(s) });
        },
    };
    match ImageFormat::try_from(buf.as_slice()) {
        Ok(format) => JobOutcome::Ready(
            job.image_link,
            EncodedImage { base64: encode::to_base64(buf.as_slice()), format },
        ),
        Err(_) => JobOutcome::Failed(
            EmbedError { link: job.link, cause: EmbedCause::UnknownFormat },
        ),
    }
}

/// Decides, by the status of the reply, whether the image at a URL can be read from the reply.
pub fn load_image(url: &str, status: u16) -> (res: Result<(), String>)
    ensures
        check::is_success(status) ==> res is Ok,
        !check::is_success(status) ==> (res matches Err(s) && s@ == "failed request url: "@ + url@),
{
    if check::status_is_success(status) {
        return Ok(());
    }
    let mut s = "failed request url: ".to_string();
    s.append(url);
    Err(s)
}

/// The contents of a list of outcomes.
pub open spec fn outcomes_view(v: Seq<JobOutcome>) -> Seq<Outcome> {
    v.map_values(|o: JobOutcome| o@)
}

/// The images that are ready. For one image link, that of the last job counts.
pub open spec fn ready_images(outcomes: Seq<Outcome>) -> Map<Seq<char>, (Seq<char>, ImageFormat)>
    decreases outcomes.len(),
{
    if outcomes.len() == 0 {
        Map::empty()
    } else {
        let front = ready_images(outcomes.drop_last());
        match outcomes.last() {
            Outcome::Ready(s, e) => front.insert(s, e),
            _ => front,
        }
    }
}

/// The failures, in the order of the jobs.
pub open spec fn failures(outcomes: Seq<Outcome>) -> Seq<(LinkTarget, Cause)>
    decreases outcomes.len(),
{
    if outcomes.len() == 0 {
        seq![]
    } else {
        let front = failures(outcomes.drop_last());
        match outcomes.last() {
            Outcome::Failed(e) => front.push(e),
            _ => front,
        }
    }
}

/// The contents of a list of errors.
pub open spec fn errors_view(v: Seq<EmbedError>) -> Seq<(LinkTarget, Cause)> {
    v.map_values(|e: EmbedError| e@)
}

/// Gathers what became of the jobs.
pub fn gather(outcomes: Vec<JobOutcome>) -> (res: (ImageTable, Vec<EmbedError>))
    ensures
        res.0@ == ready_images(outcomes_view(outcomes@)),
        errors_view(res.1@) == failures(outcomes_view(outcomes@)),
{
    let ghost all = outcomes_view(outcomes@);
    let mut links = ImageTable::new();
    let mut errors: Vec<EmbedError> = Vec::new();
    assert(all.take(0) =~= seq![]);
    for outcome in it: outcomes
        invariant
            all == outcomes_view(it.seq()),
            links@ == ready_images(all.take(it.index() as int)),
            errors_view(errors@) =~= failures(all.take(it.index() as int)),
    {
        proof {
            let k = it.index() as int;
            assert(all[k] == outcome@);
            assert(all.take(k + 1).drop_last() =~= all.take(k));
            assert(all.take(k + 1).last() == outcome@);
        }
        match outcome {
            JobOutcome::Lost => {},
            JobOutcome::Ready(s, e) => {
                links.insert(s, e);
            },
            JobOutcome::Failed(e) => {
                let ghost had = errors@;
                errors.push(e);
                assert(errors_view(errors@) =~= errors_view(had).push(e@));
            },
        }
    }
    assert(all.take(all.len() as int) =~= all);
    (links, errors)
}

/// The ids of the embedded images, in the order of the text.
pub open spec fn ids(
    b: Seq<u8>,
    links: Map<Seq<char>, (Seq<char>, ImageFormat)>,
    found: Seq<Image>,
    names: Seq<Seq<char>>,
) -> Seq<Seq<char>>
    decreases found.len(),
{
    if found.len() == 0 {
        seq![]
    } else {
        let front = ids(b, links, found.drop_last(), names.drop_last());
        if links.contains_key(text::chars_of(found.last().whole(b))) {
            front.push(
                id_of(
                    rewriting(b, links, found.drop_last(), names.drop_last()).count,
                    names.last(),
                ),
            )
        } else {
            front
        }
    }
}

/// The images that are embedded, in the order of the text.
pub open spec fn embedded(
    b: Seq<u8>,
    links: Map<Seq<char>, (Seq<char>, ImageFormat)>,
    found: Seq<Image>,
) -> Seq<(Seq<char>, ImageFormat)>
    decreases found.len(),
{
    if found.len() == 0 {
        seq![]
    } else {
        let front = embedded(b, links, found.drop_last());
        let key = text::chars_of(found.last().whole(b));
        if links.contains_key(key) {
            front.push(links[key])
        } else {
            front
        }
    }
}

/// The lines that hold embedded images.
pub open spec fn definitions(
    ids: Seq<Seq<char>>,
    images: Seq<(Seq<char>, ImageFormat)>,
) -> Seq<char>
    decreases ids.len(),
{
    if ids.len() == 0 {
        seq![]
    } else {
        definitions(ids.drop_last(), images.drop_last()) + definition(ids.last(), images.last())
    }
}

/// What is put behind the text holds each embedded image, under the id that stands in its place
/// in the text, and nothing else.
pub proof fn lemma_every_id_defined(
    b: Seq<u8>,
    links: Map<Seq<char>, (Seq<char>, ImageFormat)>,
    found: Seq<Image>,
    names: Seq<Seq<char>>,
)
    ensures
        ids(b, links, found, names).len() == embedded(b, links, found).len(),
        rewriting(b, links, found, names).notes == definitions(
            ids(b, links, found, names),
            embedded(b, links, found),
        ),
    decreases found.len(),
{
    if found.len() > 0 {
        let (f, n) = (found.drop_last(), names.drop_last());
        lemma_every_id_defined(b, links, f, n);
        let (all, images) = (ids(b, links, found, names), embedded(b, links, found));
        if links.contains_key(text::chars_of(found.last().whole(b))) {
            assert(all.drop_last() =~= ids(b, links, f, n));
            assert(images.drop_last() =~= embedded(b, links, f));
        }
    }
}

/// Different counts give different ids, whatever the names.
pub proof fn lemma_ids_differ(count1: nat, name1: Seq<char>, count2: nat, name2: Seq<char>)
    requires
        count1 != count2,
    ensures
        id_of(count1, name1) != id_of(count2, name2),
{
    reveal_strlit("_");
    let (a, c) = (text::decimal(count1), text::decimal(count2));
    let (x, y) = (id_of(count1, name1), id_of(count2, name2));
    text::lemma_decimal_digits(count1);
    text::lemma_decimal_digits(count2);
    assert(x[a.len() as int] == '_');
    assert(y[c.len() as int] == '_');
    if x == y {
        if a.len() < c.len() {
            assert(y[a.len() as int] == c[a.len() as int]);
        } else if c.len() < a.len() {
            assert(x[c.len() as int] == a[c.len() as int]);
        } else {
            assert(x.take(a.len() as int) =~= a);
            assert(y.take(c.len() as int) =~= c);
            text::lemma_decimal_unique(count1, count2);
        }
    }
}

/// Whether an id carries a count.
spec fn is_counted(id: Seq<char>, count: nat) -> bool {
    exists|name: Seq<char>| id == #[trigger] id_of(count, name)
}

/// The ids carry the counts from 0 on.
proof fn lemma_ids(
    b: Seq<u8>,
    links: Map<Seq<char>, (Seq<char>, ImageFormat)>,
    found: Seq<Image>,
    names: Seq<Seq<char>>,
)
    ensures
        ids(b, links, found, names).len() == rewriting(b, links, found, names).count,
        forall|k: int|
            0 <= k < ids(b, links, found, names).len() ==> is_counted(
                #[trigger] ids(b, links, found, names)[k],
                k as nat,
            ),
    decreases found.len(),
{
    if found.len() > 0 {
        let (f, n) = (found.drop_last(), names.drop_last());
        lemma_ids(b, links, f, n);
        let front = ids(b, links, f, n);
        let all = ids(b, links, found, names);
        assert forall|k: int| 0 <= k < all.len() implies is_counted(#[trigger] all[k], k as nat) by {
            if k < front.len() {
                assert(all[k] == front[k]);
            } else {
                assert(all[k] == id_of(k as nat, names.last()));
            }
        }
    }
}

/// As many images are embedded as there are ids, and no two have the same id.
pub proof fn lemma_ids_unique(
    b: Seq<u8>,
    links: Map<Seq<char>, (Seq<char>, ImageFormat)>,
    found: Seq<Image>,
    names: Seq<Seq<char>>,
)
    ensures
        ids(b, links, found, names).len() == rewriting(b, links, found, names).count,
        ids(b, links, found, names).no_duplicates(),
{
    lemma_ids(b, links, found, names);
    let all = ids(b, links, found, names);
    assert forall|j: int, k: int| 0 <= j < all.len() && 0 <= k < all.len() && j != k implies all[j]
        != all[k] by {
        assert(is_counted(all[j], j as nat) && is_counted(all[k], k as nat));
        let x = choose|x: Seq<char>| all[j] == #[trigger] id_of(j as nat, x);
        let y = choose|y: Seq<char>| all[k] == #[trigger] id_of(k as nat, y);
        lemma_ids_differ(j as nat, x, k as nat, y);
    }
}

/// What has been rewritten stays as the rewriting goes on.
proof fn lemma_rewriting_grows(
    b: Seq<u8>,
    links: Map<Seq<char>, (Seq<char>, ImageFormat)>,
    found: Seq<Image>,
    names: Seq<Seq<char>>,
    n: int,
)
    requires
        0 <= n <= found.len(),
        names.len() == found.len(),
    ensures
        rewriting(b, links, found.take(n), names.take(n)).text.is_prefix_of(
            rewriting(b, links, found, names).text,
        ),
    decreases found.len(),
{
    let front = rewriting(b, links, found.take(n), names.take(n)).text;
    if n == found.len() {
        assert(found.take(n) =~= found);
        assert(names.take(n) =~= names);
        assert(front.take(front.len() as int) =~= front);
    } else {
        let (f, s) = (found.drop_last(), names.drop_last());
        lemma_rewriting_grows(b, links, f, s, n);
        assert(f.take(n) =~= found.take(n));
        assert(s.take(n) =~= names.take(n));
        let before = rewriting(b, links, f, s).text;
        let after = rewriting(b, links, found, names).text;
        assert(before.take(front.len() as int) =~= front);
        assert(after.take(front.len() as int) =~= before.take(front.len() as int));
    }
}

/// All image links that stand in `links` are replaced: behind what comes before it, as rewritten
/// so far, the reference to its image stands in the place of each.
pub proof fn lemma_all_replaced(
    b: Seq<u8>,
    links: Map<Seq<char>, (Seq<char>, ImageFormat)>,
    found: Seq<Image>,
    names: Seq<Seq<char>>,
    stamp: Seq<char>,
    k: int,
)
    requires
        names.len() == found.len(),
        0 <= k < found.len(),
        links.contains_key(text::chars_of(found[k].whole(b))),
    ensures
        ({
            let r = rewriting(b, links, found.take(k), names.take(k));
            let head = r.text + b.subrange(r.end, found[k].start);
            (head + reference(found[k].alt(b), id_of(r.count, names[k]))).is_prefix_of(
                rewritten(b, links, found, names, stamp),
            )
        }),
{
    let (f, s) = (found.take(k + 1), names.take(k + 1));
    assert(f.drop_last() =~= found.take(k));
    assert(s.drop_last() =~= names.take(k));
    lemma_rewriting_grows(b, links, found, names, k + 1);
    let part = rewriting(b, links, f, s).text;
    let whole = rewriting(b, links, found, names).text;
    let res = rewritten(b, links, found, names, stamp);
    assert(whole.take(part.len() as int) =~= part);
    assert(res.take(part.len() as int) =~= whole.take(part.len() as int));
}

/// Where no image link stands in `links`, the text stays: only the banner is put behind it.
pub proof fn lemma_nothing_to_replace(
    b: Seq<u8>,
    links: Map<Seq<char>, (Seq<char>, ImageFormat)>,
    found: Seq<Image>,
    names: Seq<Seq<char>>,
    stamp: Seq<char>,
)
    requires
        in_order(b, found),
        forall|k: int|
            0 <= k < found.len() ==> !links.contains_key(
                text::chars_of((#[trigger] found[k]).whole(b)),
            ),
    ensures
        rewritten(b, links, found, names, stamp) == b + text::utf8(banner(stamp)),
{
    lemma_untouched(b, links, found, names);
    let r = rewriting(b, links, found, names);
    assert(r.text + b.subrange(r.end, b.len() as int) =~= b);
    assert(banner(stamp) + r.notes =~= banner(stamp));
}

proof fn lemma_untouched(
    b: Seq<u8>,
    links: Map<Seq<char>, (Seq<char>, ImageFormat)>,
    found: Seq<Image>,
    names: Seq<Seq<char>>,
)
    requires
        in_order(b, found),
        forall|k: int|
            0 <= k < found.len() ==> !links.contains_key(
                text::chars_of((#[trigger] found[k]).whole(b)),
            ),
    ensures
        ({
            let r = rewriting(b, links, found, names);
            &&& 0 <= r.end <= b.len()
            &&& r.end == (if found.len() == 0 {
                0
            } else {
                found.last().end()
            })
            &&& r.text == b.take(r.end)
            &&& r.notes == Seq::<char>::empty()
        }),
    decreases found.len(),
{
    let r = rewriting(b, links, found, names);
    if found.len() == 0 {
        assert(r.text =~= b.take(0));
    } else {
        let f = found.drop_last();
        assert forall|k: int| 0 <= k < f.len() implies !links.contains_key(
            text::chars_of((#[trigger] f[k]).whole(b)),
        ) by {
            assert(f[k] == found[k]);
        }
        assert(image::are_images(b, f)) by {
            assert forall|k: int| 0 <= k < f.len() implies markdown::is_image(b, #[trigger] f[k]) by {
                assert(f[k] == found[k]);
            }
        }
        assert forall|j: int, k: int| 0 <= j < k < f.len() implies (#[trigger] f[j]).end() <= (
        #[trigger] f[k]).start by {
            assert(f[j] == found[j] && f[k] == found[k]);
        }
        lemma_untouched(b, links, f, names.drop_last());
        let m = found[found.len() - 1];
        assert(markdown::is_image(b, m));
        if f.len() > 0 {
            assert(found[f.len() - 1].end() <= m.start);
        }
        let s = rewriting(b, links, f, names.drop_last());
        assert(r.text =~= b.take(r.end));
    }
}

} // verus!
