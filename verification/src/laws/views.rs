//! What the views of values hold: all of their content, item by item.
use vstd::prelude::*;
use crate::check;
use crate::check::Fault;
use crate::check::HeadReply;
use crate::check::LinkCheckError;
use crate::cmd;
use crate::embed;
use crate::embed::EmbedError;
use crate::embed::EmbedJob;
use crate::embed::EncodedImage;
use crate::embed::JobOutcome;
use crate::image;
use crate::image::CheckInfo;
use crate::link;
use crate::link::Link;
use crate::link::UrlParts;
use crate::markdown;
use crate::markdown::ImageSpan;
use crate::path::UnixPath;

verus! {

/// The view of a list holds the views of its items, each in its place.
pub proof fn lemma_lists(
    infos: Seq<CheckInfo>,
    links: Seq<Link>,
    jobs: Seq<EmbedJob>,
    outcomes: Seq<JobOutcome>,
    errors: Seq<EmbedError>,
    paths: Seq<UnixPath>,
    spans: Seq<ImageSpan>,
    strings: Seq<String>,
)
    ensures
        image::entries(infos) == Seq::new(infos.len(), |k: int| infos[k]@),
        image::links_view(links) == Seq::new(links.len(), |k: int| links[k]@),
        embed::jobs_view(jobs) == Seq::new(jobs.len(), |k: int| jobs[k]@),
        embed::outcomes_view(outcomes) == Seq::new(outcomes.len(), |k: int| outcomes[k]@),
        embed::errors_view(errors) == Seq::new(errors.len(), |k: int| errors[k]@),
        cmd::paths_view(paths) == Seq::new(paths.len(), |k: int| paths[k]@),
        markdown::places(spans) == Seq::new(spans.len(), |k: int| spans[k]@),
        embed::texts(strings) == Seq::new(strings.len(), |k: int| strings[k]@),
{
    assert(image::entries(infos) =~= Seq::new(infos.len(), |k: int| infos[k]@));
    assert(image::links_view(links) =~= Seq::new(links.len(), |k: int| links[k]@));
    assert(embed::jobs_view(jobs) =~= Seq::new(jobs.len(), |k: int| jobs[k]@));
    assert(embed::outcomes_view(outcomes) =~= Seq::new(outcomes.len(), |k: int| outcomes[k]@));
    assert(embed::errors_view(errors) =~= Seq::new(errors.len(), |k: int| errors[k]@));
    assert(cmd::paths_view(paths) =~= Seq::new(paths.len(), |k: int| paths[k]@));
    assert(markdown::places(spans) =~= Seq::new(spans.len(), |k: int| spans[k]@));
    assert(embed::texts(strings) =~= Seq::new(strings.len(), |k: int| strings[k]@));
}

/// Links that look the same are to the same place.
pub proof fn lemma_links(a: Link, b: Link)
    requires
        a@ == b@,
    ensures
        match (a, b) {
            (Link::Local(p), Link::Local(q)) => p@ == q@,
            (Link::Net(u), Link::Net(v)) => u@ == v@,
            _ => false,
        },
{
}

/// Image links that are noted alike have everything alike.
pub proof fn lemma_infos(a: CheckInfo, b: CheckInfo)
    requires
        a@ == b@,
    ensures
        a.path@ == b.path@,
        a.image_link@ == b.image_link@,
        a.link@ == b.link@,
        a.line@ == b.line@,
        a.row_num == b.row_num,
        a.col_num == b.col_num,
        a.error is Some <==> b.error is Some,
        a.error is Some ==> a.error->0@ == b.error->0@,
{
}

/// Jobs, images, errors and places that look alike have everything alike.
pub proof fn lemma_parts(
    jobs: (EmbedJob, EmbedJob),
    images: (EncodedImage, EncodedImage),
    errors: (EmbedError, EmbedError),
    spans: (ImageSpan, ImageSpan),
)
    ensures
        jobs.0@ == jobs.1@ ==> jobs.0.image_link@ == jobs.1.image_link@ && jobs.0.link@
            == jobs.1.link@,
        images.0@ == images.1@ ==> images.0.base64@ == images.1.base64@ && images.0.format
            == images.1.format,
        errors.0@ == errors.1@ ==> errors.0.link@ == errors.1.link@ && errors.0.cause@
            == errors.1.cause@,
        spans.0@ == spans.1@ ==> spans.0 == spans.1,
{
}

/// Outcomes that look alike are of one kind, with the same content.
pub proof fn lemma_outcomes(a: JobOutcome, b: JobOutcome)
    requires
        a@ == b@,
    ensures
        match (a, b) {
            (JobOutcome::Lost, JobOutcome::Lost) => true,
            (JobOutcome::Ready(s, x), JobOutcome::Ready(t, y)) => s@ == t@ && x@ == y@,
            (JobOutcome::Failed(x), JobOutcome::Failed(y)) => x@ == y@,
            _ => false,
        },
{
}

/// A fault is of the kind of its error, and has its details.
pub proof fn lemma_faults(e: LinkCheckError)
    ensures
        match (e, e@) {
            (LinkCheckError::NotFound, Fault::NotFound) => true,
            (LinkCheckError::NotImageFile(s), Fault::NotImageFile(t)) => s@ == t,
            (LinkCheckError::UnsupportedExtension(s), Fault::UnsupportedExtension(t)) => s@ == t,
            (LinkCheckError::InvalidImageMagicNumber(x), Fault::InvalidImageMagicNumber(y)) => x@
                == y,
            (LinkCheckError::HeadFailed(n, s), Fault::HeadFailed(m, t)) => n == m && s@ == t,
            (LinkCheckError::FailedResponse(n, s), Fault::FailedResponse(m, t)) => n == m && s@
                == t,
            (LinkCheckError::Unknown(s), Fault::Unknown(t)) => s@ == t,
            (LinkCheckError::Other(s), Fault::Other(t)) => s@ == t,
            _ => false,
        },
{
}

/// A URL by its view has its text and its segments, each in its place.
pub proof fn lemma_url(url: UrlParts)
    ensures
        link::url_view(None) is None,
        link::url_view(Some(url)) matches Some(view) && view.0 == url.text@ && match (
            url.segments,
            view.1,
        ) {
            (Some(v), Some(w)) => w == Seq::new(v@.len(), |k: int| v@[k]@),
            (None, None) => true,
            _ => false,
        },
{
    if let Some(v) = url.segments {
        let w = v@.map_values(|s: String| s@);
        assert(w =~= Seq::new(v@.len(), |k: int| v@[k]@));
    }
}

/// A reply by its content type has the bytes of it, if it has one.
pub proof fn lemma_content_type(reply: HeadReply)
    ensures
        match (reply.content_type, check::content_type_of(reply)) {
            (Some(v), Some(b)) => b == v@,
            (None, None) => true,
            _ => false,
        },
{
}

} // verus!
