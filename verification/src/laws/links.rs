//! Links: what they point to, what they are called, and which are looked at.
use vstd::prelude::*;
use crate::laws::files;
use crate::link;
use crate::link::LinkTarget;
use crate::link::LinkType;
use crate::path;
use crate::text;

verus! {

/// A URL by its text and the segments of its path.
pub type Url = (Seq<char>, Option<Seq<Seq<char>>>);

/// A relative link that is no URL is taken from the folder of the document: its target has the
/// components of the document's path without the last, and then those of the link.
pub proof fn lemma_relative(path: Seq<u8>, link: Seq<char>)
    requires
        path::parent(path) is Some,
        !path::is_absolute(text::utf8(link)),
    ensures
        ({
            let folder = path::components(path).drop_last();
            let p = text::utf8(link);
            link::resolved(path, link, None) matches LinkTarget::Local(q) && path::components(q)
                == (if folder.len() == 0 {
                path::components(p)
            } else {
                folder + path::relative_parts(p)
            })
        }),
{
    let p = text::utf8(link);
    files::lemma_parent(path);
    let up = path::parent(path)->0;
    if up.len() == 0 {
        files::lemma_join_alone(up, p);
        assert(path::components(up) =~= seq![]);
    } else {
        path::lemma_join_components(up, p);
        if path::components(up).len() == 0 {
            let n = path::spans(path).len();
            path::lemma_spans_in_range(path, n - 2);
            assert(path::components(path).len() == n);
        }
    }
}

/// What a link points to depends on the document by its folder alone.
pub proof fn lemma_same_folder(first: Seq<u8>, second: Seq<u8>, link: Seq<char>, url: Option<Url>)
    requires
        path::parent(first) is Some,
        path::parent(first) == path::parent(second),
    ensures
        link::resolved(first, link, url) == link::resolved(second, link, url),
{
}

/// A URL is a URL, and an absolute path is that path, whatever the document.
pub proof fn lemma_absolute(path: Seq<u8>, link: Seq<char>, url: Url)
    ensures
        link::resolved(path, link, Some(url)) == LinkTarget::Net(url.0),
        path::is_absolute(text::utf8(link)) ==> link::resolved(path, link, None)
            == LinkTarget::Local(text::utf8(link)),
{
}

/// It is settled what a link points to if it is a URL, or an absolute path, or if the document
/// has a parent.
pub proof fn lemma_settled(path: Seq<u8>, link: Seq<char>, url: Option<Url>)
    requires
        url is Some || path::is_absolute(text::utf8(link)) || path::parent(path) is Some,
    ensures
        link::resolvable(path, link, url),
{
}

/// A link is called by the last segment of its URL's path, where that is not empty.
pub proof fn lemma_url_name(link: Seq<char>, whole: Seq<char>, segments: Seq<Seq<char>>)
    requires
        segments.len() > 0,
    ensures
        segments.last().len() > 0 ==> link::name_in(link, Some((whole, Some(segments))))
            == segments.last(),
        segments.last().len() == 0 ==> link::name_in(link, Some((whole, Some(segments))))
            == "none"@,
{
}

/// A link to a file is called by the name of the file, whatever its folder.
pub proof fn lemma_file_name_in_link(link: Seq<char>, name: Seq<char>)
    requires
        path::is_plain(text::utf8(name)),
        path::components(text::utf8(link)).len() > 0,
        path::components(text::utf8(link)).last() == text::utf8(name),
    ensures
        link::name_in(link, None) == name,
{
    text::lemma_utf8_text(name);
}

/// A URL whose path has no segments leaves the name to the link as a path.
pub proof fn lemma_no_segments(link: Seq<char>, whole: Seq<char>)
    ensures
        link::name_in(link, Some((whole, None))) == link::name_in(link, None),
        link::name_in(link, Some((whole, Some(seq![])))) == link::name_in(link, None),
{
}

/// Without a URL, a link that does not end in a name is called `none`.
pub proof fn lemma_no_name(link: Seq<char>)
    requires
        ({
            let c = path::components(text::utf8(link));
            c.len() == 0 || c.last() == seq![47u8] || c.last() == seq![46u8] || c.last() == seq![
                46u8,
                46u8,
            ]
        }),
    ensures
        link::name_in(link, None) == "none"@,
{
}

/// Every link is called something.
pub proof fn lemma_named(link: Seq<char>, url: Option<Url>)
    ensures
        link::name_in(link, url).len() > 0,
{
    reveal_strlit("none");
    let p = text::utf8(link);
    if let Some(c) = path::file_name(p) {
        let n = path::spans(p).len();
        path::lemma_spans_in_range(p, n - 1);
        assert(path::components(p).last().len() > 0);
        if text::is_utf8(c) && text::chars_of(c).len() == 0 {
            vstd::utf8::decode_utf8_encode_utf8(c);
            assert(text::chars_of(c) =~= seq![]);
            assert(text::utf8(seq![]) =~= seq![]);
        }
    }
}

/// Links to files are looked at for the kinds `Local` and `All`, links to URLs for the kinds
/// `Net` and `All`.
pub proof fn lemma_looked_at(p: Seq<u8>, u: Seq<char>)
    ensures
        LinkType::All.covers(LinkTarget::Local(p)),
        LinkType::Local.covers(LinkTarget::Local(p)),
        !LinkType::Net.covers(LinkTarget::Local(p)),
        !LinkType::Nothing.covers(LinkTarget::Local(p)),
        LinkType::All.covers(LinkTarget::Net(u)),
        !LinkType::Local.covers(LinkTarget::Net(u)),
        LinkType::Net.covers(LinkTarget::Net(u)),
        !LinkType::Nothing.covers(LinkTarget::Net(u)),
{
}

/// A link is shown by its kind and, in brackets, its text; a path that is no text is shown as
/// `none`.
pub proof fn lemma_shown(s: Seq<char>, p: Seq<u8>)
    ensures
        link::shown(LinkTarget::Net(s)) == "Net("@ + s + ")"@,
        link::shown(LinkTarget::Local(text::utf8(s))) == "Local("@ + s + ")"@,
        !text::is_utf8(p) ==> link::shown(LinkTarget::Local(p)) == "Local("@ + "none"@ + ")"@,
{
    text::lemma_utf8_text(s);
}

} // verus!
