//! What a link of a document points to.
use vstd::prelude::*;
use crate::path;
use crate::path::UnixPath;
use crate::text;

verus! {

/// The kinds of links that are looked at.
#[derive(Debug, Clone, Copy, PartialEq, Eq, Structural)]
pub enum LinkType {
    Local,
    Net,
    All,
    Nothing,
}

/// That a text names no variant.
#[derive(Debug, Clone, Copy, PartialEq, Eq, Structural)]
pub struct VariantNotFound;

impl LinkType {
    /// The name of the kind.
    pub open spec fn name(self) -> Seq<char> {
        match self {
            LinkType::Local => "Local"@,
            LinkType::Net => "Net"@,
            LinkType::All => "All"@,
            LinkType::Nothing => "None"@,
        }
    }

    /// The name of the kind.
    pub fn to_str(self) -> (res: &'static str)
        ensures
            res@ == self.name(),
    {
        match self {
            LinkType::Local => "Local",
            LinkType::Net => "Net",
            LinkType::All => "All",
            LinkType::Nothing => "None",
        }
    }

    /// The kind with a name, whatever the case of its letters.
    pub fn from_str(s: &str) -> (res: Result<LinkType, VariantNotFound>)
        ensures
            match res {
                Ok(t) => text::same_word(s@, t.name()),
                Err(_) => forall|t: LinkType| !text::same_word(s@, #[trigger] t.name()),
            },
    {
        if text::eq_word(s, "Local") {
            return Ok(LinkType::Local);
        }
        if text::eq_word(s, "Net") {
            return Ok(LinkType::Net);
        }
        if text::eq_word(s, "All") {
            return Ok(LinkType::All);
        }
        if text::eq_word(s, "None") {
            return Ok(LinkType::Nothing);
        }
        Err(VariantNotFound)
    }

    /// Whether links of this kind are looked at.
    pub open spec fn covers(self, link: LinkTarget) -> bool {
        match link {
            LinkTarget::Local(_) => self == LinkType::All || self == LinkType::Local,
            LinkTarget::Net(_) => self == LinkType::All || self == LinkType::Net,
        }
    }

    /// Whether a link is of this kind.
    pub fn selects(self, link: &Link) -> (res: bool)
        ensures
            res == self.covers(link@),
    {
        match link {
            Link::Local(_) => self == LinkType::All || self == LinkType::Local,
            Link::Net(_) => self == LinkType::All || self == LinkType::Net,
        }
    }
}

/// What a link points to: a file, by its path, or a URL, by its text.
pub ghost enum LinkTarget {
    Local(Seq<u8>),
    Net(Seq<char>),
}

/// What a link points to: a file or a URL.
#[derive(Debug)]
pub enum Link {
    Local(UnixPath),
    Net(String),
}

impl View for Link {
    type V = LinkTarget;

    open spec fn view(&self) -> LinkTarget {
        match self {
            Link::Local(p) => LinkTarget::Local(p@),
            Link::Net(u) => LinkTarget::Net(u@),
        }
    }
}

impl Clone for Link {
    fn clone(&self) -> (res: Self)
        ensures
            res@ == self@,
    {
        match self {
            Link::Local(p) => Link::Local(p.clone()),
            Link::Net(u) => Link::Net(u.clone()),
        }
    }
}

impl PartialEq for Link {
    fn eq(&self, other: &Self) -> (res: bool) {
        match (self, other) {
            (Link::Local(p), Link::Local(q)) => p.same_components(q),
            (Link::Net(u), Link::Net(v)) => *u == *v,
            _ => false,
        }
    }
}

impl vstd::std_specs::cmp::PartialEqSpecImpl for Link {
    open spec fn obeys_eq_spec() -> bool {
        true
    }

    open spec fn eq_spec(&self, other: &Self) -> bool {
        match (self, other) {
            (Link::Local(p), Link::Local(q)) => path::components(p@) == path::components(q@),
            (Link::Net(u), Link::Net(v)) => u@ == v@,
            _ => false,
        }
    }
}

impl Eq for Link {
}

/// How a link is shown: its kind, and in brackets its path or URL.
pub open spec fn shown(link: LinkTarget) -> Seq<char> {
    match link {
        LinkTarget::Local(p) => "Local("@ + (if text::is_utf8(p) {
            text::chars_of(p)
        } else {
            "none"@
        }) + ")"@,
        LinkTarget::Net(u) => "Net("@ + u + ")"@,
    }
}

impl Link {
    /// The link as it is shown in messages.
    pub fn to_string(&self) -> (res: String)
        ensures
            res@ == shown(self@),
    {
        let mut s = String::new();
        match self {
            Link::Local(p) => {
                s.append("Local(");
                s.append(match p.to_str() {
                    Some(t) => t,
                    None => "none",
                });
            },
            Link::Net(u) => {
                s.append("Net(");
                s.append(u.as_str());
            },
        }
        s.append(")");
        assert(s@ =~= shown(self@));
        s
    }
}

/// A URL in parts: its text in normal form and, if it is hierarchical, the segments of its path.
#[derive(Debug)]
pub struct UrlParts {
    pub text: String,
    pub segments: Option<Vec<String>>,
}

impl View for UrlParts {
    type V = (Seq<char>, Option<Seq<Seq<char>>>);

    open spec fn view(&self) -> (Seq<char>, Option<Seq<Seq<char>>>) {
        (
            self.text@,
            match self.segments {
                Some(v) => Some(v@.map_values(|s: String| s@)),
                None => None,
            },
        )
    }
}

/// A list of URL parts, if there are any, by its view.
pub open spec fn url_view(url: Option<UrlParts>) -> Option<(Seq<char>, Option<Seq<Seq<char>>>)> {
    match url {
        Some(u) => Some(u@),
        None => None,
    }
}

/// What `url::Url::parse` makes of a text: nothing, or a URL with the text of `Url::as_str` and
/// the segments of `Url::path_segments`.
pub uninterp spec fn parsed_url(link: Seq<char>) -> Option<(Seq<char>, Option<Seq<Seq<char>>>)>;

/// Reads a text as an absolute URL.
///
/// Calls `url::Url::parse` and takes the URL apart with `Url::as_str` and `Url::path_segments`.
/// What comes out depends on the text alone.
#[verifier::external_body]
fn parse_url(link: &str) -> (res: Option<UrlParts>)
    ensures
        url_view(res) == parsed_url(link@),
{
    match url::Url::parse(link) {
        Ok(u) => Some(UrlParts {
            text: u.as_str().to_string(),
            segments: u.path_segments().map(|items| items.map(|s| s.to_string()).collect()),
        }),
        Err(_) => None,
    }
}

/// What a link of the document at `path` points to, given the URL it reads as, if any.
pub open spec fn resolved(
    path: Seq<u8>,
    link: Seq<char>,
    url: Option<(Seq<char>, Option<Seq<Seq<char>>>)>,
) -> LinkTarget {
    match url {
        Some(u) => LinkTarget::Net(u.0),
        None => {
            let p = text::utf8(link);
            if path::is_absolute(p) {
                LinkTarget::Local(p)
            } else {
                LinkTarget::Local(path::join(path::parent(path)->0, p))
            }
        },
    }
}

/// Whether it is settled what a link points to: it is a URL or an absolute path, or the document
/// is in some folder.
pub open spec fn resolvable(
    path: Seq<u8>,
    link: Seq<char>,
    url: Option<(Seq<char>, Option<Seq<Seq<char>>>)>,
) -> bool {
    url is Some || path::is_absolute(text::utf8(link)) || path::parent(path) is Some
}

/// Settles what a link of the document at `path` points to, given the URL it reads as, if any.
pub fn resolve_link(path: &UnixPath, link: &str, url: Option<UrlParts>) -> (res: Link)
    requires
        resolvable(path@, link@, url_view(url)),
    ensures
        res@ == resolved(path@, link@, url_view(url)),
{
    if let Some(u) = url {
        return Link::Net(u.text);
    }
    let target = UnixPath::new(link);
    if target.is_absolute() {
        return Link::Local(target);
    }
    match path.parent() {
        Some(folder) => Link::Local(folder.join(&target)),
        None => Link::Local(target),
    }
}

/// Settles what a link of the document at `path` points to. A link that is no URL and relative
/// is taken from the folder of the document. That it can be reached is not looked at.
pub fn parse_link(path: &UnixPath, link: &str) -> (res: Link)
    requires
        resolvable(path@, link@, parsed_url(link@)),
    ensures
        res@ == resolved(path@, link@, parsed_url(link@)),
{
    resolve_link(path, link, parse_url(link))
}

/// The file name in a link, given the URL it reads as, if any: the last segment of the URL's
/// path, or, without a URL that has one, the file name of the link as a path. Where there is no
/// file name, as behind a final `/` of a URL, it is `none`.
pub open spec fn name_in(
    link: Seq<char>,
    url: Option<(Seq<char>, Option<Seq<Seq<char>>>)>,
) -> Seq<char> {
    match url {
        Some((_, Some(segments))) if segments.len() > 0 => if segments.last().len() > 0 {
            segments.last()
        } else {
            "none"@
        },
        _ => match path::file_name(text::utf8(link)) {
            Some(name) if text::is_utf8(name) => text::chars_of(name),
            _ => "none"@,
        },
    }
}

/// The file name in a link, given the URL it reads as, if any.
pub fn link_name(link: &str, url: Option<UrlParts>) -> (res: String)
    ensures
        res@ == name_in(link@, url_view(url)),
{
    if let Some(u) = url {
        if let Some(segments) = u.segments {
            if segments.len() > 0 {
                let last: &String = &segments[segments.len() - 1];
                if last.as_str().unicode_len() == 0 {
                    return "none".to_string();
                }
                return last.clone();
            }
        }
    }
    let target = UnixPath::new(link);
    if let Some(name) = target.file_name() {
        if let Some(s) = text::utf8_str(name) {
            proof {
                text::lemma_utf8_text(s@);
            }
            return s.to_string();
        }
    }
    "none".to_string()
}

/// The file name in a link.
pub fn get_link_name(link: &str) -> (res: String)
    ensures
        res@ == name_in(link@, parsed_url(link@)),
{
    link_name(link, parse_url(link))
}

/// All links are those to files and those to URLs; there is no link that is neither, and none of
/// the kind `Nothing`.
pub proof fn lemma_kinds(link: LinkTarget)
    ensures
        LinkType::All.covers(link),
        !LinkType::Nothing.covers(link),
        LinkType::Local.covers(link) != LinkType::Net.covers(link),
{
}

} // verus!
