//! Whether what a link points to is an image.
//!
//! A link to a file is checked in steps: the file must exist, its extension must name a format,
//! and it must start like an image. A link to a URL is checked by the reply to a HEAD request.
//! Each step is decided here; what it asks of the file system or the network is done elsewhere
//! and handed in.
use vstd::prelude::*;
use crate::image_format;
use crate::image_format::ImageFormat;
use crate::link::Link;
use crate::path;
use crate::path::UnixPath;
use crate::text;

verus! {

/// Why a link does not count as a link to an image.
#[derive(Debug)]
pub enum LinkCheckError {
    /// The link leads nowhere.
    NotFound,
    /// The link does not lead to a file.
    NotImageFile(String),
    /// The extension or the content type is not that of a known format.
    UnsupportedExtension(String),
    /// The file does not start like an image.
    InvalidImageMagicNumber([u8; 4]),
    /// The HEAD request was not answered as hoped.
    HeadFailed(u16, String),
    /// The request was not answered as hoped.
    FailedResponse(u16, String),
    /// The path cannot be looked at.
    Unknown(String),
    /// The file system or the network failed.
    Other(String),
}

/// The content of a `LinkCheckError`.
pub ghost enum Fault {
    NotFound,
    NotImageFile(Seq<char>),
    UnsupportedExtension(Seq<char>),
    InvalidImageMagicNumber(Seq<u8>),
    HeadFailed(u16, Seq<char>),
    FailedResponse(u16, Seq<char>),
    Unknown(Seq<char>),
    Other(Seq<char>),
}

impl View for LinkCheckError {
    type V = Fault;

    open spec fn view(&self) -> Fault {
        match self {
            LinkCheckError::NotFound => Fault::NotFound,
            LinkCheckError::NotImageFile(s) => Fault::NotImageFile(s@),
            LinkCheckError::UnsupportedExtension(s) => Fault::UnsupportedExtension(s@),
            LinkCheckError::InvalidImageMagicNumber(b) => Fault::InvalidImageMagicNumber(b@),
            LinkCheckError::HeadFailed(n, s) => Fault::HeadFailed(*n, s@),
            LinkCheckError::FailedResponse(n, s) => Fault::FailedResponse(*n, s@),
            LinkCheckError::Unknown(s) => Fault::Unknown(s@),
            LinkCheckError::Other(s) => Fault::Other(s@),
        }
    }
}

/// The message of a fault.
pub open spec fn fault_text(fault: Fault) -> Seq<char> {
    match fault {
        Fault::NotFound =>
            "The link was not found because path does not exist or url is not available"@,
        Fault::NotImageFile(s) => "path or url is not image file: "@ + s,
        Fault::UnsupportedExtension(s) => "unsupported image extension: "@ + s,
        Fault::InvalidImageMagicNumber(b) => "invalid image magic numbers: ["@ + text::decimal(
            b[0] as nat,
        ) + ", "@ + text::decimal(b[1] as nat) + ", "@ + text::decimal(b[2] as nat) + ", "@
            + text::decimal(b[3] as nat) + "]"@,
        Fault::HeadFailed(n, s) => "request head failed, status: "@ + text::decimal(n as nat)
            + ", headers: "@ + s,
        Fault::FailedResponse(_, _) => seq![],
        Fault::Unknown(s) => "unknown error: "@ + s,
        Fault::Other(s) => "error: "@ + s,
    }
}

/// One text behind another.
fn joined(a: &str, b: &str) -> (res: String)
    ensures
        res@ == a@ + b@,
{
    let mut s = a.to_string();
    s.append(b);
    s
}

impl LinkCheckError {
    /// The message of the error.
    pub fn to_string(&self) -> (res: String)
        ensures
            res@ == fault_text(self@),
    {
        match self {
            LinkCheckError::NotFound =>
                "The link was not found because path does not exist or url is not available".to_string(),
            LinkCheckError::NotImageFile(s) => joined("path or url is not image file: ", s.as_str()),
            LinkCheckError::UnsupportedExtension(s) => joined(
                "unsupported image extension: ",
                s.as_str(),
            ),
            LinkCheckError::InvalidImageMagicNumber(b) => {
                let mut s = "invalid image magic numbers: [".to_string();
                s.append(text::to_decimal(b[0] as u64).as_str());
                s.append(", ");
                s.append(text::to_decimal(b[1] as u64).as_str());
                s.append(", ");
                s.append(text::to_decimal(b[2] as u64).as_str());
                s.append(", ");
                s.append(text::to_decimal(b[3] as u64).as_str());
                s.append("]");
                s
            },
            LinkCheckError::HeadFailed(n, h) => {
                let mut s = "request head failed, status: ".to_string();
                s.append(text::to_decimal(*n as u64).as_str());
                s.append(", headers: ");
                s.append(h.as_str());
                s
            },
            LinkCheckError::FailedResponse(_, _) => String::new(),
            LinkCheckError::Unknown(s) => joined("unknown error: ", s.as_str()),
            LinkCheckError::Other(s) => joined("error: ", s.as_str()),
        }
    }
}

/// What the check of a link needs next.
#[derive(Debug)]
pub enum CheckStep {
    /// Whether the path is that of a file.
    TestFile,
    /// The first four bytes of the file.
    ReadMagic,
    /// The reply to a HEAD request to the URL.
    SendHead,
    /// Nothing: the link does not count.
    Refuse(LinkCheckError),
}

/// Starts the check of a link.
pub fn check_link(link: &Link) -> (res: CheckStep)
    ensures
        match link {
            Link::Local(_) => res is TestFile,
            Link::Net(_) => res is SendHead,
        },
{
    match link {
        Link::Local(_) => CheckStep::TestFile,
        Link::Net(_) => CheckStep::SendHead,
    }
}

/// Whether a text names an image format.
pub open spec fn names_format(s: Seq<char>) -> bool {
    exists|f: ImageFormat| text::same_word(s, #[trigger] f.name())
}

/// Why a path does not count before the file is read; `shown` is how the path is quoted.
pub open spec fn path_fault(p: Seq<u8>, shown: Seq<char>, is_file: bool) -> Option<Fault> {
    if !is_file {
        Some(Fault::NotImageFile("path does not exist or is file"@))
    } else {
        match path::extension(p) {
            Some(e) if text::is_utf8(e) => if names_format(text::chars_of(e)) {
                None
            } else {
                Some(Fault::UnsupportedExtension(text::lowercase(text::chars_of(e))))
            },
            _ => Some(Fault::Unknown("to str error: "@ + shown)),
        }
    }
}

/// Decides on a path, given whether it is that of a file. `shown` is how the path is quoted in a
/// message.
pub fn check_link_local(p: &UnixPath, shown: &str, is_file: bool) -> (res: CheckStep)
    ensures
        match path_fault(p@, shown@, is_file) {
            None => res is ReadMagic,
            Some(f) => res matches CheckStep::Refuse(e) && e@ == f,
        },
{
    if !is_file {
        return CheckStep::Refuse(
            LinkCheckError::NotImageFile("path does not exist or is file".to_string()),
        );
    }
    if let Some(bytes) = p.extension() {
        if let Some(e) = text::utf8_str(bytes) {
            proof {
                text::lemma_utf8_text(e@);
            }
            return match ImageFormat::from_str(e) {
                Ok(_) => CheckStep::ReadMagic,
                Err(_) => CheckStep::Refuse(
                    LinkCheckError::UnsupportedExtension(text::to_lowercase(e)),
                ),
            };
        }
    }
    CheckStep::Refuse(LinkCheckError::Unknown(joined("to str error: ", shown)))
}

/// Whether bytes start like an image of a known format.
pub open spec fn starts_like_image(b: Seq<u8>) -> bool {
    exists|f: ImageFormat| image_format::has_signature(b, f)
}

/// Decides on a file by its first four bytes, or by the message of the error that reading them
/// gave.
pub fn check_magic(read: Result<[u8; 4], String>) -> (res: Result<(), LinkCheckError>)
    ensures
        match read {
            Ok(b) => if starts_like_image(b@) {
                res is Ok
            } else {
                res matches Err(e) && e@ == Fault::InvalidImageMagicNumber(b@)
            },
            Err(s) => res matches Err(e) && e@ == Fault::Other(s@),
        },
{
    match read {
        Ok(b) => match ImageFormat::try_from(b.as_slice()) {
            Ok(_) => Ok(()),
            Err(_) => Err(LinkCheckError::InvalidImageMagicNumber(b)),
        },
        Err(s) => Err(LinkCheckError::Other(s)),
    }
}

/// The reply to a HEAD request: its status and the bytes of its first `Content-Type` header.
#[derive(Debug)]
pub struct HeadReply {
    pub status: u16,
    pub content_type: Option<Vec<u8>>,
}

/// Whether a status says that a request succeeded.
pub open spec fn is_success(status: u16) -> bool {
    200 <= status < 300
}

/// Whether a header holds visible ASCII characters, spaces and tabs only.
pub open spec fn is_visible(b: Seq<u8>) -> bool {
    forall|i: int| 0 <= i < b.len() ==> 32 <= #[trigger] b[i] < 127 || b[i] == 9
}

/// Whether `part` occurs in `b`.
pub open spec fn occurs(part: Seq<u8>, b: Seq<u8>) -> bool {
    exists|i: int|
        0 <= i <= b.len() - part.len() && #[trigger] b.subrange(i, i + part.len()) == part
}

/// Whether the name of an image format occurs in a content type.
pub open spec fn mentions_format(b: Seq<u8>) -> bool {
    exists|f: ImageFormat| occurs(text::utf8(#[trigger] f.name()), b)
}

/// Why a URL does not count, given the reply to the HEAD request.
pub open spec fn head_fault(status: u16, content_type: Option<Seq<u8>>) -> Option<Fault> {
    if !is_success(status) {
        Some(Fault::HeadFailed(status, "unsuccessful status"@))
    } else {
        match content_type {
            None => Some(Fault::HeadFailed(status, "not found content-type in headers"@)),
            Some(b) => if !is_visible(b) {
                Some(Fault::Other("failed to convert header to a str"@))
            } else if !mentions_format(text::lower(b)) {
                Some(
                    Fault::UnsupportedExtension(
                        "content-type: "@ + text::chars_of(text::lower(b)),
                    ),
                )
            } else {
                None
            },
        }
    }
}

/// Whether a status says that a request succeeded.
pub fn status_is_success(status: u16) -> (res: bool)
    ensures
        res == is_success(status),
{
    200 <= status && status < 300
}

fn find_part(part: &str, b: &[u8]) -> (res: bool)
    ensures
        res == occurs(text::utf8(part@), b@),
{
    let bytes = part.as_bytes();
    if bytes.len() > b.len() {
        return false;
    }
    let last: usize = b.len() - bytes.len();
    let mut i: usize = 0;
    loop
        invariant
            bytes@ == text::utf8(part@),
            bytes.len() <= b.len(),
            last == b.len() - bytes.len(),
            i <= last,
            forall|k: int| 0 <= k < i ==> #[trigger] b@.subrange(k, k + bytes@.len()) != bytes@,
        decreases last - i,
    {
        if text::bytes_eq(bytes, vstd::slice::slice_subrange(b, i, i + bytes.len())) {
            assert(b@.subrange(i as int, i + bytes@.len()) == bytes@);
            return true;
        }
        if i == last {
            return false;
        }
        i += 1;
    }
}

fn find_format(b: &[u8]) -> (res: bool)
    ensures
        res == mentions_format(b@),
{
    let formats: [ImageFormat; 5] = [
        ImageFormat::Bmp,
        ImageFormat::Jpeg,
        ImageFormat::Gif,
        ImageFormat::Tiff,
        ImageFormat::Png,
    ];
    let mut i: usize = 0;
    while i < 5
        invariant
            i <= 5,
            formats@ == seq![
                ImageFormat::Bmp,
                ImageFormat::Jpeg,
                ImageFormat::Gif,
                ImageFormat::Tiff,
                ImageFormat::Png,
            ],
            forall|k: int|
                0 <= k < i ==> !occurs(text::utf8((#[trigger] formats@[k]).name()), b@),
        decreases 5 - i,
    {
        if find_part(formats[i].lower_name(), b) {
            return true;
        }
        i += 1;
    }
    proof {
        assert forall|f: ImageFormat| !occurs(text::utf8(#[trigger] f.name()), b@) by {
            match f {
                ImageFormat::Bmp => assert(formats@[0] == f),
                ImageFormat::Jpeg => assert(formats@[1] == f),
                ImageFormat::Gif => assert(formats@[2] == f),
                ImageFormat::Tiff => assert(formats@[3] == f),
                ImageFormat::Png => assert(formats@[4] == f),
            }
        }
    }
    false
}

/// The bytes with ASCII capitals made small, if all are visible.
fn lower_visible(b: &Vec<u8>) -> (res: Option<Vec<u8>>)
    ensures
        res is Some <==> is_visible(b@),
        res matches Some(v) ==> v@ == text::lower(b@),
{
    let mut low: Vec<u8> = Vec::new();
    let mut i: usize = 0;
    while i < b.len()
        invariant
            i <= b.len(),
            low@ =~= text::lower(b@.take(i as int)),
            forall|k: int| 0 <= k < i ==> 32 <= #[trigger] b@[k] < 127 || b@[k] == 9,
        decreases b.len() - i,
    {
        if !((32 <= b[i] && b[i] < 127) || b[i] == 9) {
            assert(!(32 <= b@[i as int] < 127 || b@[i as int] == 9));
            return None;
        }
        low.push(text::to_lower_byte(b[i]));
        i += 1;
    }
    assert(b@.take(i as int) =~= b@);
    Some(low)
}

/// The content type of a reply by its bytes.
pub open spec fn content_type_of(reply: HeadReply) -> Option<Seq<u8>> {
    match reply.content_type {
        Some(v) => Some(v@),
        None => None,
    }
}

/// Decides on a URL by the reply to a HEAD request, or by the message of the error that sending
/// it gave.
pub fn check_link_net(reply: Result<HeadReply, String>) -> (res: Result<(), LinkCheckError>)
    ensures
        match reply {
            Ok(r) => match head_fault(r.status, content_type_of(r)) {
                None => res is Ok,
                Some(f) => res matches Err(e) && e@ == f,
            },
            Err(s) => res matches Err(e) && e@ == Fault::Other(s@),
        },
{
    let reply = match reply {
        Ok(r) => r,
        Err(s) => {
            return Err(LinkCheckError::Other(s));
        },
    };
    if !status_is_success(reply.status) {
        return Err(LinkCheckError::HeadFailed(reply.status, "unsuccessful status".to_string()));
    }
    let content_type = match reply.content_type {
        Some(v) => v,
        None => {
            return Err(
                LinkCheckError::HeadFailed(
                    reply.status,
                    "not found content-type in headers".to_string(),
                ),
            );
        },
    };
    let low = match lower_visible(&content_type) {
        Some(v) => v,
        None => {
            return Err(LinkCheckError::Other("failed to convert header to a str".to_string()));
        },
    };
    if find_format(low.as_slice()) {
        return Ok(());
    }
    proof {
        text::lemma_ascii_utf8(low@);
    }
    let shown = text::utf8_str(low.as_slice()).unwrap();
    proof {
        text::lemma_utf8_text(shown@);
    }
    Err(LinkCheckError::UnsupportedExtension(joined("content-type: ", shown)))
}

/// The first four bytes of a file say whether the whole file starts like an image: what passes
/// the check is known when it is loaded.
pub proof fn lemma_magic_speaks_for_file(b: Seq<u8>)
    ensures
        starts_like_image(image_format::first_four(b)) == starts_like_image(b),
{
    let f = image_format::first_four(b);
    if starts_like_image(f) {
        let x = choose|x: ImageFormat| image_format::has_signature(f, x);
        image_format::lemma_first_four_settle(b, x);
    }
    if starts_like_image(b) {
        let x = choose|x: ImageFormat| image_format::has_signature(b, x);
        image_format::lemma_first_four_settle(b, x);
    }
}

} // verus!
