//! Whether what a link points to is an image, and what is said if it is not.
use vstd::prelude::*;
use crate::check;
use crate::check::Fault;
use crate::embed;
use crate::embed::Cause;
use crate::image;
use crate::image_format;
use crate::image_format::ImageFormat;
use crate::laws::files;
use crate::path;
use crate::text;

verus! {

/// A file starts with a signature whatever follows it.
pub proof fn lemma_signatures(rest: Seq<u8>)
    ensures
        image_format::has_signature(seq![66u8, 77] + rest, ImageFormat::Bmp),
        image_format::has_signature(seq![71u8, 73, 70] + rest, ImageFormat::Gif),
        image_format::has_signature(seq![137u8, 80, 78, 71] + rest, ImageFormat::Png),
        image_format::has_signature(seq![73u8, 73, 42] + rest, ImageFormat::Tiff),
        image_format::has_signature(seq![77u8, 77, 42] + rest, ImageFormat::Tiff),
        image_format::has_signature(seq![255u8, 216, 255, 224] + rest, ImageFormat::Jpeg),
        image_format::has_signature(seq![255u8, 216, 255, 225] + rest, ImageFormat::Jpeg),
{
    assert((seq![66u8, 77] + rest).take(2) =~= seq![66u8, 77]);
    assert((seq![71u8, 73, 70] + rest).take(3) =~= seq![71u8, 73, 70]);
    assert((seq![137u8, 80, 78, 71] + rest).take(4) =~= seq![137u8, 80, 78, 71]);
    assert((seq![73u8, 73, 42] + rest).take(3) =~= seq![73u8, 73, 42]);
    assert((seq![77u8, 77, 42] + rest).take(3) =~= seq![77u8, 77, 42]);
    assert((seq![255u8, 216, 255, 224] + rest).take(4) =~= seq![255u8, 216, 255, 224]);
    assert((seq![255u8, 216, 255, 225] + rest).take(4) =~= seq![255u8, 216, 255, 225]);
}

/// A file has a signature only by its first bytes.
pub proof fn lemma_signed(b: Seq<u8>, format: ImageFormat)
    requires
        image_format::has_signature(b, format),
    ensures
        match format {
            ImageFormat::Bmp => b.len() >= 2 && b[0] == 66 && b[1] == 77,
            ImageFormat::Gif => b.len() >= 3 && b[0] == 71 && b[1] == 73 && b[2] == 70,
            ImageFormat::Png => b.len() >= 4 && b[0] == 137 && b[1] == 80 && b[2] == 78 && b[3]
                == 71,
            ImageFormat::Tiff => b.len() >= 3 && b[0] == b[1] && (b[0] == 73 || b[0] == 77) && b[2]
                == 42,
            ImageFormat::Jpeg => b.len() >= 4 && b[0] == 255 && b[1] == 216 && b[2] == 255 && (b[3]
                == 224 || b[3] == 225),
        },
{
    assert forall|s: Seq<u8>, k: int|
        #![trigger s.is_prefix_of(b), s[k]]
        s.is_prefix_of(b) && 0 <= k < s.len() implies b[k] == s[k] by {
        assert(b.take(s.len() as int)[k] == b[k]);
    }
    match format {
        ImageFormat::Bmp => {
            let s = seq![66u8, 77];
            assert(b[0] == s[0] && b[1] == s[1]);
        },
        ImageFormat::Gif => {
            let s = seq![71u8, 73, 70];
            assert(b[0] == s[0] && b[1] == s[1] && b[2] == s[2]);
        },
        ImageFormat::Png => {
            let s = seq![137u8, 80, 78, 71];
            assert(b[0] == s[0] && b[1] == s[1] && b[2] == s[2] && b[3] == s[3]);
        },
        ImageFormat::Tiff => {
            let s = seq![73u8, 73, 42];
            let t = seq![77u8, 77, 42];
            if s.is_prefix_of(b) {
                assert(b[0] == s[0] && b[1] == s[1] && b[2] == s[2]);
            } else {
                assert(b[0] == t[0] && b[1] == t[1] && b[2] == t[2]);
            }
        },
        ImageFormat::Jpeg => {
            let s = seq![255u8, 216, 255, 224];
            let t = seq![255u8, 216, 255, 225];
            if s.is_prefix_of(b) {
                assert(b[0] == s[0] && b[1] == s[1] && b[2] == s[2] && b[3] == s[3]);
            } else {
                assert(b[0] == t[0] && b[1] == t[1] && b[2] == t[2] && b[3] == t[3]);
            }
        },
    }
}

/// A file starts like an image exactly if it starts with one of the signatures.
pub proof fn lemma_starts_like_image(b: Seq<u8>)
    ensures
        check::starts_like_image(b) <==> seq![66u8, 77].is_prefix_of(b) || seq![
            71u8,
            73,
            70,
        ].is_prefix_of(b) || seq![137u8, 80, 78, 71].is_prefix_of(b) || seq![
            73u8,
            73,
            42,
        ].is_prefix_of(b) || seq![77u8, 77, 42].is_prefix_of(b) || seq![
            255u8,
            216,
            255,
            224,
        ].is_prefix_of(b) || seq![255u8, 216, 255, 225].is_prefix_of(b),
{
    assert(image_format::has_signature(b, ImageFormat::Bmp) ==> check::starts_like_image(b));
    assert(image_format::has_signature(b, ImageFormat::Gif) ==> check::starts_like_image(b));
    assert(image_format::has_signature(b, ImageFormat::Png) ==> check::starts_like_image(b));
    assert(image_format::has_signature(b, ImageFormat::Tiff) ==> check::starts_like_image(b));
    assert(image_format::has_signature(b, ImageFormat::Jpeg) ==> check::starts_like_image(b));
}

/// A file is read on exactly if the text behind the last `.` of its name is that of a format, in
/// capitals or not; otherwise that text, in small letters, is the fault.
pub proof fn lemma_file_by_extension(p: Seq<u8>, stem: Seq<u8>, ext: Seq<char>, shown: Seq<char>)
    requires
        path::components(p).len() > 0,
        path::components(p).last() == stem.push(46u8) + text::utf8(ext),
        stem.len() > 0,
        path::is_plain(stem.push(46u8) + text::utf8(ext)),
        forall|k: int| 0 <= k < text::utf8(ext).len() ==> text::utf8(ext)[k] != 46,
    ensures
        ({
            let fault = check::path_fault(p, shown, true);
            let known = text::same_word(ext, "bmp"@) || text::same_word(ext, "jpeg"@)
                || text::same_word(ext, "gif"@) || text::same_word(ext, "tiff"@)
                || text::same_word(ext, "png"@);
            fault == (if known {
                None
            } else {
                Some(Fault::UnsupportedExtension(text::lowercase(ext)))
            })
        }),
{
    files::lemma_extension(p, stem, text::utf8(ext));
    text::lemma_utf8_text(ext);
    assert(ImageFormat::Bmp.name() == "bmp"@);
    assert(ImageFormat::Jpeg.name() == "jpeg"@);
    assert(ImageFormat::Gif.name() == "gif"@);
    assert(ImageFormat::Tiff.name() == "tiff"@);
    assert(ImageFormat::Png.name() == "png"@);
}

/// What is no file does not count, whatever its name, and neither does a file without an
/// extension that is a text.
pub proof fn lemma_no_file(p: Seq<u8>, shown: Seq<char>)
    ensures
        check::path_fault(p, shown, false) == Some(
            Fault::NotImageFile("path does not exist or is file"@),
        ),
        !(path::extension(p) matches Some(e) && text::is_utf8(e)) ==> check::path_fault(
            p,
            shown,
            true,
        ) == Some(Fault::Unknown("to str error: "@ + shown)),
{
}

/// A reply counts if the request succeeded and the content type, in whatever case, holds the name
/// of a format, wherever in it.
pub proof fn lemma_reply_counts(
    status: u16,
    before: Seq<u8>,
    word: Seq<u8>,
    after: Seq<u8>,
    format: ImageFormat,
)
    requires
        200 <= status < 300,
        text::lower(word) == text::utf8(format.name()),
        forall|k: int|
            0 <= k < (before + word + after).len() ==> 32 <= #[trigger] (before + word + after)[k]
                < 127 || (before + word + after)[k] == 9,
    ensures
        check::head_fault(status, Some(before + word + after)) is None,
{
    let b = before + word + after;
    let low = text::lower(b);
    let name = text::utf8(format.name());
    let i = before.len() as int;
    assert(low.subrange(i, i + name.len()) =~= name) by {
        assert(text::lower(word).len() == word.len());
        assert forall|k: int| 0 <= k < name.len() implies low[i + k] == name[k] by {
            assert(b[i + k] == word[k]);
            assert(text::lower(word)[k] == text::lower_byte(word[k]));
        }
    }
    assert(check::occurs(name, low));
    assert(check::mentions_format(low));
}

/// Whether a part stands somewhere in some bytes.
pub open spec fn holds(b: Seq<u8>, part: Seq<u8>) -> bool {
    exists|i: int|
        0 <= i && i + part.len() <= b.len() && #[trigger] b.subrange(i, i + part.len()) == part
}

/// A reply does not count if the request did not succeed, there is no content type, it is not
/// visible text, or it holds the name of no format; and only then.
pub proof fn lemma_reply_refused(status: u16, b: Seq<u8>)
    ensures
        !(200 <= status < 300) ==> check::head_fault(status, None) == Some(
            Fault::HeadFailed(status, "unsuccessful status"@),
        ) && check::head_fault(status, Some(b)) == Some(
            Fault::HeadFailed(status, "unsuccessful status"@),
        ),
        200 <= status < 300 ==> {
            &&& check::head_fault(status, None) == Some(
                Fault::HeadFailed(status, "not found content-type in headers"@),
            )
            &&& check::head_fault(status, Some(b)) == Some(
                Fault::Other("failed to convert header to a str"@),
            ) <==> exists|k: int|
                0 <= k < b.len() && !(32 <= #[trigger] b[k] < 127 || b[k] == 9)
            &&& check::head_fault(status, Some(b)) is None ==> exists|f: ImageFormat|
                holds(text::lower(b), text::utf8(#[trigger] f.name()))
            &&& check::head_fault(status, Some(b)) matches Some(Fault::UnsupportedExtension(s))
                ==> s == "content-type: "@ + text::chars_of(text::lower(b))
        },
{
    if 200 <= status < 300 && check::head_fault(status, Some(b)) is None {
        let low = text::lower(b);
        let f = choose|f: ImageFormat| check::occurs(text::utf8(#[trigger] f.name()), low);
        assert(holds(low, text::utf8(f.name())));
    }
}

/// What is said of a fault: what kind it is, and its details behind that.
pub proof fn lemma_fault_texts(s: Seq<char>, n: u16, b: Seq<u8>)
    requires
        b.len() == 4,
    ensures
        check::fault_text(Fault::NotImageFile(s)) == "path or url is not image file: "@ + s,
        check::fault_text(Fault::UnsupportedExtension(s)) == "unsupported image extension: "@ + s,
        check::fault_text(Fault::Unknown(s)) == "unknown error: "@ + s,
        check::fault_text(Fault::Other(s)) == "error: "@ + s,
        check::fault_text(Fault::FailedResponse(n, s)).len() == 0,
        check::fault_text(Fault::HeadFailed(n, s)) == "request head failed, status: "@
            + text::decimal(n as nat) + ", headers: "@ + s,
        check::fault_text(Fault::InvalidImageMagicNumber(b)) == "invalid image magic numbers: ["@
            + text::decimal(b[0] as nat) + ", "@ + text::decimal(b[1] as nat) + ", "@
            + text::decimal(b[2] as nat) + ", "@ + text::decimal(b[3] as nat) + "]"@,
{
}

/// What is said of a cause: for a link that does not count, why; for an image that could not be
/// loaded, the message; else that the format is not known.
pub proof fn lemma_cause_texts(fault: Fault, s: Seq<char>)
    ensures
        embed::cause_text(Cause::Check(fault)) == check::fault_text(fault),
        embed::cause_text(Cause::Load(s)) == s,
        embed::cause_text(Cause::UnknownFormat) == "unknown format image"@,
{
}

/// A document is noted by the text of its path, or by nothing if that is no text.
pub proof fn lemma_path_text(s: Seq<char>, p: Seq<u8>)
    ensures
        image::path_text(text::utf8(s)) == s,
        !text::is_utf8(p) ==> image::path_text(p).len() == 0,
{
    text::lemma_utf8_text(s);
}

} // verus!
