//! The image formats that are known, by name and by the bytes a file starts with.
use vstd::prelude::*;
use crate::link::VariantNotFound;
use crate::text;

verus! {

/// An image format.
#[derive(Debug, Clone, Copy, PartialEq, Eq, Structural)]
pub enum ImageFormat {
    Bmp,
    Jpeg,
    Gif,
    Tiff,
    Png,
}

/// That a file does not start like an image of a known format.
#[derive(Debug, Clone, Copy, PartialEq, Eq, Structural)]
pub struct UnknownFormat;

/// Whether bytes start with an image format's signature.
pub open spec fn has_signature(b: Seq<u8>, format: ImageFormat) -> bool {
    match format {
        ImageFormat::Bmp => seq![66u8, 77].is_prefix_of(b),
        ImageFormat::Gif => seq![71u8, 73, 70].is_prefix_of(b),
        ImageFormat::Png => seq![137u8, 80, 78, 71].is_prefix_of(b),
        ImageFormat::Tiff => seq![73u8, 73, 42].is_prefix_of(b) || seq![77u8, 77, 42].is_prefix_of(
            b,
        ),
        ImageFormat::Jpeg => seq![255u8, 216, 255, 224].is_prefix_of(b) || seq![
            255u8,
            216,
            255,
            225,
        ].is_prefix_of(b),
    }
}

fn starts_with(b: &[u8], prefix: &[u8]) -> (res: bool)
    ensures
        res == prefix@.is_prefix_of(b@),
{
    if prefix.len() > b.len() {
        return false;
    }
    let start = vstd::slice::slice_subrange(b, 0, prefix.len());
    assert(b@.take(prefix@.len() as int) =~= start@);
    let res = text::bytes_eq(prefix, start);
    assert(prefix@.is_prefix_of(b@) == (prefix@ =~= b@.take(prefix@.len() as int)));
    res
}

impl ImageFormat {
    /// The name of the format.
    pub open spec fn name(self) -> Seq<char> {
        match self {
            ImageFormat::Bmp => "bmp"@,
            ImageFormat::Jpeg => "jpeg"@,
            ImageFormat::Gif => "gif"@,
            ImageFormat::Tiff => "tiff"@,
            ImageFormat::Png => "png"@,
        }
    }

    /// The name of the format, in small letters.
    pub fn lower_name(self) -> (res: &'static str)
        ensures
            res@ == self.name(),
    {
        match self {
            ImageFormat::Bmp => "bmp",
            ImageFormat::Jpeg => "jpeg",
            ImageFormat::Gif => "gif",
            ImageFormat::Tiff => "tiff",
            ImageFormat::Png => "png",
        }
    }

    /// The format with a name, whatever the case of its letters.
    pub fn from_str(s: &str) -> (res: Result<ImageFormat, VariantNotFound>)
        ensures
            match res {
                Ok(f) => text::same_word(s@, f.name()),
                Err(_) => forall|f: ImageFormat| !text::same_word(s@, #[trigger] f.name()),
            },
    {
        if text::eq_word(s, "bmp") {
            return Ok(ImageFormat::Bmp);
        }
        if text::eq_word(s, "jpeg") {
            return Ok(ImageFormat::Jpeg);
        }
        if text::eq_word(s, "gif") {
            return Ok(ImageFormat::Gif);
        }
        if text::eq_word(s, "tiff") {
            return Ok(ImageFormat::Tiff);
        }
        if text::eq_word(s, "png") {
            return Ok(ImageFormat::Png);
        }
        Err(VariantNotFound)
    }

    /// The format of the image that bytes are the start of.
    pub fn try_from(value: &[u8]) -> (res: Result<ImageFormat, UnknownFormat>)
        ensures
            match res {
                Ok(f) => has_signature(value@, f),
                Err(_) => forall|f: ImageFormat| !has_signature(value@, f),
            },
    {
        if starts_with(value, [66u8, 77].as_slice()) {
            return Ok(ImageFormat::Bmp);
        }
        if starts_with(value, [71u8, 73, 70].as_slice()) {
            return Ok(ImageFormat::Gif);
        }
        if starts_with(value, [137u8, 80, 78, 71].as_slice()) {
            return Ok(ImageFormat::Png);
        }
        if starts_with(value, [73u8, 73, 42].as_slice()) || starts_with(
            value,
            [77u8, 77, 42].as_slice(),
        ) {
            return Ok(ImageFormat::Tiff);
        }
        if starts_with(value, [255u8, 216, 255, 224].as_slice()) || starts_with(
            value,
            [255u8, 216, 255, 225].as_slice(),
        ) {
            return Ok(ImageFormat::Jpeg);
        }
        Err(UnknownFormat)
    }
}

/// The first four bytes of a file, filled up with zeros where it is shorter.
pub open spec fn first_four(b: Seq<u8>) -> Seq<u8> {
    Seq::new(4, |i: int| if i < b.len() { b[i] } else { 0 })
}

proof fn lemma_prefix(s: Seq<u8>, b: Seq<u8>)
    requires
        s.len() <= 4,
        forall|i: int| 0 <= i < s.len() ==> s[i] != 0,
    ensures
        s.is_prefix_of(b) == s.is_prefix_of(first_four(b)),
{
    let f = first_four(b);
    if s.is_prefix_of(b) {
        assert(s =~= f.take(s.len() as int));
    }
    if s.is_prefix_of(f) {
        assert forall|i: int| 0 <= i < s.len() implies i < b.len() && s[i] == b[i] by {
            assert(f.take(s.len() as int)[i] == f[i]);
        }
        if s.len() > 0 {
            assert(s[s.len() - 1] != 0);
        }
        assert(s =~= b.take(s.len() as int));
    }
}

/// The first four bytes of a file settle its format, also where the file is shorter.
pub proof fn lemma_first_four_settle(b: Seq<u8>, format: ImageFormat)
    ensures
        has_signature(b, format) == has_signature(first_four(b), format),
{
    lemma_prefix(seq![66u8, 77], b);
    lemma_prefix(seq![71u8, 73, 70], b);
    lemma_prefix(seq![137u8, 80, 78, 71], b);
    lemma_prefix(seq![73u8, 73, 42], b);
    lemma_prefix(seq![77u8, 77, 42], b);
    lemma_prefix(seq![255u8, 216, 255, 224], b);
    lemma_prefix(seq![255u8, 216, 255, 225], b);
}

/// No bytes start with the signatures of two formats.
pub proof fn lemma_format_unique(b: Seq<u8>, f: ImageFormat, g: ImageFormat)
    requires
        has_signature(b, f),
        has_signature(b, g),
    ensures
        f == g,
{
    lemma_starts(b, f);
    lemma_starts(b, g);
}

proof fn lemma_starts(b: Seq<u8>, f: ImageFormat)
    requires
        has_signature(b, f),
    ensures
        b.len() >= 2,
        match f {
            ImageFormat::Bmp => b[0] == 66 && b[1] == 77,
            ImageFormat::Gif => b[0] == 71,
            ImageFormat::Png => b[0] == 137,
            ImageFormat::Tiff => b[0] == b[1] && (b[0] == 73 || b[0] == 77),
            ImageFormat::Jpeg => b[0] == 255,
        },
{
    let signatures = seq![
        seq![66u8, 77],
        seq![71u8, 73, 70],
        seq![137u8, 80, 78, 71],
        seq![73u8, 73, 42],
        seq![77u8, 77, 42],
        seq![255u8, 216, 255, 224],
        seq![255u8, 216, 255, 225],
    ];
    assert forall|k: int| 0 <= k < 7 && (#[trigger] signatures[k]).is_prefix_of(b) implies b[0]
        == signatures[k][0] && b[1] == signatures[k][1] && b.len() >= 2 by {
        let s = signatures[k];
        assert(b.take(s.len() as int)[0] == s[0]);
        assert(b.take(s.len() as int)[1] == s[1]);
    }
    assert(signatures[0] == seq![66u8, 77]);
    assert(signatures[1] == seq![71u8, 73, 70]);
    assert(signatures[2] == seq![137u8, 80, 78, 71]);
    assert(signatures[3] == seq![73u8, 73, 42]);
    assert(signatures[4] == seq![77u8, 77, 42]);
    assert(signatures[5] == seq![255u8, 216, 255, 224]);
    assert(signatures[6] == seq![255u8, 216, 255, 225]);
}

} // verus!
