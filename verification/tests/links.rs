use mdutil::check::{
    check_link, check_link_local, check_link_net, check_magic, CheckStep, HeadReply,
    LinkCheckError,
};
use mdutil::image_format::{ImageFormat, UnknownFormat};
use mdutil::link::{
    get_link_name, link_name, parse_link, resolve_link, Link, LinkType, UrlParts, VariantNotFound,
};
use mdutil::path::UnixPath;

const DATA_DIR: &str = "tests/resources";

fn local(s: &str) -> Link {
    Link::Local(UnixPath::new(s))
}

#[test]
fn test_parse_link() {
    let mut md_path = UnixPath::new(DATA_DIR).join(&UnixPath::new("test.md"));

    let link = "https://www.baidu.com/img/PCtm_d9c8750bed0b3c7d089fa7d55720d6cf.png";
    assert_eq!(parse_link(&md_path, link), Link::Net(link.to_string()));

    let link = "test.png";
    assert_eq!(
        parse_link(&md_path, link),
        local(&format!("{}/{}", md_path.parent().unwrap().to_str().unwrap(), link))
    );

    let link = "_not/exist/_file.png";
    assert_eq!(
        parse_link(&md_path, link),
        local(&format!("{}/{}", md_path.parent().unwrap().to_str().unwrap(), link))
    );

    let link = "_not/exis.fsdfsdf.sdfdsf./sdfds.fdsfs";
    md_path = md_path.join(&UnixPath::new("noexist_dir"));
    assert_eq!(
        parse_link(&md_path, link),
        local(&format!("{}/{}", md_path.parent().unwrap().to_str().unwrap(), link))
    );
}

#[test]
fn links_point_to_files_or_urls() {
    let doc = UnixPath::new("tests/resources/test.md");
    assert_eq!(parse_link(&doc, "./test.png"), local("tests/resources/test.png"));
    assert_eq!(parse_link(&doc, "/x/y.png"), local("/x/y.png"));
    assert_eq!(parse_link(&doc, "HTTP://Example.COM/a b"), Link::Net("http://example.com/a%20b".to_string()));
    assert_eq!(parse_link(&UnixPath::new("/"), "/x.png"), local("/x.png"));
    let url = UrlParts { text: "u:x".to_string(), segments: None };
    assert_eq!(resolve_link(&doc, "whatever", Some(url)), Link::Net("u:x".to_string()));
    assert_eq!(resolve_link(&doc, "http://a", None), local("tests/resources/http://a"));
    assert!(local("a//b") == local("a/b"));
    assert!(local("a") != Link::Net("a".to_string()));
}

#[test]
fn links_are_shown() {
    assert_eq!(local("a/b.png").to_string(), "Local(a/b.png)");
    assert_eq!(Link::Local(UnixPath::from_bytes(vec![255])).to_string(), "Local(none)");
    assert_eq!(Link::Net("http://a/".to_string()).clone().to_string(), "Net(http://a/)");
}

#[test]
fn link_names() {
    assert_eq!(get_link_name("https://a.com/x/y.png?q#f"), "y.png");
    assert_eq!(get_link_name("https://a.com"), "none");
    assert_eq!(get_link_name("https://e.com/"), "none");
    assert_eq!(get_link_name("https://e.com/a/?q=b.png"), "none");
    assert_eq!(get_link_name("a/b.png"), "b.png");
    assert_eq!(get_link_name("data:image/png"), "png");
    assert_eq!(get_link_name(".."), "none");
    let url = UrlParts { text: String::new(), segments: Some(vec!["a".to_string(), "b".to_string()]) };
    assert_eq!(link_name("c/d", Some(url)), "b");
    let url = UrlParts { text: String::new(), segments: None };
    assert_eq!(link_name("c/d", Some(url)), "d");
}

#[test]
fn kinds_of_links() {
    assert_eq!(LinkType::from_str("all"), Ok(LinkType::All));
    assert_eq!(LinkType::from_str("LOCAL"), Ok(LinkType::Local));
    assert_eq!(LinkType::from_str("nEt"), Ok(LinkType::Net));
    assert_eq!(LinkType::from_str("none"), Ok(LinkType::Nothing));
    assert_eq!(LinkType::from_str("nothing"), Err(VariantNotFound));
    assert_eq!(LinkType::from_str("all "), Err(VariantNotFound));
    assert_eq!(LinkType::Nothing.to_str(), "None");
    let (file, url) = (local("a"), Link::Net("b:c".to_string()));
    for (kind, with_file, with_url) in [
        (LinkType::All, true, true),
        (LinkType::Local, true, false),
        (LinkType::Net, false, true),
        (LinkType::Nothing, false, false),
    ] {
        assert_eq!(kind.selects(&file), with_file);
        assert_eq!(kind.selects(&url), with_url);
    }
}

#[test]
fn formats_by_signature() {
    assert_eq!(ImageFormat::try_from(&[137, 80, 78, 71, 13, 10]), Ok(ImageFormat::Png));
    assert_eq!(ImageFormat::try_from(b"BM"), Ok(ImageFormat::Bmp));
    assert_eq!(ImageFormat::try_from(b"GIF89a"), Ok(ImageFormat::Gif));
    assert_eq!(ImageFormat::try_from(&[73, 73, 42, 0]), Ok(ImageFormat::Tiff));
    assert_eq!(ImageFormat::try_from(&[77, 77, 42]), Ok(ImageFormat::Tiff));
    assert_eq!(ImageFormat::try_from(&[255, 216, 255, 224]), Ok(ImageFormat::Jpeg));
    assert_eq!(ImageFormat::try_from(&[255, 216, 255, 225, 1]), Ok(ImageFormat::Jpeg));
    assert_eq!(ImageFormat::try_from(&[255, 216, 255, 226]), Err(UnknownFormat));
    assert_eq!(ImageFormat::try_from(b"# markdown util\n"), Err(UnknownFormat));
    assert_eq!(ImageFormat::try_from(b"B"), Err(UnknownFormat));
}

#[test]
fn formats_by_name() {
    for (name, format) in [
        ("bmp", ImageFormat::Bmp),
        ("JPEG", ImageFormat::Jpeg),
        ("Gif", ImageFormat::Gif),
        ("tiFF", ImageFormat::Tiff),
        ("PNG", ImageFormat::Png),
    ] {
        assert_eq!(ImageFormat::from_str(name), Ok(format));
        assert_eq!(format.lower_name(), name.to_lowercase());
    }
    assert_eq!(ImageFormat::from_str("jpg"), Err(VariantNotFound));
}

#[test]
fn check_of_a_file() {
    let path = UnixPath::new("a/b.PNG");
    assert!(matches!(check_link(&Link::Local(path.clone())), CheckStep::TestFile));
    assert!(matches!(check_link(&Link::Net("a:b".to_string())), CheckStep::SendHead));
    assert!(matches!(check_link_local(&path, "\"a/b.PNG\"", true), CheckStep::ReadMagic));
    assert!(matches!(
        check_link_local(&path, "", false),
        CheckStep::Refuse(LinkCheckError::NotImageFile(s)) if s == "path does not exist or is file"
    ));
    assert!(matches!(
        check_link_local(&UnixPath::new("a.JP\u{c4}G"), "", true),
        CheckStep::Refuse(LinkCheckError::UnsupportedExtension(s)) if s == "jp\u{e4}g"
    ));
    assert!(matches!(
        check_link_local(&UnixPath::new("a/b"), "\"a/b\"", true),
        CheckStep::Refuse(LinkCheckError::Unknown(s)) if s == "to str error: \"a/b\""
    ));
}

#[test]
fn check_of_a_signature() {
    assert!(check_magic(Ok([137, 80, 78, 71])).is_ok());
    assert!(check_magic(Ok([66, 77, 0, 0])).is_ok());
    assert!(matches!(
        check_magic(Ok([1, 2, 3, 4])),
        Err(LinkCheckError::InvalidImageMagicNumber([1, 2, 3, 4]))
    ));
    assert!(matches!(
        check_magic(Err("gone".to_string())),
        Err(LinkCheckError::Other(s)) if s == "gone"
    ));
}

#[test]
fn the_first_four_bytes_settle_the_format() {
    for bytes in [
        b"BM".to_vec(),
        b"B".to_vec(),
        b"GIF".to_vec(),
        b"GI".to_vec(),
        vec![77, 77, 42],
        vec![255, 216, 255],
        vec![255, 216, 255, 225, 0, 1],
        vec![137, 80, 78, 71, 13, 10, 26, 10],
        b"text".to_vec(),
        vec![],
    ] {
        let mut magic = [0; 4];
        for (to, from) in magic.iter_mut().zip(bytes.iter()) {
            *to = *from;
        }
        assert_eq!(ImageFormat::try_from(&magic), ImageFormat::try_from(&bytes));
        assert_eq!(check_magic(Ok(magic)).is_ok(), ImageFormat::try_from(&bytes).is_ok());
    }
}

fn head(status: u16, content_type: Option<&[u8]>) -> Result<(), String> {
    let reply = HeadReply { status, content_type: content_type.map(|b| b.to_vec()) };
    check_link_net(Ok(reply)).map_err(|e| e.to_string())
}

#[test]
fn check_of_a_url() {
    assert_eq!(head(200, Some(b"image/png")), Ok(()));
    assert_eq!(head(299, Some(b"IMAGE/JPEG; q=1")), Ok(()));
    assert_eq!(head(204, Some(b"x-gifts")), Ok(()));
    assert_eq!(
        head(404, Some(b"image/png")),
        Err("request head failed, status: 404, headers: unsuccessful status".to_string())
    );
    assert_eq!(
        head(300, None),
        Err("request head failed, status: 300, headers: unsuccessful status".to_string())
    );
    assert_eq!(
        head(200, None),
        Err("request head failed, status: 200, headers: not found content-type in headers".to_string())
    );
    assert_eq!(
        head(200, Some(&[105, 200])),
        Err("error: failed to convert header to a str".to_string())
    );
    assert_eq!(
        head(200, Some(b"Text/HTML")),
        Err("unsupported image extension: content-type: text/html".to_string())
    );
    assert!(matches!(
        check_link_net(Err("unexpected EOF".to_string())),
        Err(LinkCheckError::Other(s)) if s == "unexpected EOF"
    ));
}

#[test]
fn messages_of_check_errors() {
    let text = |s: &str| s.to_string();
    assert_eq!(
        LinkCheckError::NotFound.to_string(),
        "The link was not found because path does not exist or url is not available"
    );
    assert_eq!(
        LinkCheckError::NotImageFile(text("x")).to_string(),
        "path or url is not image file: x"
    );
    assert_eq!(
        LinkCheckError::InvalidImageMagicNumber([0, 10, 200, 255]).to_string(),
        "invalid image magic numbers: [0, 10, 200, 255]"
    );
    assert_eq!(LinkCheckError::FailedResponse(500, text("x")).to_string(), "");
    assert_eq!(LinkCheckError::Unknown(text("x")).to_string(), "unknown error: x");
    assert_eq!(LinkCheckError::Other(text("x")).to_string(), "error: x");
}
