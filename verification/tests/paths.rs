use mdutil::output::{
    check_output_contents, check_output_path, get_sub_path, output_path, write_output, Contents,
    OutputError, OutputStep, SubPathError, WriteError,
};
use mdutil::path::UnixPath;
use std::path::Path;

fn p(s: &str) -> UnixPath {
    UnixPath::new(s)
}

fn text(path: &UnixPath) -> &str {
    path.to_str().unwrap()
}

const SAMPLES: [&str; 34] = [
    "", "/", "//", ".", "..", "./", "../", "a", "a/", "a//", "/a", "//a", "/a/", "a/b", "a//b",
    "a/./b", "./a", "././a", "/./a", "a/.", "a/..", "a/../b", "/..", "/a/b/c", "a/b.md", "a/.b",
    "a/.b.c", "a/b.", "...", "a/...", ".../a", "./.", "/a/./b//c/", "a b/\u{4e2d}.md",
];

#[test]
fn test_output() {
    let input = "/root/a/b";
    let path = "test/a.md";
    let res = get_sub_path(&p(input), &p(&format!("{}/{}", input, path)), false).unwrap();
    assert_eq!(res.to_str().unwrap(), path);
}

#[test]
fn paths_agree_with_std() {
    for s in SAMPLES {
        let (mine, std) = (p(s), Path::new(s));
        assert_eq!(mine.is_absolute(), std.is_absolute(), "{:?}", s);
        assert_eq!(mine.is_relative(), std.is_relative(), "{:?}", s);
        assert_eq!(
            mine.file_name().map(|n| n.to_vec()),
            std.file_name().map(|n| n.to_str().unwrap().as_bytes().to_vec()),
            "{:?}",
            s
        );
        assert_eq!(
            mine.extension().map(|n| n.to_vec()),
            std.extension().map(|n| n.to_str().unwrap().as_bytes().to_vec()),
            "{:?}",
            s
        );
        assert_eq!(
            mine.parent().map(|q| text(&q).to_string()),
            std.parent().map(|q| q.to_str().unwrap().to_string()),
            "{:?}",
            s
        );
        let parts: Vec<Vec<u8>> = std
            .components()
            .map(|c| c.as_os_str().to_str().unwrap().as_bytes().to_vec())
            .collect();
        assert_eq!(mine.components(), parts, "{:?}", s);
        for t in SAMPLES {
            let (other, std_other) = (p(t), Path::new(t));
            assert_eq!(mine == other, std == std_other, "{:?} {:?}", s, t);
            assert_eq!(
                text(&mine.join(&other)),
                std.join(std_other).to_str().unwrap(),
                "{:?} {:?}",
                s,
                t
            );
        }
    }
}

#[test]
fn bytes_that_are_no_text_stay() {
    let path = UnixPath::from_bytes(vec![47, 255, 46, 109, 100]);
    assert!(path.to_str().is_none());
    assert_eq!(path.as_bytes(), &[47, 255, 46, 109, 100]);
    assert_eq!(path.extension().unwrap(), b"md");
    assert_eq!(path.clone().as_bytes(), path.as_bytes());
}

#[test]
fn parent_loses_the_last_component() {
    let path = p("/a//b/./c.md");
    let parent = path.parent().unwrap();
    assert_eq!(text(&parent), "/a//b");
    let mut parts = path.components();
    parts.pop();
    assert_eq!(parent.components(), parts);
}

#[test]
fn sub_path_leads_back() {
    for (base, path) in [
        ("/a", "/a/b/c.md"),
        ("/", "/x/y"),
        ("/a/", "/a//b/./c.md"),
        ("/a/../b", "/a/../b/c"),
    ] {
        let sub = get_sub_path(&p(base), &p(path), false).unwrap();
        assert!(sub.is_relative());
        assert!(p(base).join(&sub) == p(path), "{} {}", base, path);
    }
    let sub = get_sub_path(&p("/a/b"), &p("/a/b/c/d/e.md"), true).unwrap();
    assert_eq!(text(&sub), "c/d/e.md");
}

#[test]
fn sub_path_errors() {
    let get = |b: &str, q: &str, f: bool| get_sub_path(&p(b), &p(q), f).map(|s| text(&s).to_string());
    assert_eq!(get("a", "/a/b", false), Err(SubPathError::Relative));
    assert_eq!(get("/a", "a/b", false), Err(SubPathError::Relative));
    assert_eq!(get("/a/b.md", "/a//b.md", true), Err(SubPathError::SameFile));
    assert_eq!(get("/a/b", "/a/b/", false), Ok("b".to_string()));
    assert_eq!(get("/", "/", false), Err(SubPathError::NoFileName));
    assert_eq!(get("/a/..", "/a/..", false), Err(SubPathError::NoFileName));
    assert_eq!(get("/b", "/a/b", false), Err(SubPathError::NotBelow));
    assert_eq!(get("/a/b", "/a", false), Err(SubPathError::NotBelow));
    assert_eq!(get("/a", "/a/../b", false), Err(SubPathError::NotBelow));
    let odd = UnixPath::from_bytes(vec![47, 97, 47, 255]);
    assert!(matches!(get_sub_path(&p("/a"), &odd, false), Err(SubPathError::NotBelow)));
}

#[test]
fn outputs_stay_below_and_differ() {
    let (input, output) = (p("/in"), p("out"));
    let first = output_path(&input, &p("/in/a/x.md"), false, &output).unwrap();
    let second = output_path(&input, &p("/in/b/x.md"), false, &output).unwrap();
    assert_eq!(text(&first), "out/a/x.md");
    assert_eq!(text(&second), "out/b/x.md");
    assert!(first != second);
    assert!(matches!(
        output_path(&input, &p("/other/x.md"), false, &output),
        Err(SubPathError::NotBelow)
    ));
}

#[test]
fn output_folder_decisions() {
    assert_eq!(check_output_path(&p("o"), false, false), Ok(OutputStep::Create));
    assert_eq!(check_output_path(&p("o"), false, true), Ok(OutputStep::Create));
    assert_eq!(check_output_path(&p("o"), true, true), Ok(OutputStep::Accept));
    assert_eq!(check_output_path(&p("o"), true, false), Ok(OutputStep::Inspect));
    let odd = UnixPath::from_bytes(vec![255]);
    assert_eq!(check_output_path(&odd, true, true), Err(OutputError::NotText));
    assert_eq!(check_output_contents(Contents::Empty), Ok(()));
    assert_eq!(check_output_contents(Contents::NonEmpty), Err(OutputError::NonEmpty));
    assert_eq!(check_output_contents(Contents::Unreadable), Err(OutputError::NonEmpty));
}

#[test]
fn output_file_decisions() {
    assert_eq!(text(&write_output(&p("o/a.md"), false, false).unwrap()), "o");
    assert_eq!(text(&write_output(&p("o/a.md"), true, true).unwrap()), "o");
    assert_eq!(text(&write_output(&p("a.md"), false, false).unwrap()), "");
    assert!(matches!(write_output(&p("o/a.md"), true, false), Err(WriteError::Exists)));
    assert!(matches!(write_output(&p("/"), false, false), Err(WriteError::NoParent)));
}
