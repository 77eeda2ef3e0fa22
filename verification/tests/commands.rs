use mdutil::cmd::{
    log_level, parse_duration_secs, parse_extensions, plan_replace, CheckerArgs, Common, Duration,
    InputError, LogLevel, Opt, ParseSecsError, ReplaceArgs, ReplacePlan, TooVerbose,
};
use mdutil::link::LinkType;
use mdutil::path::UnixPath;
use mdutil::tree::{Input, Item, Listing};

fn common(recursive: bool) -> Common {
    Common {
        verbose: 1,
        input: UnixPath::new("/in"),
        extensions: parse_extensions("md,markdown"),
        recursive,
    }
}

fn args(kind: LinkType) -> CheckerArgs {
    CheckerArgs { connect_timeout: Duration { secs: 5, nanos: 0 }, image_link_type: kind }
}

#[test]
fn durations() {
    assert_eq!(parse_duration_secs("5"), Ok(Duration { secs: 5, nanos: 0 }));
    assert_eq!(parse_duration_secs("+007"), Ok(Duration { secs: 7, nanos: 0 }));
    assert_eq!(
        parse_duration_secs("18446744073709551615"),
        Ok(Duration { secs: u64::MAX, nanos: 0 })
    );
    let samples = [
        "", "+", "-", "-1", " 1", "1 ", "1_0", "0x1", "++1", "+-1", "18446744073709551616",
        "99999999999999999999", "99999999999999999999x", "1x99999999999999999999", "0", "00",
        "12345678901234567890123", "\u{661}",
    ];
    for s in samples {
        let mine = parse_duration_secs(s);
        match s.parse::<u64>() {
            Ok(n) => assert_eq!(mine, Ok(Duration { secs: n, nanos: 0 }), "{:?}", s),
            Err(e) => assert_eq!(mine.unwrap_err().to_str(), e.to_string(), "{:?}", s),
        }
    }
    assert_eq!(parse_duration_secs(""), Err(ParseSecsError::Empty));
    assert_eq!(parse_duration_secs("x"), Err(ParseSecsError::InvalidDigit));
    assert_eq!(parse_duration_secs("18446744073709551616"), Err(ParseSecsError::PosOverflow));
}

#[test]
fn durations_are_read_back() {
    for n in [0u64, 9, 10, 1234567890, u64::MAX] {
        let written = mdutil::text::to_decimal(n);
        assert_eq!(written, n.to_string());
        assert_eq!(parse_duration_secs(&written), Ok(Duration { secs: n, nanos: 0 }));
    }
}

#[test]
fn extensions() {
    let set = parse_extensions(" md,\u{3000}markdown\t,mk , md,");
    assert_eq!(set.len(), 4);
    for word in ["md", "markdown", "mk", ""] {
        assert!(set.contains(word), "{:?}", word);
    }
    assert!(!set.contains(" md"));
    assert_eq!(parse_extensions("").len(), 1);
    assert_eq!(parse_extensions("a b").len(), 1);
    assert!(parse_extensions("a b").contains("a b"));
}

#[test]
fn white_space_agrees_with_std() {
    for n in 0u32..0x11000 {
        if let Some(c) = char::from_u32(n) {
            if c != ',' {
                let s = format!("{}x{}", c, c);
                assert!(parse_extensions(&s).contains(s.trim()), "{:x}", n);
            }
        }
    }
}

#[test]
fn documents_by_extension() {
    let common = common(false);
    assert!(common.is_markdown_file(&UnixPath::new("a/testa.md"), true));
    assert!(common.is_markdown_file(&UnixPath::new("a/another.markdown"), true));
    assert!(!common.is_markdown_file(&UnixPath::new("a/testa.md"), false));
    assert!(!common.is_markdown_file(&UnixPath::new("a/non-markdown.nonmd"), true));
    assert!(!common.is_markdown_file(&UnixPath::new("a/test.png"), true));
    assert!(!common.is_markdown_file(&UnixPath::new("a/.md"), true));
    assert!(!common.is_markdown_file(&UnixPath::new("md"), true));
}

fn file(s: &str) -> Item {
    Item::File(UnixPath::new(s), Ok(UnixPath::new(&format!("/real/{}", s))))
}

fn tree() -> Listing {
    Listing::Items(vec![
        file("one.md"),
        Item::Folder(Listing::Items(vec![
            file("two.markdown"),
            Item::Other,
            file("two.png"),
            Item::Folder(Listing::Items(vec![file("three.md")])),
        ])),
        file("note.txt"),
        file("four.md"),
    ])
}

fn texts(paths: Vec<UnixPath>) -> Vec<String> {
    paths.iter().map(|p| p.to_str().unwrap().to_string()).collect()
}

#[test]
fn documents_of_a_folder() {
    let path = UnixPath::new("/in");
    let flat = common(false).load_input_paths(&path, &Input::Folder(tree())).unwrap();
    assert_eq!(texts(flat), ["/real/one.md", "/real/four.md"]);
    let deep = common(true).load_input_paths(&path, &Input::Folder(tree())).unwrap();
    assert_eq!(
        texts(deep),
        ["/real/one.md", "/real/two.markdown", "/real/three.md", "/real/four.md"]
    );
    let none = common(true).load_input_paths(&path, &Input::Other(tree())).unwrap();
    assert!(none.is_empty());
}

#[test]
fn broken_folders() {
    let path = UnixPath::new("/in");
    let broken = || {
        Listing::Items(vec![file("one.md"), Item::Broken("lost".to_string()), file("two.md")])
    };
    let flat = common(false).load_input_paths(&path, &Input::Folder(broken())).unwrap();
    assert_eq!(texts(flat), ["/real/one.md", "/real/two.md"]);
    let deep = common(true).load_input_paths(&path, &Input::Folder(broken()));
    assert!(matches!(deep, Err(InputError::Io(s)) if s == "lost"));
    let mut found = Vec::new();
    assert_eq!(common(true).visite_recursive(&broken(), &mut found), Err("lost".to_string()));
    assert_eq!(texts(found), ["/real/one.md"]);
    let unreadable = Listing::Unreadable("closed".to_string());
    let deep = common(true).load_input_paths(&path, &Input::Folder(Listing::Items(vec![Item::Folder(unreadable)])));
    assert!(matches!(deep, Err(InputError::Io(s)) if s == "closed"));
    let other = Input::Other(Listing::Unreadable("no folder".to_string()));
    let flat = common(false).load_input_paths(&path, &other);
    assert!(matches!(flat, Err(InputError::Io(s)) if s == "no folder"));
    let gone = Listing::Items(vec![Item::File(UnixPath::new("x.md"), Err("gone".to_string()))]);
    let deep = common(true).load_input_paths(&path, &Input::Folder(gone));
    assert!(matches!(deep, Err(InputError::Io(s)) if s == "gone"));
}

#[test]
fn single_documents() {
    let doc = UnixPath::new("/in/a.md");
    let one = common(false).load_input_paths(&doc, &Input::File).unwrap();
    assert_eq!(texts(one), ["/in/a.md"]);
    assert!(matches!(
        common(true).load_input_paths(&doc, &Input::File),
        Err(InputError::RecursiveFile)
    ));
    assert!(matches!(
        common(false).load_input_paths(&UnixPath::new("/in/a.png"), &Input::File),
        Err(InputError::NotMarkdown)
    ));
    assert!(matches!(
        common(false).load_input_paths(&doc, &Input::Missing),
        Err(InputError::Missing)
    ));
    assert!(matches!(
        common(false).load_input_paths(&UnixPath::from_bytes(vec![255]), &Input::Missing),
        Err(InputError::NotText)
    ));
}

#[test]
fn commands_know_what_they_read() {
    let check = Opt::Check { common: common(true), checker_args: args(LinkType::All) };
    assert!(check.common().unwrap().recursive);
    let replace = Opt::Replace {
        common: common(false),
        checker_args: args(LinkType::All),
        replace_args: ReplaceArgs { output: UnixPath::new("/out"), overwrite: false },
    };
    assert!(!replace.common().unwrap().recursive);
    assert!(Opt::Completion.common().is_none());
}

#[test]
fn replace_decisions() {
    let to = |s: &str| ReplaceArgs { output: UnixPath::new(s), overwrite: false };
    let (all, none) = (args(LinkType::All), args(LinkType::Nothing));
    assert_eq!(plan_replace(&common(false), &all, &to("/in/"), true), ReplacePlan::Prohibited);
    assert_eq!(plan_replace(&common(false), &none, &to("/in"), true), ReplacePlan::Prohibited);
    assert_eq!(plan_replace(&common(false), &all, &to("/in"), false), ReplacePlan::Go);
    assert_eq!(plan_replace(&common(false), &all, &to("/out"), true), ReplacePlan::Go);
    assert_eq!(plan_replace(&common(false), &none, &to("/out"), true), ReplacePlan::Stop);
}

#[test]
fn log_levels() {
    assert_eq!(log_level(0), Ok(LogLevel::Error));
    assert_eq!(log_level(1), Ok(LogLevel::Warn));
    assert_eq!(log_level(2), Ok(LogLevel::Info));
    assert_eq!(log_level(3), Ok(LogLevel::Debug));
    assert_eq!(log_level(4), Ok(LogLevel::Trace));
    assert_eq!(log_level(5), Err(TooVerbose));
    assert_eq!(log_level(255), Err(TooVerbose));
}
