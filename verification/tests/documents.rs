use mdutil::check::LinkCheckError;
use mdutil::cmd::{CheckerArgs, Duration};
use mdutil::embed::{
    after_check, after_load, load_image, replace, rewrite_links, select_jobs, EmbedCause,
    EmbedError, EmbedJob, EncodedImage, ImageTable, JobOutcome, JobStep,
};
use mdutil::image::{conclude, note_line, Checker};
use mdutil::image_format::ImageFormat;
use mdutil::link::{Link, LinkType};
use mdutil::markdown::{find_images, ImageSpan};
use mdutil::path::UnixPath;
use mdutil::report::{error_report, problem_count, problem_report};

const DATA: &str = r#"
# markdown util

the test

![absolutely local image](/home/navyd/Workspaces/projects/blog-resources/assets/images/0c1c6c89-5dfb-4a5e-a4c5-6aac1b299b37.png)

![test image](test/test.png)

![not exist image](test/_not_exists_test.png)

![](https://www.baidu.com/img/PCtm_d9c8750bed0b3c7d089fa7d55720d6cf.png)

![](https://fsafthe234notexist.com/a/b/c_aaaa/a.png)"#;

const START: Duration = Duration { secs: 0, nanos: 0 };

fn checker(kind: LinkType) -> Checker {
    Checker::new(CheckerArgs {
        connect_timeout: Duration { secs: 3, nanos: 0 },
        image_link_type: kind,
    })
}

fn encoded(base64: &str, format: ImageFormat) -> EncodedImage {
    EncodedImage { base64: base64.to_string(), format }
}

#[test]
fn replace_with_links() {
    let mut links = ImageTable::new();
    links.insert(
        "![test image](test/test.png)".to_string(),
        encoded("base64testaaabb", ImageFormat::Png),
    );
    links.insert(
        "![](https://www.baidu.com/img/PCtm_d9c8750bed0b3c7d089fa7d55720d6cf.png)".to_string(),
        encoded("base64testaaabbcccccc", ImageFormat::Png),
    );
    let old = DATA;
    let new = replace(old, &links, START);
    assert!(new.len() > old.len());
    assert!(!new.contains("![test image](test/test.png)"));
    assert!(new.contains("[1_PCtm_d9c8750bed0b3c7d089fa7d55720d6cf.png]:data:image/png;base64,base64testaaabbcccccc"));
}

#[test]
fn replaced_text_is_exact() {
    let mut links = ImageTable::new();
    links.insert("![a](x.png)".to_string(), encoded("QQ==", ImageFormat::Gif));
    links.insert("![](http://h/p/q.bmp)".to_string(), encoded("Qk0=", ImageFormat::Bmp));
    let text = "h\u{e4} ![a](x.png) z\n![b](y.png)\n![](http://h/p/q.bmp)";
    assert_eq!(
        replace(text, &links, Duration { secs: 1518568087, nanos: 500_000_000 }),
        "h\u{e4} ![a][0_x.png] z\n![b](y.png)\n![][1_q.bmp]\
         \n\n<!-- auto generated by mdutil at 2018-02-14T00:28:07.500000000Z -->\n\n\
         [0_x.png]:data:image/gif;base64,QQ==\n\
         [1_q.bmp]:data:image/bmp;base64,Qk0=\n"
    );
}

#[test]
fn all_image_links_of_a_line_are_replaced() {
    let mut links = ImageTable::new();
    links.insert("![a](x.png)".to_string(), encoded("QQ==", ImageFormat::Png));
    links.insert("![b](y.png)".to_string(), encoded("Qg==", ImageFormat::Png));
    let new = replace("![a](x.png) ![b](y.png)", &links, START);
    assert!(new.starts_with("![a][0_x.png] ![b][1_y.png]\n\n<!-- "));
    assert!(new.ends_with("[0_x.png]:data:image/png;base64,QQ==\n[1_y.png]:data:image/png;base64,Qg==\n"));
    let path = UnixPath::new("d/a.md");
    let infos = checker(LinkType::All).check(&path, "\n![a](x.png) ![b](y.png)\n");
    let noted: Vec<(usize, &str)> = infos.iter().map(|i| (i.row_num, i.image_link.as_str())).collect();
    assert_eq!(noted, [(2, "![a](x.png)"), (2, "![b](y.png)")]);
}

#[test]
fn image_links_around_links_are_replaced() {
    let mut links = ImageTable::new();
    links.insert("![a [x](y)](z.png)".to_string(), encoded("QQ==", ImageFormat::Png));
    let new = replace("![a [x](y)](z.png)", &links, START);
    assert!(new.starts_with("![a [x](y)][0_z.png]\n\n<!-- "));
    assert!(new.ends_with("[0_z.png]:data:image/png;base64,QQ==\n"));
    let infos = checker(LinkType::All).check(&UnixPath::new("d/a.md"), "![a [x](y)](z.png)");
    assert_eq!(infos.len(), 1);
    assert_eq!(infos[0].image_link, "![a [x](y)](z.png)");
    assert_eq!(infos[0].link, Link::Local(UnixPath::new("d/z.png")));
}

#[test]
fn one_image_link_used_twice_gets_two_ids() {
    let mut links = ImageTable::new();
    links.insert("![a](x.png)".to_string(), encoded("QQ==", ImageFormat::Png));
    let new = replace("![a](x.png)\n![a](x.png)\n", &links, START);
    assert!(new.starts_with("![a][0_x.png]\n![a][1_x.png]\n\n\n<!-- "));
    assert!(new.ends_with(" at 1970-01-01T00:00:00Z -->\n\n[0_x.png]:data:image/png;base64,QQ==\n[1_x.png]:data:image/png;base64,QQ==\n"));
}

#[test]
fn nothing_to_replace_keeps_the_text() {
    let mut links = ImageTable::new();
    assert!(links.is_empty());
    links.insert("![x](y)".to_string(), encoded("", ImageFormat::Png));
    assert!(!links.is_empty());
    assert!(links.get("![x](z)").is_none());
    assert_eq!(links.get("![x](y)").unwrap().format, ImageFormat::Png);
    let new = replace(DATA, &links, START);
    assert_eq!(
        new,
        format!("{}\n\n<!-- auto generated by mdutil at 1970-01-01T00:00:00Z -->\n\n", DATA)
    );
}

#[test]
fn rewriting_goes_by_what_it_is_given() {
    let mut links = ImageTable::new();
    links.insert("![a](b)".to_string(), encoded("Qk0=", ImageFormat::Bmp));
    let spans = vec![ImageSpan { start: 1, alt_end: 4, link_end: 7 }];
    let names = vec!["name".to_string()];
    assert_eq!(
        rewrite_links("x![a](b)y", &spans, &names, &links, "never"),
        "x![a][0_name]y\n\n<!-- auto generated by mdutil at never -->\n\n[0_name]:data:image/bmp;base64,Qk0=\n"
    );
}

fn wholes(text: &str) -> Vec<(&str, &str, &str)> {
    find_images(text)
        .iter()
        .map(|m| {
            (
                &text[m.start..m.link_end + 1],
                &text[m.start + 2..m.alt_end],
                &text[m.alt_end + 2..m.link_end],
            )
        })
        .collect()
}

#[test]
fn image_links_of_a_text() {
    assert_eq!(wholes("![a](b)"), [("![a](b)", "a", "b")]);
    assert_eq!(wholes("x ![](b) y\n!![\u{4e2d}](\u{6587})"), [("![](b)", "", "b"), ("![\u{4e2d}](\u{6587})", "\u{4e2d}", "\u{6587}")]);
    assert_eq!(wholes("![a](b) ![c](d)"), [("![a](b)", "a", "b"), ("![c](d)", "c", "d")]);
    assert_eq!(wholes("![a](b)![c](d)").len(), 2);
    assert_eq!(wholes("![a](b) (c)"), [("![a](b)", "a", "b")]);
    assert_eq!(wholes("![a](b) ](c"), [("![a](b)", "a", "b")]);
    assert_eq!(wholes("![a](b) ]()x)"), [("![a](b)", "a", "b")]);
    assert_eq!(wholes("[![a](b)](c)"), [("![a](b)", "a", "b")]);
    assert_eq!(wholes("![a] ![b](c)"), [("![b](c)", "b", "c")]);
    assert_eq!(wholes("![a[1]](b)"), [("![a[1]](b)", "a[1]", "b")]);
    assert_eq!(wholes("![a]b](c)"), [("![a]b](c)", "a]b", "c")]);
    assert_eq!(wholes("![a!](b)"), [("![a!](b)", "a!", "b")]);
    assert_eq!(wholes("!![a!!b!!](c)"), [("![a!!b!!](c)", "a!!b!!", "c")]);
    assert_eq!(wholes("![a](b(1)(2).png)"), [("![a](b(1)(2).png)", "a", "b(1)(2).png")]);
    assert_eq!(wholes("![a](()) x"), [("![a](())", "a", "()")]);
    assert_eq!(wholes("![a](b(c(d)).png) (e)"), [("![a](b(c(d)).png)", "a", "b(c(d)).png")]);
    assert_eq!(wholes("![a](b((((c)))))"), [("![a](b((((c)))))", "a", "b((((c))))")]);
    assert_eq!(wholes("![a](b(c.png)"), [("![a](b(c.png)", "a", "b(c.png")]);
    assert_eq!(wholes("![a](b(c.png) (d)"), [("![a](b(c.png) (d)", "a", "b(c.png) (d")]);
    assert_eq!(wholes("![a](b([1.png)"), [("![a](b([1.png)", "a", "b([1.png")]);
    assert_eq!(wholes("![a](b( ![c](d)"), [("![c](d)", "c", "d")]);
    assert_eq!(wholes("![a](b ![c](d) e)"), [("![c](d)", "c", "d")]);
    assert_eq!(wholes("![a](b![c.png)"), [("![a](b![c.png)", "a", "b![c.png")]);
    assert_eq!(wholes("![a](http://[::1]/(b).png)").len(), 1);
    assert_eq!(wholes("![a [x](y)](z.png)"), [("![a [x](y)](z.png)", "a [x](y)", "z.png")]);
    assert_eq!(wholes("![a ![x](y)](z.png)"), [("![a ![x](y)](z.png)", "a ![x](y)", "z.png")]);
    assert_eq!(wholes("![a ![x](y)"), [("![x](y)", "x", "y")]);
    assert_eq!(wholes("![[a](b)"), [("![[a](b)", "[a", "b")]);
    assert_eq!(wholes("![a](b) [c](d)"), [("![a](b)", "a", "b")]);
    assert_eq!(wholes("![a] [b](c)"), [("![a] [b](c)", "a] [b", "c")]);
    assert_eq!(wholes(r"![a\](b](c)"), [(r"![a\](b](c)", r"a\](b", "c")]);
    assert_eq!(wholes(r"![a](b\).png)"), [(r"![a](b\).png)", "a", r"b\).png")]);
    assert_eq!(wholes(r"![a](b\)"), [(r"![a](b\)", "a", r"b\")]);
    assert_eq!(wholes("![a](b \"c :)\") (d)"), [("![a](b \"c :)\")", "a", "b \"c :)\"")]);
    assert_eq!(wholes("![a](<b).png>) (c)"), [("![a](<b).png>)", "a", "<b).png>")]);
    assert_eq!(wholes("![a](b\"c) (d)"), [("![a](b\"c)", "a", "b\"c")]);
    assert_eq!(wholes("![a]())"), [("![a]())", "a", ")")]);
    assert_eq!(wholes("![a]() (b)"), [("![a]() (b)", "a", ") (b")]);
    assert_eq!(wholes("![a]() [b](c)"), [("![a]() [b](c)", "a]() [b", "c")]);
    assert_eq!(wholes("![a]() ![b](c)"), [("![b](c)", "b", "c")]);
    assert!(wholes("![a]()").is_empty());
    assert!(wholes("![a\n](b)").is_empty());
    assert!(wholes("![a](b\n)").is_empty());
    assert!(wholes("[a](b)").is_empty());
    assert!(wholes("").is_empty());
    assert_eq!(wholes("![a](b)\r\n![c](d)\r\n").len(), 2);
}

/// Whether `![` stands at a place.
fn opens(b: &[u8], k: usize) -> bool {
    k + 1 < b.len() && b[k] == b'!' && b[k + 1] == b'['
}

/// Whether `](` stands at a place.
fn turns(b: &[u8], k: usize) -> bool {
    k + 1 < b.len() && b[k] == b']' && b[k + 1] == b'('
}

/// Whether something that looks like an image link starts at a place of a line.
fn could_start(b: &[u8], k: usize) -> bool {
    opens(b, k)
        && (k + 2..b.len())
            .take_while(|&a| !opens(b, a))
            .any(|a| turns(b, a) && (a + 3..b.len()).any(|e| b[e] == b')'))
}

fn is_clear(b: &[u8], from: usize, to: usize) -> bool {
    (from..to).all(|k| !could_start(b, k))
}

fn pairs_up(part: &[u8]) -> bool {
    let (mut depth, mut k) = (0, 0);
    while k < part.len() {
        match part[k] {
            b'\\' => k += 1,
            b'[' => depth += 1,
            b']' if depth == 0 => return false,
            b']' => depth -= 1,
            _ => {}
        }
        k += 1;
    }
    depth == 0 && k == part.len()
}

fn stays_open(part: &[u8]) -> bool {
    let (mut depth, mut k) = (0, 0);
    while k < part.len() {
        let closer = match part[k] {
            b'"' => Some(b'"'),
            b'<' => Some(b'>'),
            _ => None,
        };
        match part[k] {
            b'\\' => k += 1,
            b'(' => depth += 1,
            b')' if depth == 0 => return false,
            b')' => depth -= 1,
            _ => {}
        }
        if let Some(c) = closer {
            if let Some(ahead) = part[k + 1..].iter().position(|&x| x == c) {
                k += 1 + ahead;
            }
        }
        k += 1;
    }
    true
}

/// The best of all readings at a place of a line, by trying each.
fn best(b: &[u8], s: usize) -> Option<(usize, usize)> {
    let mut readings = vec![];
    for a in s + 2..b.len() {
        let paired = turns(b, a) && pairs_up(&b[s + 2..a]);
        if turns(b, a) && (paired || is_clear(b, s + 2, a)) {
            for e in a + 3..b.len() {
                let improper = b[a + 2] == b')';
                if b[e] == b')'
                    && is_clear(b, a + 2, e)
                    && (improper || stays_open(&b[a + 2..e]))
                {
                    readings.push((improper, !paired, a, b.len() - e));
                }
            }
        }
    }
    readings.iter().min().map(|r| (r.2, b.len() - r.3))
}

/// Looks for image links as the description of `markdown` says, line by line.
fn search(b: &[u8]) -> Vec<(usize, usize, usize)> {
    let mut found = vec![];
    let mut start = 0;
    for line in b.split(|&x| x == b'\n') {
        let mut s = 0;
        while s < line.len() {
            match if opens(line, s) { best(line, s) } else { None } {
                Some((a, e)) => {
                    found.push((start + s, start + a, start + e));
                    s = e + 1;
                }
                None => s += 1,
            }
        }
        start += line.len() + 1;
    }
    found
}

#[test]
fn image_links_of_many_texts() {
    let letters = ['!', '[', ']', '(', ')', '\n', 'x', '\u{4e2d}'];
    let mut seed: u64 = 12345;
    for _ in 0..200 {
        let mut text = String::new();
        let mut count = 0;
        while count < 1000 {
            seed = seed.wrapping_mul(6364136223846793005).wrapping_add(1442695040888963407);
            let pick = (seed >> 33) % 15;
            match pick {
                8 => text.push_str("!["),
                9 => text.push_str("]("),
                10 => text.push_str("![x](x)"),
                11 => text.push_str(if count % 2 == 0 { "(x)" } else { "((x" }),
                12 => text.push_str(if count % 2 == 0 { "[x]" } else { "[[x" }),
                13 => text.push_str(if count % 2 == 0 { "\"" } else { "\\" }),
                14 => text.push_str(if count % 2 == 0 { "<" } else { ">" }),
                _ => text.push(letters[pick as usize]),
            }
            count += 1;
        }
        let found: Vec<(usize, usize, usize)> =
            find_images(&text).iter().map(|m| (m.start, m.alt_end, m.link_end)).collect();
        assert_eq!(found, search(text.as_bytes()), "{:?}", text);
    }
}

#[test]
fn plain_lines_follow_the_plain_pattern() {
    let plain = regex::Regex::new(r"!\[(.*)\]\((.+)\)").unwrap();
    let parts = ["x", " ", "(", "[", "]", "!", "\u{4e2d}", "/", "\"", "<"];
    let mut seed: u64 = 777;
    let mut pick = || {
        seed = seed.wrapping_mul(6364136223846793005).wrapping_add(1442695040888963407);
        parts[((seed >> 33) % 10) as usize]
    };
    let mut compared = 0;
    for _ in 0..500 {
        let (alt, link) = ([pick(), pick(), pick()].concat(), [pick(), pick(), pick()].concat());
        let line = format!("{}![{}]({}){}", pick(), alt, link, pick());
        let single = |s: &str| line.matches(s).count() == 1;
        if single("![") && single("](") {
            let expected: Vec<(&str, &str, &str)> = plain
                .captures_iter(&line)
                .map(|c| {
                    (c.get(0).unwrap().as_str(), c.get(1).unwrap().as_str(), c.get(2).unwrap().as_str())
                })
                .collect();
            assert_eq!(wholes(&line), expected, "{:?}", line);
            compared += 1;
        }
    }
    assert!(compared > 100);
}

#[test]
fn checking_notes_links_line_by_line() {
    let path = UnixPath::new("docs/a.md");
    let infos = checker(LinkType::All).check(&path, DATA);
    assert_eq!(infos.len(), 5);
    let rows: Vec<usize> = infos.iter().map(|i| i.row_num).collect();
    assert_eq!(rows, [6, 8, 10, 12, 14]);
    let info = &infos[1];
    assert_eq!(info.path, "docs/a.md");
    assert_eq!(info.image_link, "![test image](test/test.png)");
    assert_eq!(info.line, "![test image](test/test.png)");
    assert_eq!(info.link, Link::Local(UnixPath::new("docs/test/test.png")));
    assert_eq!(info.col_num, 0);
    assert!(info.error.is_none());
    assert_eq!(checker(LinkType::Local).check(&path, DATA).len(), 3);
    assert_eq!(checker(LinkType::Net).check(&path, DATA).len(), 2);
    assert!(checker(LinkType::Nothing).check(&path, DATA).is_empty());
}

#[test]
fn lines_agree_with_std() {
    let path = UnixPath::new("a.md");
    for text in [
        "", "\n", "![a](b)", "![a](b)\n", "\r\n![a](b)\r\n\n x![c](d)y\r", "\n\n![a](b)\r\r\n![c](d)",
        "\u{4e2d}\n\u{6587}![\u{4e2d}](\u{6587})\u{6587}\n\u{4e2d}![a](b)",
    ] {
        let mut expected = vec![];
        for (row, line) in text.lines().enumerate() {
            for m in find_images(line) {
                expected.push((row + 1, line.to_string(), line[m.start..m.link_end + 1].to_string()));
            }
        }
        let infos = checker(LinkType::All).check(&path, text);
        let noted: Vec<(usize, String, String)> =
            infos.into_iter().map(|i| (i.row_num, i.line, i.image_link)).collect();
        assert_eq!(noted, expected, "{:?}", text);
    }
}

#[test]
fn a_line_is_noted_as_given() {
    let spans = vec![ImageSpan { start: 1, alt_end: 4, link_end: 7 }];
    let targets = vec![Link::Net("u:v".to_string())];
    let path = UnixPath::from_bytes(vec![255]);
    let infos = note_line(&path, "x![a](b)y", 7, LinkType::Net, &spans, &targets);
    assert_eq!(infos.len(), 1);
    assert_eq!(infos[0].path, "");
    assert_eq!(infos[0].row_num, 7);
    assert_eq!(infos[0].image_link, "![a](b)");
    assert_eq!(infos[0].link, targets[0]);
    assert!(note_line(&path, "x![a](b)y", 7, LinkType::Local, &spans, &targets).is_empty());
    assert!(select_jobs("x![a](b)y", LinkType::Local, &spans, &targets).is_empty());
    assert_eq!(select_jobs("x![a](b)y", LinkType::All, &spans, &targets).len(), 1);
}

#[test]
fn checking_and_embedding_look_at_the_same() {
    let path = UnixPath::new("docs/a.md");
    for kind in [LinkType::All, LinkType::Local, LinkType::Net, LinkType::Nothing] {
        let infos = checker(kind).check(&path, DATA);
        let jobs = checker(kind).embed_jobs(&path, DATA);
        assert_eq!(infos.len(), jobs.len());
        for (info, job) in infos.iter().zip(jobs.iter()) {
            assert_eq!(info.image_link, job.image_link);
            assert_eq!(info.link, job.link);
        }
    }
}

fn job() -> EmbedJob {
    EmbedJob {
        image_link: "![a](x.png)".to_string(),
        link: Link::Local(UnixPath::new("d/x.png")),
    }
}

#[test]
fn jobs_go_step_by_step() {
    assert!(matches!(after_check(job(), Ok(())), JobStep::Load(j) if j.image_link == "![a](x.png)"));
    assert!(matches!(
        after_check(job(), Err(LinkCheckError::NotFound)),
        JobStep::Done(JobOutcome::Failed(EmbedError { cause: EmbedCause::Check(_), .. }))
    ));
    assert!(matches!(
        after_load(job(), Err("gone".to_string())),
        JobOutcome::Failed(EmbedError { cause: EmbedCause::Load(s), .. }) if s == "gone"
    ));
    assert!(matches!(
        after_load(job(), Ok(b"text".to_vec())),
        JobOutcome::Failed(EmbedError { cause: EmbedCause::UnknownFormat, .. })
    ));
    for (buf, base64) in [
        (vec![66, 77], "Qk0="),
        (vec![66, 77, 255], "Qk3/"),
        (vec![66, 77, 0, 251], "Qk0A+w=="),
    ] {
        match after_load(job(), Ok(buf)) {
            JobOutcome::Ready(link, image) => {
                assert_eq!(link, "![a](x.png)");
                assert_eq!(image.base64, base64);
                assert_eq!(image.format, ImageFormat::Bmp);
            }
            _ => panic!("the image is known"),
        }
    }
    assert_eq!(load_image("http://a/", 200), Ok(()));
    assert_eq!(load_image("http://a/", 404), Err("failed request url: http://a/".to_string()));
}

fn failed(cause: EmbedCause) -> JobOutcome {
    JobOutcome::Failed(EmbedError { link: job().link, cause })
}

#[test]
fn embedding_puts_outcomes_together() {
    let checker = checker(LinkType::All);
    let text = "![a](x.png)\n";
    let (new, errors) = checker.embed_base64(
        text,
        vec![JobOutcome::Lost, failed(EmbedCause::UnknownFormat)],
        Duration { secs: u64::MAX, nanos: 0 },
    );
    assert_eq!(new, text);
    assert_eq!(errors.len(), 1);
    let (new, errors) = checker.embed_base64(
        text,
        vec![
            JobOutcome::Ready("![a](x.png)".to_string(), encoded("old", ImageFormat::Gif)),
            failed(EmbedCause::Load("gone".to_string())),
            JobOutcome::Ready("![a](x.png)".to_string(), encoded("new", ImageFormat::Png)),
            failed(EmbedCause::Check(LinkCheckError::NotFound)),
        ],
        START,
    );
    assert!(new.starts_with("![a][0_x.png]\n\n\n<!-- auto"));
    assert!(new.ends_with("[0_x.png]:data:image/png;base64,new\n"));
    assert_eq!(errors.len(), 2);
    assert_eq!(
        error_report("\"d/a.md\"", &errors),
        "found 2 errors in \"d/a.md\"\nlink: Local(d/x.png), cause: gone\nlink: Local(d/x.png), cause: The link was not found because path does not exist or url is not available\n"
    );
}

#[test]
fn problems_are_reported() {
    let infos = checker(LinkType::Local).check(&UnixPath::new("a.md"), DATA);
    let outcomes = [
        None,
        Some(Err(LinkCheckError::UnsupportedExtension("jpg".to_string()))),
        Some(Ok(())),
    ];
    let done = conclude(infos.into_iter().zip(outcomes).collect());
    assert_eq!(done.len(), 2);
    assert_eq!(problem_count(&done), 1);
    assert_eq!(
        problem_report("/d/a.md", &done),
        "`/d/a.md` has 1 problems:\nrow: 8, link: Local(test/test.png), error: unsupported image extension: jpg, line: ![test image](test/test.png)\n"
    );
}
