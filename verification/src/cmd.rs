//! The command line: its arguments, and what is decided from them.
use vstd::prelude::*;
use vstd::hash_set::StringHashSet;
use crate::link::LinkType;
use crate::path;
use crate::path::UnixPath;
use crate::text;
use crate::tree::Input;
use crate::tree::Item;
use crate::tree::Listing;

verus! {

/// A span of time.
#[derive(Debug, Clone, Copy, PartialEq, Eq, Structural)]
pub struct Duration {
    pub secs: u64,
    /// Less than a thousand million.
    pub nanos: u32,
}

/// How links are checked.
#[derive(Debug, Clone, Copy)]
pub struct CheckerArgs {
    /// How long to wait for a connection.
    pub connect_timeout: Duration,
    /// Which links are looked at.
    pub image_link_type: LinkType,
}

/// Why a text is not a number of seconds.
#[derive(Debug, Clone, Copy, PartialEq, Eq, Structural)]
pub enum ParseSecsError {
    Empty,
    InvalidDigit,
    PosOverflow,
}

impl ParseSecsError {
    /// The message of the error.
    pub open spec fn message(self) -> Seq<char> {
        match self {
            ParseSecsError::Empty => "cannot parse integer from empty string"@,
            ParseSecsError::InvalidDigit => "invalid digit found in string"@,
            ParseSecsError::PosOverflow => "number too large to fit in target type"@,
        }
    }

    /// The message of the error.
    pub fn to_str(self) -> (res: &'static str)
        ensures
            res@ == self.message(),
    {
        match self {
            ParseSecsError::Empty => "cannot parse integer from empty string",
            ParseSecsError::InvalidDigit => "invalid digit found in string",
            ParseSecsError::PosOverflow => "number too large to fit in target type",
        }
    }
}

/// The number that decimal digits stand for, read from left to right up to the first byte that
/// is no digit or makes the number too large.
pub open spec fn read_digits(d: Seq<u8>) -> Result<nat, ParseSecsError>
    decreases d.len(),
{
    if d.len() == 0 {
        Ok(0)
    } else {
        match read_digits(d.drop_last()) {
            Err(e) => Err(e),
            Ok(n) => if !(48 <= d.last() <= 57) {
                Err(ParseSecsError::InvalidDigit)
            } else if 10 * n + (d.last() - 48) > u64::MAX {
                Err(ParseSecsError::PosOverflow)
            } else {
                Ok((10 * n + (d.last() - 48)) as nat)
            },
        }
    }
}

/// The number of seconds that a text stands for: decimal digits, with or without a `+` in front.
pub open spec fn read_secs(b: Seq<u8>) -> Result<nat, ParseSecsError> {
    if b.len() == 0 {
        Err(ParseSecsError::Empty)
    } else if b.len() > 1 && b[0] == 43 {
        read_digits(b.skip(1))
    } else {
        read_digits(b)
    }
}

/// A failure to read the first digits is a failure to read all.
proof fn lemma_read_failed(d: Seq<u8>, n: int)
    requires
        0 <= n <= d.len(),
        read_digits(d.take(n)) is Err,
    ensures
        read_digits(d) == read_digits(d.take(n)),
    decreases d.len() - n,
{
    if n < d.len() {
        assert(d.take(n + 1).drop_last() =~= d.take(n));
        lemma_read_failed(d, n + 1);
    } else {
        assert(d.take(n) =~= d);
    }
}

/// Reads a span of time given in seconds.
pub fn parse_duration_secs(s: &str) -> (res: Result<Duration, ParseSecsError>)
    ensures
        match res {
            Ok(d) => read_secs(text::utf8(s@)) == Ok::<nat, ParseSecsError>(d.secs as nat) && d.nanos
                == 0,
            Err(e) => read_secs(text::utf8(s@)) == Err::<nat, ParseSecsError>(e),
        },
{
    let b = s.as_bytes();
    if b.len() == 0 {
        return Err(ParseSecsError::Empty);
    }
    let from: usize = if b.len() > 1 && b[0] == 43 {
        1
    } else {
        0
    };
    let ghost d = b@.skip(from as int);
    let mut secs: u64 = 0;
    let mut i: usize = from;
    proof {
        assert(d.take(0) =~= seq![]);
        if from == 0 {
            assert(d =~= b@);
        }
    }
    while i < b.len()
        invariant
            b@ == text::utf8(s@),
            from <= i <= b.len(),
            d == b@.skip(from as int),
            read_secs(b@) == read_digits(d),
            read_digits(d.take(i - from)) == Ok::<nat, ParseSecsError>(secs as nat),
        decreases b.len() - i,
    {
        let digit: u8 = b[i];
        let ghost next = d.take(i - from + 1);
        proof {
            assert(next.drop_last() =~= d.take(i - from));
            assert(next.last() == digit);
        }
        if !(48 <= digit && digit <= 57) {
            proof {
                lemma_read_failed(d, i - from + 1);
            }
            return Err(ParseSecsError::InvalidDigit);
        }
        let units: u64 = (digit - 48) as u64;
        if secs > (u64::MAX - units) / 10 {
            proof {
                lemma_read_failed(d, i - from + 1);
            }
            return Err(ParseSecsError::PosOverflow);
        }
        secs = 10 * secs + units;
        i += 1;
    }
    assert(d.take(i - from) =~= d);
    Ok(Duration { secs, nanos: 0 })
}

/// A number of seconds that is written out is read back.
pub proof fn lemma_secs_read_back(n: u64)
    ensures
        read_secs(text::utf8(text::decimal(n as nat))) == Ok::<nat, ParseSecsError>(n as nat),
{
    lemma_digits_read_back(n as nat);
    text::lemma_decimal_digits(n as nat);
    let s = text::decimal(n as nat);
    assert(vstd::utf8::is_ascii_chars(s)) by {
        assert forall|i: int| 0 <= i < s.len() implies '\0' <= #[trigger] s[i] <= '\u{7f}' by {}
    }
    vstd::utf8::is_ascii_chars_encode_utf8(s);
    assert(text::utf8(s)[0] == s[0] as u8);
}

proof fn lemma_digits_read_back(n: nat)
    requires
        n <= u64::MAX,
    ensures
        read_digits(text::utf8(text::decimal(n))) == Ok::<nat, ParseSecsError>(n),
    decreases n,
{
    let s = text::decimal(n);
    let d = text::utf8(s);
    text::lemma_decimal_digits(n);
    assert(vstd::utf8::is_ascii_chars(s)) by {
        assert forall|i: int| 0 <= i < s.len() implies '\0' <= #[trigger] s[i] <= '\u{7f}' by {}
    }
    vstd::utf8::is_ascii_chars_encode_utf8(s);
    assert(d.last() == s.last() as u8);
    assert(s.last() == text::digit(n % 10));
    assert(d.last() == 48 + n % 10);
    if n < 10 {
        assert(d.drop_last() =~= seq![]);
        assert(read_digits(d.drop_last()) == Ok::<nat, ParseSecsError>(0));
    } else {
        lemma_digits_read_back(n / 10);
        text::lemma_utf8_concat(text::decimal(n / 10), seq![text::digit(n % 10)]);
        assert(s =~= text::decimal(n / 10) + seq![text::digit(n % 10)]);
        let last = text::utf8(seq![text::digit(n % 10)]);
        assert(last.len() == 1) by {
            let one = seq![text::digit(n % 10)];
            assert(vstd::utf8::is_ascii_chars(one));
            vstd::utf8::is_ascii_chars_encode_utf8(one);
        }
        assert(d.drop_last() =~= text::utf8(text::decimal(n / 10)));
    }
}

/// The extensions that Markdown files have.
pub struct Extensions {
    set: StringHashSet,
}

impl View for Extensions {
    type V = Set<Seq<char>>;

    closed spec fn view(&self) -> Set<Seq<char>> {
        self.set@
    }
}

impl Extensions {
    /// No extension.
    pub fn new() -> (res: Extensions)
        ensures
            res@ == Set::<Seq<char>>::empty(),
    {
        Extensions { set: StringHashSet::new() }
    }

    /// Adds an extension.
    pub fn insert(&mut self, extension: String)
        ensures
            final(self)@ == old(self)@.insert(extension@),
    {
        self.set.insert(extension);
    }

    /// Whether an extension is among them.
    pub fn contains(&self, extension: &str) -> (res: bool)
        ensures
            res == self@.contains(extension@),
    {
        self.set.contains(extension)
    }

    /// How many there are.
    pub fn len(&self) -> (res: usize)
        ensures
            res == self@.len(),
    {
        self.set.len()
    }
}

/// The parts of a text between commas.
pub open spec fn comma_parts(s: Seq<char>) -> Seq<Seq<char>>
    decreases s.len(),
{
    if s.len() == 0 {
        seq![seq![]]
    } else {
        let front = comma_parts(s.drop_last());
        if s.last() == ',' {
            front.push(seq![])
        } else {
            front.drop_last().push(front.last().push(s.last()))
        }
    }
}

/// The words of a text between commas, without the white space around them.
pub open spec fn words(parts: Seq<Seq<char>>) -> Set<Seq<char>> {
    parts.map_values(|w: Seq<char>| text::trim(w)).to_set()
}

proof fn lemma_words_push(parts: Seq<Seq<char>>, w: Seq<char>)
    ensures
        words(parts.push(w)) == words(parts).insert(text::trim(w)),
{
    let f = |w: Seq<char>| text::trim(w);
    let a = parts.map_values(f);
    assert(parts.push(w).map_values(f) =~= a.push(text::trim(w)));
    assert(a.push(text::trim(w)).to_set() =~= a.to_set().insert(text::trim(w))) by {
        assert forall|x: Seq<char>| a.to_set().insert(text::trim(w)).contains(x) implies a.push(
            text::trim(w),
        ).to_set().contains(x) by {
            if x == text::trim(w) {
                assert(a.push(x)[a.len() as int] == x);
            } else {
                let i = choose|i: int| 0 <= i < a.len() && a[i] == x;
                assert(a.push(text::trim(w))[i] == x);
            }
        }
    }
}

/// Reads a list of extensions that are separated by commas.
pub fn parse_extensions(s: &str) -> (res: Extensions)
    ensures
        res@ == words(comma_parts(s@)),
{
    let chars = text::to_chars(s);
    let mut extensions = Extensions::new();
    let mut start: usize = 0;
    let mut i: usize = 0;
    proof {
        assert(s@.take(0) =~= seq![]);
        let parts = comma_parts(s@.take(0));
        assert(parts.drop_last() =~= seq![]);
        assert(words(parts.drop_last()) =~= Set::empty());
        assert(s@.subrange(0, 0) =~= seq![]);
    }
    while i < chars.len()
        invariant
            chars@ == s@,
            start <= i <= s@.len(),
            ({
                let parts = comma_parts(s@.take(i as int));
                &&& parts.len() > 0
                &&& parts.last() == s@.subrange(start as int, i as int)
                &&& extensions@ == words(parts.drop_last())
            }),
        decreases s@.len() - i,
    {
        let ghost parts = comma_parts(s@.take(i as int));
        let ghost next = comma_parts(s@.take(i + 1));
        proof {
            assert(s@.take(i + 1).drop_last() =~= s@.take(i as int));
            assert(s@.take(i + 1).last() == s@[i as int]);
        }
        if chars[i] == ',' {
            extensions.insert(text::trimmed_part(s, &chars, start, i));
            proof {
                lemma_words_push(parts.drop_last(), parts.last());
                assert(parts.drop_last().push(parts.last()) =~= parts);
                assert(next.drop_last() =~= parts);
                assert(s@.subrange(i + 1, i + 1) =~= seq![]);
            }
            start = i + 1;
        } else {
            proof {
                assert(next.drop_last() =~= parts.drop_last());
                assert(s@.subrange(start as int, i + 1) =~= s@.subrange(
                    start as int,
                    i as int,
                ).push(s@[i as int]));
            }
        }
        i += 1;
    }
    extensions.insert(text::trimmed_part(s, &chars, start, i));
    proof {
        assert(s@.take(i as int) =~= s@);
        let parts = comma_parts(s@);
        lemma_words_push(parts.drop_last(), parts.last());
        assert(parts.drop_last().push(parts.last()) =~= parts);
    }
    extensions
}

/// What all commands that read documents are told.
pub struct Common {
    /// How much is to be logged.
    pub verbose: u8,
    /// Where the documents are.
    pub input: UnixPath,
    /// The extensions of the documents.
    pub extensions: Extensions,
    /// Whether folders below the input folder are searched too.
    pub recursive: bool,
}

/// Whether a path has one of the extensions.
pub open spec fn has_extension(extensions: Set<Seq<char>>, p: Seq<u8>) -> bool {
    match path::extension(p) {
        Some(e) => text::is_utf8(e) && extensions.contains(text::chars_of(e)),
        None => false,
    }
}

/// Why there is no document to read.
#[derive(Debug)]
pub enum InputError {
    /// The input path is not UTF-8.
    NotText,
    /// The input path leads nowhere.
    Missing,
    /// The input is a file, which cannot be searched.
    RecursiveFile,
    /// The input is a file without one of the extensions.
    NotMarkdown,
    /// The file system failed, with this message.
    Io(String),
}

/// The content of an `InputError`.
pub ghost enum InputFault {
    NotText,
    Missing,
    RecursiveFile,
    NotMarkdown,
    Io(Seq<char>),
}

impl View for InputError {
    type V = InputFault;

    open spec fn view(&self) -> InputFault {
        match self {
            InputError::NotText => InputFault::NotText,
            InputError::Missing => InputFault::Missing,
            InputError::RecursiveFile => InputFault::RecursiveFile,
            InputError::NotMarkdown => InputFault::NotMarkdown,
            InputError::Io(s) => InputFault::Io(s@),
        }
    }
}

/// What a search came to: the documents found, and the message of the error that ended it, if
/// one did.
pub ghost struct Found {
    pub paths: Seq<Seq<u8>>,
    pub error: Option<Seq<char>>,
}

/// The search of a folder and of the folders below it. It ends at the first error.
pub open spec fn found_below(extensions: Set<Seq<char>>, listing: Listing) -> Found
    decreases listing, 0nat,
{
    match listing {
        Listing::Unreadable(e) => Found { paths: seq![], error: Some(e@) },
        Listing::Items(items) => found_among(extensions, items@, items@.len()),
    }
}

/// The search of the first `n` items and of what is below them. It ends at the first error.
pub open spec fn found_among(extensions: Set<Seq<char>>, items: Seq<Item>, n: nat) -> Found
    decreases items, n,
{
    if n == 0 || n > items.len() {
        Found { paths: seq![], error: None }
    } else {
        let front = found_among(extensions, items, (n - 1) as nat);
        if front.error is Some {
            front
        } else {
            match items[n - 1] {
                Item::Broken(e) => Found { error: Some(e@), ..front },
                Item::Folder(listing) => {
                    let inner = found_below(extensions, listing);
                    Found { paths: front.paths + inner.paths, error: inner.error }
                },
                Item::File(p, canonical) => if !has_extension(extensions, p@) {
                    front
                } else {
                    match canonical {
                        Ok(c) => Found { paths: front.paths.push(c@), ..front },
                        Err(e) => Found { error: Some(e@), ..front },
                    }
                },
                Item::Other => front,
            }
        }
    }
}

/// The bytes of paths.
pub open spec fn paths_view(v: Seq<UnixPath>) -> Seq<Seq<u8>> {
    v.map_values(|p: UnixPath| p@)
}

/// An error among the first items ends the search.
proof fn lemma_found_failed(extensions: Set<Seq<char>>, items: Seq<Item>, n: nat, m: nat)
    requires
        n <= m <= items.len(),
        found_among(extensions, items, n).error is Some,
    ensures
        found_among(extensions, items, m) == found_among(extensions, items, n),
    decreases m,
{
    if n < m {
        lemma_found_failed(extensions, items, n, (m - 1) as nat);
    }
}

/// The documents among the first `n` items of a folder, by their canonical paths.
pub open spec fn found_directly(extensions: Set<Seq<char>>, items: Seq<Item>, n: nat) -> Seq<
    Seq<u8>,
>
    decreases n,
{
    if n == 0 || n > items.len() {
        seq![]
    } else {
        let front = found_directly(extensions, items, (n - 1) as nat);
        match items[n - 1] {
            Item::File(p, Ok(c)) => if has_extension(extensions, p@) {
                front.push(c@)
            } else {
                front
            },
            _ => front,
        }
    }
}

/// Whether the canonical path of every document among the items of a folder is known.
pub open spec fn is_resolved(extensions: Set<Seq<char>>, listing: Listing) -> bool {
    match listing {
        Listing::Unreadable(_) => true,
        Listing::Items(items) => forall|k: int|
            0 <= k < items@.len() ==> ((#[trigger] items@[k]) matches Item::File(p, canonical) ==> (
            has_extension(extensions, p@) ==> canonical is Ok)),
    }
}

/// Whether the canonical path of every document directly in the input folder is known.
pub open spec fn is_input_resolved(extensions: Set<Seq<char>>, input: Input) -> bool {
    match input {
        Input::Folder(listing) => is_resolved(extensions, listing),
        Input::Other(listing) => is_resolved(extensions, listing),
        _ => true,
    }
}

/// The documents to read.
pub open spec fn loaded(
    extensions: Set<Seq<char>>,
    recursive: bool,
    path: Seq<u8>,
    input: Input,
) -> Result<Seq<Seq<u8>>, InputFault> {
    if !text::is_utf8(path) {
        Err(InputFault::NotText)
    } else {
        match input {
            Input::Missing => Err(InputFault::Missing),
            Input::File => if recursive {
                Err(InputFault::RecursiveFile)
            } else if has_extension(extensions, path) {
                Ok(seq![path])
            } else {
                Err(InputFault::NotMarkdown)
            },
            Input::Folder(listing) => if recursive {
                let found = found_below(extensions, listing);
                match found.error {
                    None => Ok(found.paths),
                    Some(e) => Err(InputFault::Io(e)),
                }
            } else {
                loaded_directly(extensions, listing)
            },
            Input::Other(listing) => if recursive {
                Ok(seq![])
            } else {
                loaded_directly(extensions, listing)
            },
        }
    }
}

/// The documents of one folder.
pub open spec fn loaded_directly(extensions: Set<Seq<char>>, listing: Listing) -> Result<
    Seq<Seq<u8>>,
    InputFault,
> {
    match listing {
        Listing::Unreadable(e) => Err(InputFault::Io(e@)),
        Listing::Items(items) => Ok(found_directly(extensions, items@, items@.len())),
    }
}

impl Common {
    /// Whether a path is that of a document, given whether it is that of a file.
    pub fn is_markdown_file(&self, path: &UnixPath, is_file: bool) -> (res: bool)
        ensures
            res == (is_file && has_extension(self.extensions@, path@)),
    {
        if !is_file {
            return false;
        }
        if let Some(bytes) = path.extension() {
            if let Some(e) = text::utf8_str(bytes) {
                proof {
                    text::lemma_utf8_text(e@);
                }
                return self.extensions.contains(e);
            }
        }
        false
    }

    /// Adds the documents in a folder and in the folders below it, by their canonical paths, up
    /// to the first error.
    pub fn visite_recursive(&self, listing: &Listing, paths: &mut Vec<UnixPath>) -> (res: Result<
        (),
        String,
    >)
        ensures
            paths_view(final(paths)@) == paths_view(old(paths)@) + found_below(
                self.extensions@,
                *listing,
            ).paths,
            match found_below(self.extensions@, *listing).error {
                None => res is Ok,
                Some(e) => res matches Err(s) && s@ == e,
            },
        decreases listing,
    {
        let items = match listing {
            Listing::Unreadable(e) => {
                assert(paths_view(paths@) + Seq::<Seq<u8>>::empty() =~= paths_view(paths@));
                return Err(e.clone());
            },
            Listing::Items(items) => items,
        };
        let ghost ext = self.extensions@;
        let ghost had = paths_view(paths@);
        let mut k: usize = 0;
        assert(had + Seq::<Seq<u8>>::empty() =~= had);
        while k < items.len()
            invariant
                *listing == Listing::Items(*items),
                ext == self.extensions@,
                had == paths_view(old(paths)@),
                k <= items.len(),
                found_among(ext, items@, k as nat).error is None,
                paths_view(paths@) == had + found_among(ext, items@, k as nat).paths,
            decreases items.len() - k,
        {
            let ghost front = found_among(ext, items@, k as nat).paths;
            let ghost total = items@.len();
            match &items[k] {
                Item::Broken(e) => {
                    proof {
                        lemma_found_failed(ext, items@, (k + 1) as nat, total);
                    }
                    return Err(e.clone());
                },
                Item::Folder(inner) => {
                    let visited = self.visite_recursive(inner, paths);
                    proof {
                        let found = found_below(ext, *inner).paths;
                        assert(had + (front + found) =~= (had + front) + found);
                    }
                    if let Err(e) = visited {
                        proof {
                            lemma_found_failed(ext, items@, (k + 1) as nat, total);
                        }
                        return Err(e);
                    }
                },
                Item::File(p, canonical) => {
                    if self.is_markdown_file(p, true) {
                        match canonical {
                            Ok(c) => {
                                let ghost before = paths@;
                                paths.push(c.clone());
                                proof {
                                    assert(paths_view(paths@) =~= paths_view(before).push(c@));
                                    assert(had + front.push(c@) =~= (had + front).push(c@));
                                }
                            },
                            Err(e) => {
                                proof {
                                    lemma_found_failed(ext, items@, (k + 1) as nat, total);
                                }
                                return Err(e.clone());
                            },
                        }
                    }
                },
                Item::Other => {},
            }
            k += 1;
        }
        Ok(())
    }

    /// The documents of one folder, by their canonical paths.
    fn load_directly(&self, listing: &Listing) -> (res: Result<Vec<UnixPath>, InputError>)
        requires
            is_resolved(self.extensions@, *listing),
        ensures
            match res {
                Ok(v) => loaded_directly(self.extensions@, *listing) == Ok::<
                    Seq<Seq<u8>>,
                    InputFault,
                >(paths_view(v@)),
                Err(e) => loaded_directly(self.extensions@, *listing) == Err::<
                    Seq<Seq<u8>>,
                    InputFault,
                >(e@),
            },
    {
        let items = match listing {
            Listing::Unreadable(e) => {
                return Err(InputError::Io(e.clone()));
            },
            Listing::Items(items) => items,
        };
        let ghost ext = self.extensions@;
        let mut paths: Vec<UnixPath> = Vec::new();
        let mut k: usize = 0;
        while k < items.len()
            invariant
                *listing == Listing::Items(*items),
                ext == self.extensions@,
                is_resolved(ext, *listing),
                k <= items.len(),
                paths_view(paths@) =~= found_directly(ext, items@, k as nat),
            decreases items.len() - k,
        {
            if let Item::File(p, canonical) = &items[k] {
                if self.is_markdown_file(p, true) {
                    assert(items@[k as int] == Item::File(*p, *canonical));
                    if let Ok(c) = canonical {
                        let ghost before = paths@;
                        paths.push(c.clone());
                        assert(paths_view(paths@) =~= paths_view(before).push(c@));
                    }
                }
            }
            k += 1;
        }
        Ok(paths)
    }

    /// The documents to read, given the canonical path of the input and what it leads to. A file
    /// is read itself; of a folder, the files with one of the extensions are.
    pub fn load_input_paths(&self, path: &UnixPath, input: &Input) -> (res: Result<
        Vec<UnixPath>,
        InputError,
    >)
        requires
            text::is_utf8(path@) && !self.recursive ==> is_input_resolved(
                self.extensions@,
                *input,
            ),
        ensures
            match res {
                Ok(v) => loaded(self.extensions@, self.recursive, path@, *input) == Ok::<
                    Seq<Seq<u8>>,
                    InputFault,
                >(paths_view(v@)),
                Err(e) => loaded(self.extensions@, self.recursive, path@, *input) == Err::<
                    Seq<Seq<u8>>,
                    InputFault,
                >(e@),
            },
    {
        if path.to_str().is_none() {
            return Err(InputError::NotText);
        }
        match input {
            Input::Missing => Err(InputError::Missing),
            Input::File => {
                if self.recursive {
                    return Err(InputError::RecursiveFile);
                }
                if !self.is_markdown_file(path, true) {
                    return Err(InputError::NotMarkdown);
                }
                let mut paths: Vec<UnixPath> = Vec::new();
                paths.push(path.clone());
                assert(paths_view(paths@) =~= seq![path@]);
                Ok(paths)
            },
            Input::Folder(listing) => {
                if !self.recursive {
                    return self.load_directly(listing);
                }
                let mut paths: Vec<UnixPath> = Vec::new();
                match self.visite_recursive(listing, &mut paths) {
                    Ok(_) => {
                        proof {
                            let found = found_below(self.extensions@, *listing).paths;
                            assert(paths_view(paths@) =~= found);
                        }
                        Ok(paths)
                    },
                    Err(e) => Err(InputError::Io(e)),
                }
            },
            Input::Other(listing) => {
                if !self.recursive {
                    return self.load_directly(listing);
                }
                let paths: Vec<UnixPath> = Vec::new();
                assert(paths_view(paths@) =~= seq![]);
                Ok(paths)
            },
        }
    }
}

/// Whether a document with this canonical path stands in a folder or in one below it.
pub open spec fn is_below(extensions: Set<Seq<char>>, listing: Listing, path: Seq<u8>) -> bool
    decreases listing, 0nat,
{
    match listing {
        Listing::Unreadable(_) => false,
        Listing::Items(items) => is_among(extensions, items@, items@.len(), path),
    }
}

/// Whether a document with this canonical path is among the first `n` items or below them.
pub open spec fn is_among(
    extensions: Set<Seq<char>>,
    items: Seq<Item>,
    n: nat,
    path: Seq<u8>,
) -> bool
    decreases items, n,
{
    if n == 0 || n > items.len() {
        false
    } else {
        ||| is_among(extensions, items, (n - 1) as nat, path)
        ||| match items[n - 1] {
            Item::File(p, Ok(c)) => has_extension(extensions, p@) && c@ == path,
            Item::Folder(listing) => is_below(extensions, listing, path),
            _ => false,
        }
    }
}

/// A search that no error ends finds the documents in the folder and in those below it, all of
/// them and nothing else.
pub proof fn lemma_search_complete(extensions: Set<Seq<char>>, listing: Listing, path: Seq<u8>)
    requires
        found_below(extensions, listing).error is None,
    ensures
        found_below(extensions, listing).paths.contains(path) == is_below(
            extensions,
            listing,
            path,
        ),
    decreases listing, 0nat,
{
    if let Listing::Items(items) = listing {
        lemma_items_complete(extensions, items@, items@.len(), path);
    }
}

proof fn lemma_items_complete(
    extensions: Set<Seq<char>>,
    items: Seq<Item>,
    n: nat,
    path: Seq<u8>,
)
    requires
        n <= items.len(),
        found_among(extensions, items, n).error is None,
    ensures
        found_among(extensions, items, n).paths.contains(path) == is_among(
            extensions,
            items,
            n,
            path,
        ),
    decreases items, n,
{
    if n > 0 {
        let m = (n - 1) as nat;
        lemma_items_complete(extensions, items, m, path);
        let front = found_among(extensions, items, m).paths;
        match items[n - 1] {
            Item::Folder(listing) => {
                lemma_search_complete(extensions, listing, path);
                lemma_contains_concat(front, found_below(extensions, listing).paths, path);
            },
            Item::File(p, Ok(c)) => {
                if has_extension(extensions, p@) {
                    assert(front.push(c@) =~= front + seq![c@]);
                    lemma_contains_concat(front, seq![c@], path);
                    assert(seq![c@].contains(path) == (c@ == path)) by {
                        assert(seq![c@][0] == c@);
                    }
                }
            },
            _ => {},
        }
    }
}

proof fn lemma_contains_concat(a: Seq<Seq<u8>>, b: Seq<Seq<u8>>, x: Seq<u8>)
    ensures
        (a + b).contains(x) == (a.contains(x) || b.contains(x)),
{
    if a.contains(x) {
        let i = choose|i: int| 0 <= i < a.len() && a[i] == x;
        assert((a + b)[i] == x);
    }
    if b.contains(x) {
        let i = choose|i: int| 0 <= i < b.len() && b[i] == x;
        assert((a + b)[a.len() + i] == x);
    }
    if (a + b).contains(x) {
        let i = choose|i: int| 0 <= i < (a + b).len() && (a + b)[i] == x;
        if i < a.len() {
            assert(a[i] == x);
        } else {
            assert(b[i - a.len()] == x);
        }
    }
}

/// What the replace command is told besides.
#[derive(Debug)]
pub struct ReplaceArgs {
    /// The folder for the output.
    pub output: UnixPath,
    /// Whether files in it may be overwritten.
    pub overwrite: bool,
}

/// A command.
pub enum Opt {
    /// Checks the image links of documents.
    Check { common: Common, checker_args: CheckerArgs },
    /// Embeds the images of documents.
    Replace { common: Common, checker_args: CheckerArgs, replace_args: ReplaceArgs },
    /// Prints what a shell needs to complete the command line.
    Completion,
}

impl Opt {
    /// What the command is told of documents, if it reads any.
    pub fn common(&self) -> (res: Option<&Common>)
        ensures
            match self {
                Opt::Check { common, .. } => res == Some(common),
                Opt::Replace { common, .. } => res == Some(common),
                Opt::Completion => res is None,
            },
    {
        match self {
            Opt::Check { common, .. } => Some(common),
            Opt::Replace { common, .. } => Some(common),
            Opt::Completion => None,
        }
    }
}

/// What becomes of a replace command.
#[derive(Debug, Clone, Copy, PartialEq, Eq, Structural)]
pub enum ReplacePlan {
    /// The output may not go into the input folder.
    Prohibited,
    /// No links are looked at, so there is nothing to do.
    Stop,
    Go,
}

/// Decides on a replace command, given whether its input is a folder.
pub fn plan_replace(
    common: &Common,
    checker_args: &CheckerArgs,
    replace_args: &ReplaceArgs,
    input_is_folder: bool,
) -> (res: ReplacePlan)
    ensures
        res == (if path::components(common.input@) == path::components(replace_args.output@)
            && input_is_folder {
            ReplacePlan::Prohibited
        } else if checker_args.image_link_type == LinkType::Nothing {
            ReplacePlan::Stop
        } else {
            ReplacePlan::Go
        }),
{
    if common.input.same_components(&replace_args.output) && input_is_folder {
        return ReplacePlan::Prohibited;
    }
    if checker_args.image_link_type == LinkType::Nothing {
        return ReplacePlan::Stop;
    }
    ReplacePlan::Go
}

/// How much is logged.
#[derive(Debug, Clone, Copy, PartialEq, Eq, Structural)]
pub enum LogLevel {
    Error,
    Warn,
    Info,
    Debug,
    Trace,
}

impl LogLevel {
    /// The place of the level among the levels, from the one that logs least.
    pub open spec fn rank(self) -> int {
        match self {
            LogLevel::Error => 0,
            LogLevel::Warn => 1,
            LogLevel::Info => 2,
            LogLevel::Debug => 3,
            LogLevel::Trace => 4,
        }
    }
}

/// That more is to be logged than can be.
#[derive(Debug, Clone, Copy, PartialEq, Eq, Structural)]
pub struct TooVerbose;

/// How much is logged when it is asked for so many times.
pub fn log_level(verbose: u8) -> (res: Result<LogLevel, TooVerbose>)
    ensures
        match res {
            Ok(level) => level.rank() == verbose,
            Err(_) => verbose > 4,
        },
{
    match verbose {
        0 => Ok(LogLevel::Error),
        1 => Ok(LogLevel::Warn),
        2 => Ok(LogLevel::Info),
        3 => Ok(LogLevel::Debug),
        4 => Ok(LogLevel::Trace),
        _ => Err(TooVerbose),
    }
}

} // verus!
