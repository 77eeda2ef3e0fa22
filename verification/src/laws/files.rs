//! Paths, and the documents that are found below them.
use vstd::prelude::*;
use crate::cmd;
use crate::cmd::Found;
use crate::cmd::InputFault;
use crate::output;
use crate::output::SubPathError;
use crate::path;
use crate::text;
use crate::tree::Input;
use crate::tree::Item;
use crate::tree::Listing;

verus! {

/// Names put behind the root are the components behind the root.
pub proof fn lemma_absolute_names(names: Seq<Seq<u8>>)
    requires
        names.len() > 0,
        forall|k: int| 0 <= k < names.len() ==> path::is_plain(#[trigger] names[k]),
    ensures
        path::components(seq![47u8] + path::join_names(names)) == seq![seq![47u8]] + names,
{
    let root = seq![47u8];
    let rest = path::join_names(names);
    path::lemma_join_names(names);
    path::lemma_join_components(root, rest);
    assert(path::join(root, rest) =~= root + rest);
    assert(path::components(root) =~= seq![root]) by {
        assert(path::spans_from(root, 1) =~= seq![]);
        assert(path::spans(root) =~= seq![(0int, 1int)]);
        assert(root.subrange(0, 1) =~= root);
    }
}

/// A separator at the end of a path that is more than a separator changes nothing.
pub proof fn lemma_trailing_separator(p: Seq<u8>)
    requires
        p.len() > 0,
    ensures
        path::components(p.push(47u8)) == path::components(p),
{
    path::lemma_head_components(p.push(47u8), p);
}

/// `..` is a component wherever it stands, and `.` only at the start of a path.
pub proof fn lemma_dots(p: Seq<u8>)
    requires
        p.len() > 0,
    ensures
        path::components(seq![46u8]) == seq![seq![46u8]],
        path::components(seq![46u8, 46u8]) == seq![seq![46u8, 46u8]],
        path::components(path::join(p, seq![46u8, 46u8])) == path::components(p).push(
            seq![46u8, 46u8],
        ),
        path::components(path::join(p, seq![46u8])) == path::components(p),
{
    let one = seq![46u8];
    let two = seq![46u8, 46u8];
    assert(path::spans_from(one, 1) =~= seq![]);
    assert(path::spans(one) =~= seq![(0int, 1int)]);
    assert(one.subrange(0, 1) =~= one);
    assert(path::components(one) =~= seq![one]);
    text::lemma_run_end_is(two, path::SEP, 0, 2);
    assert(two.subrange(0, 2) =~= two);
    assert(two != one) by {
        assert(two.len() != one.len());
    }
    assert(path::spans_from(two, 0) =~= seq![(0int, 2int)]);
    assert(path::spans(two) =~= seq![(0int, 2int)]);
    assert(path::components(two) =~= seq![two]);
    path::lemma_join_components(p, one);
    path::lemma_join_components(p, two);
    assert(path::relative_parts(one) =~= seq![]);
    assert(path::components(p) + Seq::<Seq<u8>>::empty() =~= path::components(p));
    assert(path::components(p) + seq![two] =~= path::components(p).push(two));
}

/// A file name is the last component of its path, and neither the root nor `.` nor `..`.
pub proof fn lemma_file_name_only(p: Seq<u8>)
    ensures
        path::file_name(p) is Some <==> path::components(p).len() > 0 && path::components(p).last()
            != seq![47u8] && path::components(p).last() != seq![46u8] && path::components(p).last()
            != seq![46u8, 46u8],
        path::file_name(p) is Some ==> path::file_name(p)->0 == path::components(p).last(),
{
}

/// An absolute path stands alone, and so does one that is put behind nothing.
pub proof fn lemma_join_alone(p: Seq<u8>, q: Seq<u8>)
    requires
        p.len() == 0 || q.len() > 0 && q[0] == 47,
    ensures
        path::join(p, q) == q,
{
    if p.len() == 0 {
        assert(p + q =~= q);
    }
}

/// A relative path is put behind another with one separator between them.
pub proof fn lemma_join_behind(p: Seq<u8>, q: Seq<u8>)
    requires
        p.len() > 0,
        q.len() == 0 || q[0] != 47,
    ensures
        p.last() == 47 ==> path::join(p, q) == p + q,
        p.last() != 47 ==> path::join(p, q) == p + seq![47u8] + q,
{
    assert(p.push(47u8) =~= p + seq![47u8]);
}

/// A path has a parent unless it is empty or the root. The parent starts the path, and has all of
/// its components but the last.
pub proof fn lemma_parent(p: Seq<u8>)
    ensures
        path::parent(p) is Some <==> path::components(p).len() > 0 && path::components(p).last()
            != seq![47u8],
        path::parent(p) is Some ==> path::parent(p)->0.is_prefix_of(p) && path::components(
            path::parent(p)->0,
        ) == path::components(p).drop_last(),
{
    if path::parent(p) is Some {
        let q = path::parent(p)->0;
        path::lemma_parent_components(p, q);
        let n = path::spans(p).len();
        if n > 1 {
            path::lemma_spans_in_range(p, n - 2);
        }
        assert(q =~= p.take(q.len() as int));
    }
}

proof fn lemma_name_alone(name: Seq<u8>)
    requires
        path::is_plain(name),
    ensures
        path::components(name) == seq![name],
        !path::is_absolute(name),
        path::relative_parts(name) == seq![name],
{
    let names = seq![name];
    path::lemma_join_names(names);
    assert(path::join_names(names) == name);
}

/// The file name of a file in a folder is its name.
pub proof fn lemma_file_name(folder: Seq<u8>, name: Seq<u8>)
    requires
        path::is_plain(name),
    ensures
        path::components(path::join(folder, name)) == path::components(folder).push(name),
        path::file_name(path::join(folder, name)) == Some(name),
{
    lemma_name_alone(name);
    let w = path::join(folder, name);
    if folder.len() == 0 {
        assert(w =~= name);
        assert(path::components(folder) =~= seq![]);
    } else {
        path::lemma_join_components(folder, name);
    }
    assert(path::components(folder) + seq![name] =~= path::components(folder).push(name));
    assert(path::components(w).last() == name);
}

proof fn lemma_last_dot(stem: Seq<u8>, ext: Seq<u8>)
    requires
        forall|k: int| 0 <= k < ext.len() ==> ext[k] != 46,
    ensures
        path::last_index(stem.push(46u8) + ext, 46u8) == stem.len(),
    decreases ext.len(),
{
    let name = stem.push(46u8) + ext;
    if ext.len() > 0 {
        lemma_last_dot(stem, ext.drop_last());
        assert(name.drop_last() =~= stem.push(46u8) + ext.drop_last());
        assert(name.last() == ext.last());
    } else {
        assert(name.last() == 46);
    }
}

proof fn lemma_no_dot(name: Seq<u8>)
    requires
        forall|k: int| 0 <= k < name.len() ==> name[k] != 46,
    ensures
        path::last_index(name, 46u8) == -1,
    decreases name.len(),
{
    if name.len() > 0 {
        lemma_no_dot(name.drop_last());
    }
}

/// The extension of a path is what follows the last `.` of its last component, whatever stands in
/// front of it.
pub proof fn lemma_extension(p: Seq<u8>, stem: Seq<u8>, ext: Seq<u8>)
    requires
        path::components(p).len() > 0,
        path::components(p).last() == stem.push(46u8) + ext,
        stem.len() > 0,
        path::is_plain(stem.push(46u8) + ext),
        forall|k: int| 0 <= k < ext.len() ==> ext[k] != 46,
    ensures
        path::extension(p) == Some(ext),
{
    let name = stem.push(46u8) + ext;
    lemma_last_dot(stem, ext);
    assert(name.skip(stem.len() as int + 1) =~= ext);
}

/// A path has no extension without a `.` in its last component, or with one at its start only.
pub proof fn lemma_no_extension(p: Seq<u8>, name: Seq<u8>)
    requires
        path::components(p).len() > 0,
        path::components(p).last() == name,
        path::is_plain(name),
        forall|k: int| 0 < k < name.len() ==> name[k] != 46,
    ensures
        path::extension(p) is None,
{
    if name[0] == 46 {
        lemma_last_dot(seq![], name.drop_first());
        assert(Seq::<u8>::empty().push(46u8) + name.drop_first() =~= name);
    } else {
        lemma_no_dot(name);
    }
}

/// A file is a document exactly if the text behind the last `.` of its name is one of the
/// extensions, however long it is.
pub proof fn lemma_document(
    extensions: Set<Seq<char>>,
    p: Seq<u8>,
    stem: Seq<u8>,
    ext: Seq<char>,
)
    requires
        path::components(p).len() > 0,
        path::components(p).last() == stem.push(46u8) + text::utf8(ext),
        stem.len() > 0,
        path::is_plain(stem.push(46u8) + text::utf8(ext)),
        forall|k: int| 0 <= k < text::utf8(ext).len() ==> text::utf8(ext)[k] != 46,
    ensures
        cmd::has_extension(extensions, p) == extensions.contains(ext),
{
    lemma_extension(p, stem, text::utf8(ext));
    text::lemma_utf8_text(ext);
}

/// Whether an item of a folder is a document whose canonical path is known.
pub open spec fn is_document(extensions: Set<Seq<char>>, item: Item) -> bool {
    match item {
        Item::File(p, Ok(_)) => match path::extension(p@) {
            Some(e) => exists|x: Seq<char>|
                #[trigger] extensions.contains(x) && text::utf8(x) == e,
            None => false,
        },
        _ => false,
    }
}

proof fn lemma_has_extension(extensions: Set<Seq<char>>, p: Seq<u8>)
    ensures
        cmd::has_extension(extensions, p) == (path::extension(p) matches Some(e) && exists|
            x: Seq<char>,
        | #[trigger]
            extensions.contains(x) && text::utf8(x) == e),
{
    if let Some(e) = path::extension(p) {
        if cmd::has_extension(extensions, p) {
            vstd::utf8::decode_utf8_encode_utf8(e);
            assert(extensions.contains(text::chars_of(e)));
        }
        if exists|x: Seq<char>| #[trigger] extensions.contains(x) && text::utf8(x) == e {
            let x = choose|x: Seq<char>| #[trigger] extensions.contains(x) && text::utf8(x) == e;
            text::lemma_utf8_text(x);
        }
    }
}

/// The canonical path of a document.
pub open spec fn canonical(item: Item) -> Seq<u8> {
    item->File_1->Ok_0@
}

proof fn lemma_directly_up_to(extensions: Set<Seq<char>>, items: Seq<Item>, n: nat)
    requires
        n <= items.len(),
    ensures
        cmd::found_directly(extensions, items, n) == items.take(n as int).filter(
            |item: Item| is_document(extensions, item),
        ).map_values(|item: Item| canonical(item)),
    decreases n,
{
    reveal(Seq::filter);
    let chosen = |item: Item| is_document(extensions, item);
    let f = |item: Item| canonical(item);
    if n > 0 {
        let m = (n - 1) as nat;
        lemma_directly_up_to(extensions, items, m);
        assert(items.take(n as int).drop_last() =~= items.take(m as int));
        let here = items[n - 1];
        if let Item::File(p, _) = here {
            lemma_has_extension(extensions, p@);
        }
        if is_document(extensions, here) {
            let front = items.take(m as int).filter(chosen);
            assert(front.push(here).map_values(f) =~= front.map_values(f).push(canonical(here)));
        }
    } else {
        assert(items.take(0).filter(chosen).map_values(f) =~= seq![]);
    }
}

/// Where folders below are not searched, the documents of a folder are the files directly in it
/// that have one of the extensions, all of them, in their order, by their canonical paths.
pub proof fn lemma_directly(
    extensions: Set<Seq<char>>,
    path: Seq<u8>,
    input: Input,
    items: Vec<Item>,
)
    requires
        text::is_utf8(path),
        input == Input::Folder(Listing::Items(items)) || input == Input::Other(
            Listing::Items(items),
        ),
    ensures
        cmd::loaded(extensions, false, path, input) == Ok::<Seq<Seq<u8>>, InputFault>(
            items@.filter(|item: Item| is_document(extensions, item)).map_values(
                |item: Item| canonical(item),
            ),
        ),
{
    lemma_directly_up_to(extensions, items@, items@.len());
    assert(items@.take(items@.len() as int) =~= items@);
}

/// A path is among the documents of a folder if and only if it is the canonical path of a file
/// directly in it that has one of the extensions.
pub proof fn lemma_directly_contains(
    extensions: Set<Seq<char>>,
    items: Seq<Item>,
    path: Seq<u8>,
)
    ensures
        cmd::found_directly(extensions, items, items.len()).contains(path) <==> exists|k: int|
            0 <= k < items.len() && is_document(extensions, #[trigger] items[k]) && canonical(
                items[k],
            ) == path,
{
    let chosen = |item: Item| is_document(extensions, item);
    let f = |item: Item| canonical(item);
    lemma_directly_up_to(extensions, items, items.len());
    assert(items.take(items.len() as int) =~= items);
    let kept = items.filter(chosen);
    let found = kept.map_values(f);
    if found.contains(path) {
        let i = choose|i: int| 0 <= i < found.len() && found[i] == path;
        items.lemma_filter_pred(chosen, i);
        assert(kept.contains(kept[i]));
        items.lemma_filter_contains_rev(chosen, kept[i]);
        let k = choose|k: int| 0 <= k < items.len() && items[k] == kept[i];
        assert(is_document(extensions, items[k]) && canonical(items[k]) == path);
    }
    if exists|k: int|
        0 <= k < items.len() && is_document(extensions, #[trigger] items[k]) && canonical(items[k])
            == path {
        let k = choose|k: int|
            0 <= k < items.len() && is_document(extensions, #[trigger] items[k]) && canonical(
                items[k],
            ) == path;
        items.lemma_filter_contains(chosen, k);
        let i = choose|i: int| 0 <= i < kept.len() && kept[i] == items[k];
        assert(found[i] == path);
    }
}

/// What two searches come to, the second made only if no error ended the first.
pub open spec fn then_found(first: Found, second: Found) -> Found {
    if first.error is Some {
        first
    } else {
        Found { paths: first.paths + second.paths, error: second.error }
    }
}

proof fn lemma_among_front(extensions: Set<Seq<char>>, a: Seq<Item>, b: Seq<Item>, n: nat)
    requires
        n <= a.len(),
    ensures
        cmd::found_among(extensions, a + b, n) == cmd::found_among(extensions, a, n),
    decreases n,
{
    if n > 0 {
        lemma_among_front(extensions, a, b, (n - 1) as nat);
        assert((a + b)[n - 1] == a[n - 1]);
    }
}

proof fn lemma_among_back(extensions: Set<Seq<char>>, a: Seq<Item>, b: Seq<Item>, n: nat)
    requires
        n <= b.len(),
    ensures
        ({
            let both = cmd::found_among(extensions, a + b, a.len() + n);
            let res = then_found(
                cmd::found_among(extensions, a, a.len()),
                cmd::found_among(extensions, b, n),
            );
            both.error == res.error && both.paths =~= res.paths
        }),
    decreases n,
{
    if n > 0 {
        let m = (n - 1) as nat;
        lemma_among_back(extensions, a, b, m);
        assert((a + b)[a.len() + n - 1] == b[n - 1]);
    } else {
        lemma_among_front(extensions, a, b, a.len());
    }
}

/// Searching items and then more items finds what the first search finds and then what the
/// second finds, up to the first error.
pub proof fn lemma_search_goes_on(extensions: Set<Seq<char>>, a: Seq<Item>, b: Seq<Item>)
    ensures
        cmd::found_among(extensions, a + b, (a + b).len()) == then_found(
            cmd::found_among(extensions, a, a.len()),
            cmd::found_among(extensions, b, b.len()),
        ),
{
    lemma_among_back(extensions, a, b, b.len());
}

/// A single item is searched by what it is: a document is found, a folder is searched in its
/// turn, an error ends the search, and anything else is passed over.
pub proof fn lemma_search_item(extensions: Set<Seq<char>>, item: Item)
    ensures
        ({
            let found = cmd::found_among(extensions, seq![item], 1);
            match item {
                Item::Broken(e) => found.paths.len() == 0 && found.error == Some(e@),
                Item::Folder(listing) => found == cmd::found_below(extensions, listing),
                Item::Other => found.paths.len() == 0 && found.error is None,
                Item::File(p, c) => {
                    let wanted = path::extension(p@) matches Some(e) && exists|x: Seq<char>|
                        #[trigger] extensions.contains(x) && text::utf8(x) == e;
                    match c {
                        Ok(whole) => found.error is None && found.paths == (if wanted {
                            seq![whole@]
                        } else {
                            seq![]
                        }),
                        Err(e) => found.paths.len() == 0 && found.error == (if wanted {
                            Some(e@)
                        } else {
                            None
                        }),
                    }
                },
            }
        }),
{
    let items = seq![item];
    let found = cmd::found_among(extensions, items, 1);
    let none = cmd::found_among(extensions, items, 0);
    assert(none.paths.len() == 0 && none.error is None);
    match item {
        Item::File(p, c) => {
            lemma_has_extension(extensions, p@);
            if let Ok(whole) = c {
                assert(none.paths.push(whole@) =~= seq![whole@]);
            }
        },
        Item::Folder(listing) => {
            let inner = cmd::found_below(extensions, listing);
            assert(none.paths + inner.paths =~= inner.paths);
        },
        _ => {},
    }
}

/// A folder is searched by its items; one that cannot be read is an error.
pub proof fn lemma_search_folder(extensions: Set<Seq<char>>, items: Vec<Item>, message: String)
    ensures
        cmd::found_below(extensions, Listing::Items(items)) == cmd::found_among(
            extensions,
            items@,
            items@.len(),
        ),
        cmd::found_below(extensions, Listing::Unreadable(message)).error == Some(message@),
        cmd::found_below(extensions, Listing::Unreadable(message)).paths.len() == 0,
{
}

/// What an input leads to: nothing from a path that is no text or leads nowhere; a file itself if
/// it is a document and no search is asked for; of a folder, what the search comes to.
pub proof fn lemma_loaded(
    extensions: Set<Seq<char>>,
    recursive: bool,
    path: Seq<u8>,
    listing: Listing,
    message: String,
)
    ensures
        forall|input: Input|
            !text::is_utf8(path) ==> #[trigger] cmd::loaded(extensions, recursive, path, input)
                == Err::<Seq<Seq<u8>>, InputFault>(InputFault::NotText),
        text::is_utf8(path) ==> {
            &&& cmd::loaded(extensions, recursive, path, Input::Missing) == Err::<
                Seq<Seq<u8>>,
                InputFault,
            >(InputFault::Missing)
            &&& cmd::loaded(extensions, true, path, Input::File) == Err::<
                Seq<Seq<u8>>,
                InputFault,
            >(InputFault::RecursiveFile)
            &&& cmd::loaded(extensions, false, path, Input::File) is Ok <==> (path::extension(
                path,
            ) matches Some(e) && exists|x: Seq<char>|
                #[trigger] extensions.contains(x) && text::utf8(x) == e)
            &&& cmd::loaded(extensions, false, path, Input::File) matches Ok(v) ==> v =~= seq![path]
            &&& cmd::loaded(extensions, false, path, Input::File) matches Err(e) ==> e
                == InputFault::NotMarkdown
            &&& cmd::loaded(extensions, true, path, Input::Folder(listing)) is Ok
                <==> cmd::found_below(extensions, listing).error is None
            &&& cmd::loaded(extensions, true, path, Input::Folder(listing)) matches Ok(v) ==> v
                == cmd::found_below(extensions, listing).paths
            &&& cmd::loaded(extensions, true, path, Input::Folder(listing)) matches Err(e) ==> e
                == InputFault::Io(cmd::found_below(extensions, listing).error->0)
            &&& cmd::loaded(extensions, true, path, Input::Other(listing)) == Ok::<
                Seq<Seq<u8>>,
                InputFault,
            >(seq![])
            &&& cmd::loaded(extensions, false, path, Input::Folder(Listing::Unreadable(message)))
                == Err::<Seq<Seq<u8>>, InputFault>(InputFault::Io(message@))
            &&& cmd::loaded(extensions, false, path, Input::Other(Listing::Unreadable(message)))
                == Err::<Seq<Seq<u8>>, InputFault>(InputFault::Io(message@))
        },
{
    lemma_has_extension(extensions, path);
}

/// A folder can be loaded from if the canonical paths of its files are known, or if it has none,
/// and so can anything that is no folder.
pub proof fn lemma_loadable(extensions: Set<Seq<char>>, items: Vec<Item>, message: String)
    requires
        forall|k: int|
            0 <= k < items@.len() ==> (#[trigger] items@[k]) is File ==> items@[k]->File_1 is Ok,
    ensures
        cmd::is_input_resolved(extensions, Input::Missing),
        cmd::is_input_resolved(extensions, Input::File),
        cmd::is_input_resolved(extensions, Input::Folder(Listing::Unreadable(message))),
        cmd::is_input_resolved(extensions, Input::Other(Listing::Unreadable(message))),
        cmd::is_input_resolved(extensions, Input::Folder(Listing::Items(items))),
        cmd::is_input_resolved(extensions, Input::Other(Listing::Items(items))),
{
}

/// A path below a base has the names behind the base as its sub path: there is one whenever these
/// names are UTF-8 and none of them is `..`.
pub proof fn lemma_sub_path_owed(
    base: Seq<u8>,
    path: Seq<u8>,
    base_is_file: bool,
    names: Seq<Seq<u8>>,
)
    requires
        path::is_absolute(base),
        path::is_absolute(path),
        names.len() > 0,
        path::components(path) == path::components(base) + names,
        forall|k: int|
            0 <= k < names.len() ==> text::is_utf8(#[trigger] names[k]) && names[k] != seq![
                46u8,
                46u8,
            ],
    ensures
        output::sub_path(base, path, base_is_file) == Ok::<Seq<u8>, SubPathError>(
            path::join_names(names),
        ),
{
    let b = path::components(base);
    let p = path::components(path);
    assert(base.subrange(0, 1) =~= seq![47u8]);
    assert(b.len() > 0);
    assert(b != p) by {
        assert(p.len() == b.len() + names.len());
    }
    assert(p.take(b.len() as int) =~= b);
    assert(p.skip(b.len() as int) =~= names);
    assert forall|k: int| b.len() <= k < p.len() implies output::is_text_name(#[trigger] p[k]) by {
        assert(p[k] == names[k - b.len()]);
        assert(text::is_utf8(names[k - b.len()]));
        path::lemma_component_plain(path, k);
        lemma_not_special(path, k);
    }
}

/// Behind its first component a path has neither the root nor `.` as a component.
proof fn lemma_not_special(p: Seq<u8>, k: int)
    requires
        0 < k < path::components(p).len(),
    ensures
        path::components(p)[k] != seq![47u8],
        path::components(p)[k] != seq![46u8],
{
    path::lemma_component_plain(p, k);
    let c = path::components(p)[k];
    if c == seq![47u8] {
        assert(c[0] == 47u8);
        assert(c.contains(47u8));
    }
    path::lemma_no_inner_dot(p, k);
}

/// A sub path is refused exactly where there is none: for a relative path, for a file below
/// itself, for a folder below itself that has no name in UTF-8, and for a path that does not
/// start with the base or whose names behind it are not all in UTF-8 and other than `..`.
pub proof fn lemma_sub_path_refused(base: Seq<u8>, path: Seq<u8>, base_is_file: bool)
    ensures
        ({
            let b = path::components(base);
            let p = path::components(path);
            let res = output::sub_path(base, path, base_is_file);
            &&& res == Err::<Seq<u8>, SubPathError>(SubPathError::Relative) <==> !(base.len() > 0
                && base[0] == 47 && path.len() > 0 && path[0] == 47)
            &&& res == Err::<Seq<u8>, SubPathError>(SubPathError::SameFile) ==> b == p
                && base_is_file
            &&& res == Err::<Seq<u8>, SubPathError>(SubPathError::NoFileName) ==> b == p
                && !base_is_file && !(path::file_name(path) matches Some(n) && text::is_utf8(n))
            &&& res == Err::<Seq<u8>, SubPathError>(SubPathError::NotBelow) ==> b != p && !(
            b.is_prefix_of(p) && forall|k: int|
                b.len() <= k < p.len() ==> text::is_utf8(#[trigger] p[k]) && p[k] != seq![
                    46u8,
                    46u8,
                ])
            &&& res is Ok && b == p ==> !base_is_file && path::file_name(path) == Some(res->Ok_0)
            &&& res is Ok && b != p ==> b.is_prefix_of(p)
        }),
{
    let b = path::components(base);
    let p = path::components(path);
    if path::is_absolute(base) && path::is_absolute(path) {
        assert(b.len() > 0);
        assert(p.len() > 0);
        if b.is_prefix_of(p) {
            assert forall|k: int|
                b.len() <= k < p.len() && text::is_utf8(#[trigger] p[k]) && p[k] != seq![
                    46u8,
                    46u8,
                ] implies output::is_text_name(p[k]) by {
                lemma_not_special(path, k);
            }
        }
    }
}

} // verus!
