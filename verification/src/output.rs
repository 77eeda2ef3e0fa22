//! Where the output goes: a document's path below the input folder, put below the output folder.
use vstd::prelude::*;
use crate::path;
use crate::path::UnixPath;
use crate::text;

verus! {

/// Why a path has no place below a base.
#[derive(Debug, Clone, Copy, PartialEq, Eq, Structural)]
pub enum SubPathError {
    /// One of the two paths is relative.
    Relative,
    /// The path is the base, and the base is a file.
    SameFile,
    /// The path is the base, and its file name is missing or not UTF-8.
    NoFileName,
    /// The base is not an ancestor of the path, or a component below it is not a UTF-8 name.
    NotBelow,
}

/// Whether a component is a UTF-8 name.
pub open spec fn is_text_name(c: Seq<u8>) -> bool {
    path::is_name(c) && text::is_utf8(c)
}

/// The part of `path` below `base`.
pub open spec fn sub_path(base: Seq<u8>, path: Seq<u8>, base_is_file: bool) -> Result<
    Seq<u8>,
    SubPathError,
> {
    let b = path::components(base);
    let p = path::components(path);
    if !path::is_absolute(base) || !path::is_absolute(path) {
        Err(SubPathError::Relative)
    } else if b == p {
        if base_is_file {
            Err(SubPathError::SameFile)
        } else if is_text_name(p.last()) {
            Ok(p.last())
        } else {
            Err(SubPathError::NoFileName)
        }
    } else if b.is_prefix_of(p) && forall|k: int|
        b.len() <= k < p.len() ==> is_text_name(#[trigger] p[k]) {
        Ok(path::join_names(p.skip(b.len() as int)))
    } else {
        Err(SubPathError::NotBelow)
    }
}

fn check_text_name(c: &[u8]) -> (res: bool)
    ensures
        res == is_text_name(c@),
{
    path::check_name(c) && text::utf8_str(c).is_some()
}

/// Puts the names from `from` on behind each other.
fn join_from(parts: &Vec<Vec<u8>>, from: usize) -> (res: Vec<u8>)
    requires
        from < parts.len(),
    ensures
        res@ == path::join_names(
            Seq::new((parts.len() - from) as nat, |k: int| parts@[from + k]@),
        ),
{
    let ghost all = Seq::new((parts.len() - from) as nat, |k: int| parts@[from + k]@);
    let mut bytes: Vec<u8> = vstd::slice::slice_to_vec(parts[from].as_slice());
    let mut i: usize = from + 1;
    assert(all.take(1) =~= seq![parts@[from as int]@]);
    while i < parts.len()
        invariant
            from < i <= parts.len(),
            all == Seq::new((parts.len() - from) as nat, |k: int| parts@[from + k]@),
            bytes@ == path::join_names(all.take(i - from)),
        decreases parts.len() - i,
    {
        let ghost front = all.take(i - from);
        let ghost next = all.take(i - from + 1);
        bytes.push(path::SEP);
        let ghost stem = bytes@;
        let name: &Vec<u8> = &parts[i];
        let mut j: usize = 0;
        while j < name.len()
            invariant
                j <= name.len(),
                bytes@ =~= stem + name@.take(j as int),
            decreases name.len() - j,
        {
            bytes.push(name[j]);
            j += 1;
        }
        proof {
            assert(name@.take(j as int) =~= name@);
            assert(next.drop_last() =~= front);
            assert(next.last() == name@);
        }
        i += 1;
    }
    assert(all.take(i - from) =~= all);
    bytes
}

/// The part of `path` below `base`: for `/a/b` and `/a/b/c/d/e.md` it is `c/d/e.md`. A folder
/// below itself is its own name.
pub fn get_sub_path(base: &UnixPath, path: &UnixPath, base_is_file: bool) -> (res: Result<
    UnixPath,
    SubPathError,
>)
    ensures
        match res {
            Ok(sub) => sub_path(base@, path@, base_is_file) == Ok::<Seq<u8>, SubPathError>(sub@),
            Err(e) => sub_path(base@, path@, base_is_file) == Err::<Seq<u8>, SubPathError>(e),
        },
{
    if base.is_relative() || path.is_relative() {
        return Err(SubPathError::Relative);
    }
    let b = base.components();
    let p = path.components();
    let ghost bc = path::components(base@);
    let ghost pc = path::components(path@);
    if base.same_components(path) {
        if base_is_file {
            return Err(SubPathError::SameFile);
        }
        let last: &Vec<u8> = &p[p.len() - 1];
        if !check_text_name(last.as_slice()) {
            return Err(SubPathError::NoFileName);
        }
        return Ok(UnixPath::from_bytes(vstd::slice::slice_to_vec(last.as_slice())));
    }
    if b.len() > p.len() {
        return Err(SubPathError::NotBelow);
    }
    let mut i: usize = 0;
    while i < p.len()
        invariant
            i <= p.len(),
            b.len() <= p.len(),
            p.len() == pc.len(),
            b.len() == bc.len(),
            bc == path::components(base@),
            pc == path::components(path@),
            bc != pc,
            path::is_absolute(base@),
            path::is_absolute(path@),
            forall|k: int| 0 <= k < p.len() ==> (#[trigger] p@[k])@ == pc[k],
            forall|k: int| 0 <= k < b.len() ==> (#[trigger] b@[k])@ == bc[k],
            forall|k: int| 0 <= k < i && k < b.len() ==> bc[k] == pc[k],
            forall|k: int| b.len() <= k < i ==> is_text_name(#[trigger] pc[k]),
        decreases p.len() - i,
    {
        let c = p[i].as_slice();
        if i < b.len() {
            if !text::bytes_eq(b[i].as_slice(), c) {
                assert(b@[i as int]@ != p@[i as int]@);
                return Err(SubPathError::NotBelow);
            }
        } else if !check_text_name(c) {
            assert(!is_text_name(pc[i as int]));
            return Err(SubPathError::NotBelow);
        }
        i += 1;
    }
    proof {
        assert(bc =~= pc.take(bc.len() as int));
        if b.len() == p.len() {
            assert(bc =~= pc);
        }
        assert(pc.skip(bc.len() as int) =~= Seq::new(
            (p.len() - b.len()) as nat,
            |k: int| p@[b.len() + k]@,
        ));
    }
    Ok(UnixPath::from_bytes(join_from(&p, b.len())))
}

/// Where the output of the document at `path` goes: its path below the input, put below the
/// output folder.
pub fn output_path(
    input: &UnixPath,
    path: &UnixPath,
    input_is_file: bool,
    output: &UnixPath,
) -> (res: Result<UnixPath, SubPathError>)
    ensures
        match sub_path(input@, path@, input_is_file) {
            Ok(sub) => res matches Ok(p) && p@ == path::join(output@, sub),
            Err(e) => res == Err::<UnixPath, SubPathError>(e),
        },
{
    match get_sub_path(input, path, input_is_file) {
        Ok(sub) => Ok(output.join(&sub)),
        Err(e) => Err(e),
    }
}

/// Why a folder cannot take the output.
#[derive(Debug, Clone, Copy, PartialEq, Eq, Structural)]
pub enum OutputError {
    /// Its path is not UTF-8.
    NotText,
    /// It is not empty, or cannot be read as a folder.
    NonEmpty,
}

/// What is to be done about the output folder.
#[derive(Debug, Clone, Copy, PartialEq, Eq, Structural)]
pub enum OutputStep {
    /// It is to be made.
    Create,
    /// It is to be read, and to be taken only if it is empty.
    Inspect,
    /// It is taken.
    Accept,
}

/// Decides on the output folder, given whether there is something at its path.
pub fn check_output_path(output: &UnixPath, exists: bool, overwrite: bool) -> (res: Result<
    OutputStep,
    OutputError,
>)
    ensures
        !text::is_utf8(output@) ==> res == Err::<OutputStep, OutputError>(OutputError::NotText),
        text::is_utf8(output@) ==> res == Ok::<OutputStep, OutputError>(
            if !exists {
                OutputStep::Create
            } else if overwrite {
                OutputStep::Accept
            } else {
                OutputStep::Inspect
            },
        ),
{
    if output.to_str().is_none() {
        return Err(OutputError::NotText);
    }
    if !exists {
        return Ok(OutputStep::Create);
    }
    if overwrite {
        return Ok(OutputStep::Accept);
    }
    Ok(OutputStep::Inspect)
}

/// What was found in the output folder.
#[derive(Debug, Clone, Copy, PartialEq, Eq, Structural)]
pub enum Contents {
    /// It could not be read as a folder.
    Unreadable,
    Empty,
    NonEmpty,
}

/// Decides on the output folder by what was found in it.
pub fn check_output_contents(contents: Contents) -> (res: Result<(), OutputError>)
    ensures
        contents == Contents::Empty ==> res is Ok,
        contents != Contents::Empty ==> res == Err::<(), OutputError>(OutputError::NonEmpty),
{
    match contents {
        Contents::Empty => Ok(()),
        Contents::NonEmpty => Err(OutputError::NonEmpty),
        Contents::Unreadable => Err(OutputError::NonEmpty),
    }
}

/// Why an output file cannot be written.
#[derive(Debug, Clone, Copy, PartialEq, Eq, Structural)]
pub enum WriteError {
    /// Its path has no parent.
    NoParent,
    /// There is a file that may not be overwritten.
    Exists,
}

/// Decides whether an output file may be written, given whether there is a file already, and
/// gives back the folder that has to exist for it.
pub fn write_output(output: &UnixPath, is_file: bool, overwrite: bool) -> (res: Result<
    UnixPath,
    WriteError,
>)
    ensures
        match path::parent(output@) {
            None => res == Err::<UnixPath, WriteError>(WriteError::NoParent),
            Some(folder) => if is_file && !overwrite {
                res == Err::<UnixPath, WriteError>(WriteError::Exists)
            } else {
                res matches Ok(p) && p@ == folder
            },
        },
{
    let folder = match output.parent() {
        Some(folder) => folder,
        None => {
            return Err(WriteError::NoParent);
        },
    };
    if is_file && !overwrite {
        return Err(WriteError::Exists);
    }
    Ok(folder)
}

/// What `get_sub_path` gives back is relative and made of names alone, none of them `..`, so it
/// stays below whatever folder it is joined to.
pub proof fn lemma_sub_path_stays_below(
    base: Seq<u8>,
    path: Seq<u8>,
    base_is_file: bool,
    sub: Seq<u8>,
    folder: Seq<u8>,
)
    requires
        sub_path(base, path, base_is_file) == Ok::<Seq<u8>, SubPathError>(sub),
    ensures
        !path::is_absolute(sub),
        path::components(sub).len() > 0,
        forall|k: int|
            0 <= k < path::components(sub).len() ==> path::is_plain(
                #[trigger] path::components(sub)[k],
            ),
        path::components(path::join(folder, sub)) == path::components(folder) + path::components(
            sub,
        ),
{
    lemma_sub_path_names(base, path, base_is_file, sub);
    let names = path::components(sub);
    if folder.len() == 0 {
        assert(path::join(folder, sub) =~= sub);
        assert(path::components(folder) + names =~= names);
    } else {
        path::lemma_join_components(folder, sub);
    }
}

/// The components of a sub path are the names below the base.
proof fn lemma_sub_path_names(base: Seq<u8>, path: Seq<u8>, base_is_file: bool, sub: Seq<u8>)
    requires
        sub_path(base, path, base_is_file) == Ok::<Seq<u8>, SubPathError>(sub),
    ensures
        sub.len() > 0,
        !path::is_absolute(sub),
        !path::starts_with_dot(sub),
        path::components(sub).len() > 0,
        forall|k: int|
            0 <= k < path::components(sub).len() ==> path::is_plain(
                #[trigger] path::components(sub)[k],
            ),
        path::components(base) != path::components(path) ==> path::components(sub)
            == path::components(path).skip(path::components(base).len() as int),
{
    let b = path::components(base);
    let p = path::components(path);
    let names = if b == p {
        seq![p.last()]
    } else {
        p.skip(b.len() as int)
    };
    assert(b.len() > 0 && b[0] == base.subrange(0, 1) && base.subrange(0, 1) =~= seq![path::SEP]);
    assert(p.len() > 0 && p[0] == path.subrange(0, 1) && path.subrange(0, 1) =~= seq![path::SEP]);
    if b == p && p.len() == 1 {
        assert(!path::is_name(p.last()));
    }
    assert forall|k: int| 0 <= k < names.len() implies path::is_plain(#[trigger] names[k]) by {
        let at = if b == p {
            p.len() - 1
        } else {
            b.len() + k
        };
        assert(names[k] == p[at]);
        assert(is_text_name(p[at]));
        path::lemma_component_plain(path, at);
    }
    if b != p && b.len() == p.len() {
        assert(b =~= p);
    }
    path::lemma_join_names(names);
}

/// Joining a sub path to its base leads back to the path it was taken from.
pub proof fn lemma_sub_path_leads_back(
    base: Seq<u8>,
    path: Seq<u8>,
    base_is_file: bool,
    sub: Seq<u8>,
)
    requires
        sub_path(base, path, base_is_file) == Ok::<Seq<u8>, SubPathError>(sub),
        path::components(base) != path::components(path),
    ensures
        path::components(path::join(base, sub)) == path::components(path),
{
    lemma_sub_path_stays_below(base, path, base_is_file, sub, base);
    lemma_sub_path_names(base, path, base_is_file, sub);
    let b = path::components(base);
    let p = path::components(path);
    assert(b + p.skip(b.len() as int) =~= p);
}

/// Different documents below one input folder get different places below the output folder.
pub proof fn lemma_outputs_differ(
    base: Seq<u8>,
    first: Seq<u8>,
    second: Seq<u8>,
    base_is_file: bool,
    sub1: Seq<u8>,
    sub2: Seq<u8>,
    output: Seq<u8>,
)
    requires
        sub_path(base, first, base_is_file) == Ok::<Seq<u8>, SubPathError>(sub1),
        sub_path(base, second, base_is_file) == Ok::<Seq<u8>, SubPathError>(sub2),
        path::components(base) != path::components(first),
        path::components(base) != path::components(second),
        path::components(first) != path::components(second),
    ensures
        path::components(path::join(output, sub1)) != path::components(path::join(output, sub2)),
{
    let o = path::components(output);
    let (s1, s2) = (path::components(sub1), path::components(sub2));
    lemma_sub_path_stays_below(base, first, base_is_file, sub1, output);
    lemma_sub_path_stays_below(base, second, base_is_file, sub2, output);
    lemma_sub_path_stays_below(base, first, base_is_file, sub1, base);
    lemma_sub_path_stays_below(base, second, base_is_file, sub2, base);
    lemma_sub_path_leads_back(base, first, base_is_file, sub1);
    lemma_sub_path_leads_back(base, second, base_is_file, sub2);
    if o + s1 == o + s2 {
        assert((o + s1).skip(o.len() as int) =~= s1);
        assert((o + s2).skip(o.len() as int) =~= s2);
    }
}

} // verus!
