//! Unix paths: byte strings whose components are separated by `/`.
//!
//! The model of a path is the sequence of its components. Repeated and trailing separators do
//! not matter, and neither does a `.` anywhere but at the front. A component is given by its own
//! bytes; the root of an absolute path is the component `/`.
use vstd::prelude::*;
use crate::text;

verus! {

pub const SEP: u8 = 47;

pub const DOT: u8 = 46;

/// A component's place in the bytes of its path.
#[derive(Clone, Copy, Debug)]
pub struct Span {
    pub start: usize,
    pub end: usize,
}

/// Whether a path starts at the root.
pub open spec fn is_absolute(p: Seq<u8>) -> bool {
    p.len() > 0 && p[0] == SEP
}

/// Whether a path starts with a `.` that stands alone between separators.
pub open spec fn starts_with_dot(p: Seq<u8>) -> bool {
    p.len() > 0 && p[0] == DOT && (p.len() == 1 || p[1] == SEP)
}

/// Whether the run between two separators is a component.
pub open spec fn is_part(run: Seq<u8>) -> bool {
    run.len() > 0 && run != seq![DOT]
}

/// The places of the components from `i` on, given that a component may start at `i`.
pub open spec fn spans_from(p: Seq<u8>, i: int) -> Seq<(int, int)>
    decreases p.len() - i,
{
    if i < 0 || i >= p.len() {
        seq![]
    } else {
        let e = text::run_end(p, SEP, i);
        let rest = if i <= e < p.len() {
            spans_from(p, e + 1)
        } else {
            seq![]
        };
        if is_part(p.subrange(i, e)) {
            seq![(i, e)] + rest
        } else {
            rest
        }
    }
}

/// The places of a path's components.
pub open spec fn spans(p: Seq<u8>) -> Seq<(int, int)> {
    if is_absolute(p) || starts_with_dot(p) {
        seq![(0int, 1int)] + spans_from(p, 1)
    } else {
        spans_from(p, 0)
    }
}

/// The components of a path.
pub open spec fn components(p: Seq<u8>) -> Seq<Seq<u8>> {
    spans(p).map_values(|s: (int, int)| p.subrange(s.0, s.1))
}

/// Whether a component is a name: neither the root, nor `.`, nor `..`.
pub open spec fn is_name(c: Seq<u8>) -> bool {
    c != seq![SEP] && c != seq![DOT] && c != seq![DOT, DOT]
}

/// The final component, if it is a name.
pub open spec fn file_name(p: Seq<u8>) -> Option<Seq<u8>> {
    let c = components(p);
    if c.len() > 0 && is_name(c.last()) {
        Some(c.last())
    } else {
        None
    }
}

/// The path up to the end of its last but one component; there is none for the root and for the
/// empty path.
pub open spec fn parent(p: Seq<u8>) -> Option<Seq<u8>> {
    let s = spans(p);
    if s.len() == 0 || components(p).last() == seq![SEP] {
        None
    } else if s.len() == 1 {
        Some(seq![])
    } else {
        Some(p.take(s[s.len() - 2].1))
    }
}

/// Where a byte occurs last; -1 where it does not occur.
pub open spec fn last_index(s: Seq<u8>, byte: u8) -> int
    decreases s.len(),
{
    if s.len() == 0 {
        -1
    } else if s.last() == byte {
        s.len() - 1
    } else {
        last_index(s.drop_last(), byte)
    }
}

/// What the last `.` of a name is followed by, unless that `.` is its first byte.
pub open spec fn extension_of(name: Seq<u8>) -> Option<Seq<u8>> {
    let dot = last_index(name, DOT);
    if dot > 0 {
        Some(name.skip(dot + 1))
    } else {
        None
    }
}

/// The extension of a path's file name.
pub open spec fn extension(p: Seq<u8>) -> Option<Seq<u8>> {
    match file_name(p) {
        Some(name) => extension_of(name),
        None => None,
    }
}

/// `q` taken relative to `p`: an absolute `q` stands alone, any other is put behind a separator.
pub open spec fn join(p: Seq<u8>, q: Seq<u8>) -> Seq<u8> {
    if is_absolute(q) {
        q
    } else if p.len() > 0 && p.last() != SEP {
        p.push(SEP) + q
    } else {
        p + q
    }
}

/// The bytes of a component.
fn part<'a>(p: &'a [u8], span: Span) -> (res: &'a [u8])
    requires
        span.start <= span.end <= p@.len(),
    ensures
        res@ == p@.subrange(span.start as int, span.end as int),
{
    vstd::slice::slice_subrange(p, span.start, span.end)
}

/// The places in a list of spans.
pub open spec fn places(v: Seq<Span>) -> Seq<(int, int)> {
    v.map_values(|s: Span| (s.start as int, s.end as int))
}

/// Finds the components of a path.
fn find_spans(p: &[u8]) -> (res: Vec<Span>)
    ensures
        places(res@) == spans(p@),
{
    let mut found: Vec<Span> = Vec::new();
    let mut i: usize = 0;
    if p.len() > 0 && (p[0] == SEP || (p[0] == DOT && (p.len() == 1 || p[1] == SEP))) {
        found.push(Span { start: 0, end: 1 });
        i = 1;
    }
    while i < p.len()
        invariant
            i <= p.len(),
            spans(p@) =~= places(found@) + spans_from(p@, i as int),
        decreases p.len() - i,
    {
        let e: usize = text::find_run_end(p, SEP, i);
        proof {
            text::lemma_run_end(p@, SEP, i as int);
        }
        let ghost before = found@;
        let ghost run = p@.subrange(i as int, e as int);
        if e - i > 1 || (e - i == 1 && p[i] != DOT) {
            proof {
                assert(run != seq![DOT]) by {
                    if run == seq![DOT] {
                        assert(run.len() == 1 && run[0] == DOT);
                    }
                }
            }
            found.push(Span { start: i, end: e });
            assert(places(found@) =~= places(before).push((i as int, e as int)));
        } else {
            proof {
                if e - i == 1 {
                    assert(run =~= seq![DOT]);
                }
            }
        }
        i = if e < p.len() {
            e + 1
        } else {
            e
        };
    }
    assert(spans_from(p@, i as int) =~= seq![]);
    found
}

/// The component at a place found by `find_spans`.
proof fn lemma_component(p: Seq<u8>, found: Seq<Span>, k: int)
    requires
        places(found) == spans(p),
        0 <= k < found.len(),
    ensures
        spans(p).len() == found.len(),
        components(p).len() == found.len(),
        found[k].start <= found[k].end <= p.len(),
        spans(p)[k] == (found[k].start as int, found[k].end as int),
        components(p)[k] == p.subrange(found[k].start as int, found[k].end as int),
{
    assert(places(found)[k] == (found[k].start as int, found[k].end as int));
    lemma_spans_in_range(p, k);
}

proof fn lemma_spans_from_in_range(p: Seq<u8>, i: int, k: int)
    requires
        0 <= i,
        0 <= k < spans_from(p, i).len(),
    ensures
        i <= spans_from(p, i)[k].0 < spans_from(p, i)[k].1 <= p.len(),
    decreases p.len() - i,
{
    text::lemma_run_end(p, SEP, i);
    let e = text::run_end(p, SEP, i);
    if is_part(p.subrange(i, e)) {
        if k > 0 {
            lemma_spans_from_in_range(p, e + 1, k - 1);
        }
    } else {
        lemma_spans_from_in_range(p, e + 1, k);
    }
}

/// The components of a path are not empty and stand in it.
pub proof fn lemma_spans_in_range(p: Seq<u8>, k: int)
    requires
        0 <= k < spans(p).len(),
    ensures
        0 <= spans(p)[k].0 < spans(p)[k].1 <= p.len(),
{
    if is_absolute(p) || starts_with_dot(p) {
        if k > 0 {
            lemma_spans_from_in_range(p, 1, k - 1);
        }
    } else {
        lemma_spans_from_in_range(p, 0, k);
    }
}

/// Whether a component is a name.
pub fn check_name(c: &[u8]) -> (res: bool)
    ensures
        res == is_name(c@),
{
    let root = c.len() == 1 && c[0] == SEP;
    let dot = c.len() == 1 && c[0] == DOT;
    let dots = c.len() == 2 && c[0] == DOT && c[1] == DOT;
    assert(root == (c@ =~= seq![SEP]));
    assert(dot == (c@ =~= seq![DOT]));
    assert(dots == (c@ =~= seq![DOT, DOT]));
    !root && !dot && !dots
}

/// A Unix path.
#[derive(Debug)]
pub struct UnixPath {
    bytes: Vec<u8>,
}

impl View for UnixPath {
    type V = Seq<u8>;

    closed spec fn view(&self) -> Seq<u8> {
        self.bytes@
    }
}

impl Clone for UnixPath {
    fn clone(&self) -> (res: Self)
        ensures
            res@ == self@,
    {
        UnixPath { bytes: vstd::slice::slice_to_vec(self.bytes.as_slice()) }
    }
}

impl UnixPath {
    /// The path with the given text.
    pub fn new(text: &str) -> (res: UnixPath)
        ensures
            res@ == text::utf8(text@),
    {
        UnixPath { bytes: vstd::slice::slice_to_vec(text.as_bytes()) }
    }

    /// The path with the given bytes.
    pub fn from_bytes(bytes: Vec<u8>) -> (res: UnixPath)
        ensures
            res@ == bytes@,
    {
        UnixPath { bytes }
    }

    /// The bytes of the path.
    pub fn as_bytes(&self) -> (res: &[u8])
        ensures
            res@ == self@,
    {
        self.bytes.as_slice()
    }

    /// The text of the path, if it is UTF-8.
    pub fn to_str(&self) -> (res: Option<&str>)
        ensures
            res is Some <==> text::is_utf8(self@),
            res matches Some(s) ==> s@ == text::chars_of(self@),
    {
        let res = text::utf8_str(self.bytes.as_slice());
        proof {
            if let Some(s) = res {
                text::lemma_utf8_text(s@);
            }
        }
        res
    }

    /// Whether the path starts at the root.
    pub fn is_absolute(&self) -> (res: bool)
        ensures
            res == is_absolute(self@),
    {
        self.bytes.len() > 0 && self.bytes[0] == SEP
    }

    /// Whether the path does not start at the root.
    pub fn is_relative(&self) -> (res: bool)
        ensures
            res == !is_absolute(self@),
    {
        !self.is_absolute()
    }

    /// The final component, if it is a name.
    pub fn file_name(&self) -> (res: Option<&[u8]>)
        ensures
            res is Some <==> file_name(self@) is Some,
            res matches Some(n) ==> file_name(self@) == Some(n@),
    {
        let p = self.bytes.as_slice();
        let found = find_spans(p);
        if found.len() == 0 {
            assert(spans(self@).len() == 0);
            return None;
        }
        let last: Span = found[found.len() - 1];
        proof {
            lemma_component(self@, found@, found.len() - 1);
        }
        let name = part(p, last);
        if check_name(name) {
            Some(name)
        } else {
            None
        }
    }

    /// The extension of the file name.
    pub fn extension(&self) -> (res: Option<&[u8]>)
        ensures
            res is Some <==> extension(self@) is Some,
            res matches Some(e) ==> extension(self@) == Some(e@),
    {
        let name = match self.file_name() {
            Some(name) => name,
            None => {
                return None;
            },
        };
        let mut i: usize = name.len();
        assert(name@.take(i as int) =~= name@);
        while i > 0
            invariant
                i <= name.len(),
                file_name(self@) == Some(name@),
                last_index(name@, DOT) == last_index(name@.take(i as int), DOT),
            decreases i,
        {
            assert(name@.take(i as int).drop_last() =~= name@.take(i - 1));
            assert(name@.take(i as int).last() == name@[i - 1]);
            if name[i - 1] == DOT {
                if i == 1 {
                    return None;
                }
                return Some(vstd::slice::slice_subrange(name, i, name.len()));
            }
            i -= 1;
        }
        None
    }

    /// The path without its final component.
    pub fn parent(&self) -> (res: Option<UnixPath>)
        ensures
            res is Some <==> parent(self@) is Some,
            res matches Some(q) ==> parent(self@) == Some(q@),
    {
        let p = self.bytes.as_slice();
        let found = find_spans(p);
        if found.len() == 0 {
            assert(spans(self@).len() == 0);
            return None;
        }
        proof {
            lemma_component(self@, found@, found.len() - 1);
        }
        let last = part(p, found[found.len() - 1]);
        let root = last.len() == 1 && last[0] == SEP;
        assert(root == (last@ =~= seq![SEP]));
        if root {
            return None;
        }
        if found.len() == 1 {
            return Some(UnixPath { bytes: Vec::new() });
        }
        let end: usize = found[found.len() - 2].end;
        proof {
            lemma_component(self@, found@, found.len() - 2);
            assert(self@.take(end as int) =~= self@.subrange(0, end as int));
        }
        Some(UnixPath { bytes: vstd::slice::slice_to_vec(vstd::slice::slice_subrange(p, 0, end)) })
    }

    /// `other` taken relative to this path.
    pub fn join(&self, other: &UnixPath) -> (res: UnixPath)
        ensures
            res@ == join(self@, other@),
    {
        if other.is_absolute() {
            return other.clone();
        }
        let mut bytes = vstd::slice::slice_to_vec(self.bytes.as_slice());
        if bytes.len() > 0 && bytes[bytes.len() - 1] != SEP {
            bytes.push(SEP);
        }
        let mut i: usize = 0;
        let ghost head = bytes@;
        while i < other.bytes.len()
            invariant
                i <= other@.len(),
                other@ == other.bytes@,
                bytes@ =~= head + other@.take(i as int),
            decreases other@.len() - i,
        {
            bytes.push(other.bytes[i]);
            i += 1;
        }
        assert(other@.take(i as int) =~= other@);
        UnixPath { bytes }
    }

    /// The components of the path.
    pub fn components(&self) -> (res: Vec<Vec<u8>>)
        ensures
            res@.len() == components(self@).len(),
            forall|k: int| 0 <= k < res@.len() ==> (#[trigger] res@[k])@ == components(self@)[k],
    {
        let p = self.bytes.as_slice();
        let found = find_spans(p);
        assert(components(self@).len() == found.len());
        let mut parts: Vec<Vec<u8>> = Vec::new();
        let mut i: usize = 0;
        while i < found.len()
            invariant
                i <= found.len(),
                parts.len() == i,
                p@ == self@,
                places(found@) == spans(self@),
                forall|k: int| 0 <= k < i ==> (#[trigger] parts@[k])@ == components(self@)[k],
            decreases found.len() - i,
        {
            proof {
                lemma_component(self@, found@, i as int);
            }
            parts.push(vstd::slice::slice_to_vec(part(p, found[i])));
            i += 1;
        }
        parts
    }

    /// Whether two paths have the same components.
    pub fn same_components(&self, other: &UnixPath) -> (res: bool)
        ensures
            res == (components(self@) == components(other@)),
    {
        let (p, q) = (self.bytes.as_slice(), other.bytes.as_slice());
        let (a, b) = (find_spans(p), find_spans(q));
        assert(components(self@).len() == a.len() && components(other@).len() == b.len());
        if a.len() != b.len() {
            return false;
        }
        let mut i: usize = 0;
        while i < a.len()
            invariant
                i <= a.len(),
                a.len() == b.len(),
                p@ == self@,
                q@ == other@,
                places(a@) == spans(self@),
                places(b@) == spans(other@),
                components(self@).len() == a.len(),
                components(other@).len() == b.len(),
                forall|k: int| 0 <= k < i ==> components(self@)[k] == components(other@)[k],
            decreases a.len() - i,
        {
            proof {
                lemma_component(self@, a@, i as int);
                lemma_component(other@, b@, i as int);
            }
            if !text::bytes_eq(part(p, a[i]), part(q, b[i])) {
                return false;
            }
            i += 1;
        }
        assert(components(self@) =~= components(other@));
        true
    }
}

impl PartialEq for UnixPath {
    fn eq(&self, other: &Self) -> (res: bool) {
        self.same_components(other)
    }
}

impl vstd::std_specs::cmp::PartialEqSpecImpl for UnixPath {
    open spec fn obeys_eq_spec() -> bool {
        true
    }

    open spec fn eq_spec(&self, other: &Self) -> bool {
        components(self@) == components(other@)
    }
}

impl Eq for UnixPath {
}

/// The components from `i` on, given that a component may start at `i`.
spec fn parts_from(p: Seq<u8>, i: int) -> Seq<Seq<u8>> {
    spans_from(p, i).map_values(|s: (int, int)| p.subrange(s.0, s.1))
}

/// At a separator, the components in front of it and those behind it are found separately.
proof fn lemma_spans_cut(p: Seq<u8>, i: int, e: int)
    requires
        0 <= i <= e < p.len(),
        p[e] == SEP,
    ensures
        spans_from(p, i) == spans_from(p.take(e), i) + spans_from(p, e + 1),
    decreases e - i,
{
    let q = p.take(e);
    text::lemma_run_end(p, SEP, i);
    let r = text::run_end(p, SEP, i);
    if r > e {
        assert(p[e] != SEP);
    }
    assert forall|k: int| i <= k < r implies q[k] != SEP by {
        assert(p[k] != SEP);
    }
    text::lemma_run_end_is(q, SEP, i, r);
    assert(p.subrange(i, r) =~= q.subrange(i, r));
    if r < e {
        lemma_spans_cut(p, r + 1, e);
        assert(spans_from(p, i) =~= spans_from(q, i) + spans_from(p, e + 1));
    } else {
        assert(spans_from(p, i) =~= spans_from(q, i) + spans_from(p, e + 1));
    }
}

/// What stands in front of a path's bytes does not change the components found in them.
proof fn lemma_parts_shift(a: Seq<u8>, q: Seq<u8>, j: int)
    requires
        0 <= j <= q.len(),
    ensures
        parts_from(a + q, a.len() + j) == parts_from(q, j),
    decreases q.len() - j,
{
    let w = a + q;
    let i = a.len() + j;
    if j < q.len() {
        text::lemma_run_end(q, SEP, j);
        let e = text::run_end(q, SEP, j);
        assert forall|k: int| i <= k < a.len() + e implies w[k] != SEP by {
            assert(q[k - a.len()] != SEP);
        }
        text::lemma_run_end_is(w, SEP, i, a.len() + e);
        assert(w.subrange(i, a.len() + e) =~= q.subrange(j, e));
        if e < q.len() {
            lemma_parts_shift(a, q, e + 1);
        }
        assert(parts_from(w, i) =~= parts_from(q, j)) by {
            if e < q.len() {
                assert(parts_from(w, a.len() + e + 1) == parts_from(q, e + 1));
            }
            if is_part(q.subrange(j, e)) {
                if e < q.len() {
                    assert(parts_from(w, i) =~= seq![w.subrange(i, a.len() + e)] + parts_from(w, a.len() + e + 1));
                    assert(parts_from(q, j) =~= seq![q.subrange(j, e)] + parts_from(q, e + 1));
                } else {
                    assert(parts_from(w, i) =~= seq![w.subrange(i, a.len() + e)]);
                    assert(parts_from(q, j) =~= seq![q.subrange(j, e)]);
                }
            }
        }
    } else {
        assert(parts_from(w, i) =~= seq![]);
        assert(parts_from(q, j) =~= seq![]);
    }
}

/// The components of a path that is not taken as starting at the root: those behind a leading
/// `.`, or all of them.
pub open spec fn relative_parts(q: Seq<u8>) -> Seq<Seq<u8>> {
    if starts_with_dot(q) {
        components(q).drop_first()
    } else {
        components(q)
    }
}

proof fn lemma_relative_parts(q: Seq<u8>)
    requires
        !is_absolute(q),
    ensures
        parts_from(q, 0) == relative_parts(q),
{
    if starts_with_dot(q) {
        text::lemma_run_end_is(q, SEP, 0, 1);
        assert(q.subrange(0, 1) =~= seq![DOT]);
        if q.len() > 1 {
            text::lemma_run_end_is(q, SEP, 1, 1);
            assert(spans_from(q, 1) == spans_from(q, 2));
        }
        assert(spans_from(q, 0) =~= spans_from(q, 1));
        assert(components(q).drop_first() =~= parts_from(q, 1));
    } else {
        assert(components(q) =~= parts_from(q, 0));
    }
}

/// Joining a relative path puts its components behind those of the path it is joined to.
pub proof fn lemma_join_components(p: Seq<u8>, q: Seq<u8>)
    requires
        p.len() > 0,
        !is_absolute(q),
    ensures
        components(join(p, q)) == components(p) + relative_parts(q),
{
    let stem = if p.last() == SEP {
        p.drop_last()
    } else {
        p
    };
    let w = join(p, q);
    let head = stem.push(SEP);
    if p.last() == SEP {
        assert(head =~= p);
    }
    assert(w =~= head + q);
    lemma_relative_parts(q);
    lemma_parts_shift(head, q, 0);
    assert(parts_from(w, head.len() as int) == relative_parts(q));
    if stem.len() == 0 {
        assert(spans(w) =~= seq![(0int, 1int)] + spans_from(w, 1));
        assert(components(w) =~= seq![w.subrange(0, 1)] + parts_from(w, 1));
        assert(w.subrange(0, 1) =~= seq![SEP]);
        assert(components(p) =~= seq![seq![SEP]]) by {
            assert(p =~= seq![SEP]);
            assert(spans_from(p, 1) =~= seq![]);
            assert(p.subrange(0, 1) =~= seq![SEP]);
        }
    } else {
        let i: int = if is_absolute(stem) || starts_with_dot(stem) {
            1
        } else {
            0
        };
        lemma_head_components(p, stem);
        lemma_spans_cut(w, i, stem.len() as int);
        assert(w.take(stem.len() as int) =~= stem);
        assert(spans(w) =~= spans(stem) + spans_from(w, head.len() as int));
        assert forall|k: int| #![trigger spans(stem)[k]] 0 <= k < spans(stem).len() implies {
            let s = spans(stem)[k];
            w.subrange(s.0, s.1) == stem.subrange(s.0, s.1)
        } by {
            lemma_spans_in_range(stem, k);
            let s = spans(stem)[k];
            assert(w.subrange(s.0, s.1) =~= stem.subrange(s.0, s.1));
        }
        assert(components(w) =~= components(stem) + parts_from(w, head.len() as int));
    }
}

/// A separator at the end of a path adds no component, unless it is the root.
pub proof fn lemma_head_components(p: Seq<u8>, stem: Seq<u8>)
    requires
        p == stem || p == stem.push(SEP),
        stem.len() > 0,
    ensures
        components(p) == components(stem),
{
    if p != stem {
        let i: int = if is_absolute(stem) || starts_with_dot(stem) {
            1
        } else {
            0
        };
        lemma_spans_cut(p, i, stem.len() as int);
        assert(p.take(stem.len() as int) =~= stem);
        assert(spans_from(p, stem.len() as int + 1) =~= seq![]);
        assert(spans(p) =~= spans(stem));
        assert forall|k: int| #![trigger spans(stem)[k]] 0 <= k < spans(stem).len() implies {
            let s = spans(stem)[k];
            p.subrange(s.0, s.1) == stem.subrange(s.0, s.1)
        } by {
            lemma_spans_in_range(stem, k);
            let s = spans(stem)[k];
            assert(p.subrange(s.0, s.1) =~= stem.subrange(s.0, s.1));
        }
        assert(components(p) =~= components(stem));
    }
}

/// A component that another follows ends at a separator, and the other starts behind it.
proof fn lemma_spans_order(p: Seq<u8>, i: int, k: int)
    requires
        0 <= i,
        0 <= k,
        k + 1 < spans_from(p, i).len(),
    ensures
        spans_from(p, i)[k].1 < p.len(),
        p[spans_from(p, i)[k].1] == SEP,
        spans_from(p, i)[k].1 < spans_from(p, i)[k + 1].0,
    decreases p.len() - i,
{
    text::lemma_run_end(p, SEP, i);
    let e = text::run_end(p, SEP, i);
    if is_part(p.subrange(i, e)) {
        if k > 0 {
            lemma_spans_order(p, e + 1, k - 1);
        } else {
            lemma_spans_from_in_range(p, e + 1, 0);
        }
    } else {
        lemma_spans_order(p, e + 1, k);
    }
}

/// The parent of a path has all of its components but the last.
pub proof fn lemma_parent_components(p: Seq<u8>, q: Seq<u8>)
    requires
        parent(p) == Some(q),
    ensures
        components(q) == components(p).drop_last(),
{
    let n = spans(p).len();
    let headed = is_absolute(p) || starts_with_dot(p);
    let i: int = if headed {
        1
    } else {
        0
    };
    if n == 1 {
        assert(components(q) =~= components(p).drop_last());
    } else {
        let e = spans(p)[n - 2].1;
        lemma_spans_in_range(p, n - 2);
        if headed && n == 2 {
            assert(spans_from(q, 1) =~= seq![]);
            assert(q.subrange(0, 1) =~= p.subrange(0, 1));
            assert(components(q) =~= components(p).drop_last());
        } else {
            let body = spans_from(p, i);
            let k = n - 2 - i;
            assert(body[k] == spans(p)[n - 2]);
            assert(body[k + 1] == spans(p)[n - 1]);
            lemma_spans_order(p, i, k);
            lemma_spans_from_in_range(p, i, k);
            lemma_spans_from_in_range(p, i, k + 1);
            lemma_spans_cut(p, i, e);
            let front = spans_from(q, i);
            let back = spans_from(p, e + 1);
            if front.len() <= k {
                lemma_spans_from_in_range(p, e + 1, k - front.len());
                assert(body[k] == back[k - front.len()]);
            }
            if front.len() > k + 1 {
                lemma_spans_from_in_range(q, i, k + 1);
                assert(body[k + 1] == front[k + 1]);
            }
            assert(is_absolute(q) == is_absolute(p));
            assert(starts_with_dot(q) == starts_with_dot(p));
            assert(spans(q) =~= spans(p).drop_last());
            assert forall|j: int| #![trigger spans(q)[j]] 0 <= j < spans(q).len() implies {
                let s = spans(q)[j];
                p.subrange(s.0, s.1) == q.subrange(s.0, s.1)
            } by {
                lemma_spans_in_range(q, j);
                let s = spans(q)[j];
                assert(p.subrange(s.0, s.1) =~= q.subrange(s.0, s.1));
            }
            assert(components(q) =~= components(p).drop_last());
        }
    }
}

/// Whether bytes can stand between two separators as a name.
pub open spec fn is_plain(c: Seq<u8>) -> bool {
    c.len() > 0 && is_name(c) && !c.contains(SEP)
}

/// Names with a separator between each two.
pub open spec fn join_names(names: Seq<Seq<u8>>) -> Seq<u8>
    decreases names.len(),
{
    if names.len() == 0 {
        seq![]
    } else if names.len() == 1 {
        names[0]
    } else {
        join_names(names.drop_last()).push(SEP) + names.last()
    }
}

/// The components behind the first are not empty and hold no separator.
pub proof fn lemma_component_plain(p: Seq<u8>, k: int)
    requires
        0 < k < components(p).len(),
    ensures
        components(p)[k].len() > 0,
        !components(p)[k].contains(SEP),
{
    if is_absolute(p) || starts_with_dot(p) {
        lemma_span_plain(p, 1, k - 1);
    } else {
        lemma_span_plain(p, 0, k);
    }
}

proof fn lemma_span_plain(p: Seq<u8>, i: int, k: int)
    requires
        0 <= i,
        0 <= k < spans_from(p, i).len(),
    ensures
        ({
            let s = spans_from(p, i)[k];
            p.subrange(s.0, s.1).len() > 0 && !p.subrange(s.0, s.1).contains(SEP)
        }),
    decreases p.len() - i,
{
    text::lemma_run_end(p, SEP, i);
    let e = text::run_end(p, SEP, i);
    if is_part(p.subrange(i, e)) {
        if k > 0 {
            lemma_span_plain(p, e + 1, k - 1);
        }
    } else {
        lemma_span_plain(p, e + 1, k);
    }
}

/// No component behind the first is a lone `.`.
pub proof fn lemma_no_inner_dot(p: Seq<u8>, k: int)
    requires
        0 < k < components(p).len(),
    ensures
        components(p)[k] != seq![DOT],
{
    if is_absolute(p) || starts_with_dot(p) {
        lemma_span_part(p, 1, k - 1);
    } else {
        lemma_span_part(p, 0, k);
    }
}

proof fn lemma_span_part(p: Seq<u8>, i: int, k: int)
    requires
        0 <= i,
        0 <= k < spans_from(p, i).len(),
    ensures
        ({
            let s = spans_from(p, i)[k];
            is_part(p.subrange(s.0, s.1))
        }),
    decreases p.len() - i,
{
    text::lemma_run_end(p, SEP, i);
    let e = text::run_end(p, SEP, i);
    if is_part(p.subrange(i, e)) {
        if k > 0 {
            lemma_span_part(p, e + 1, k - 1);
        }
    } else {
        lemma_span_part(p, e + 1, k);
    }
}

/// Names that are joined are the components of the result, which is relative.
pub proof fn lemma_join_names(names: Seq<Seq<u8>>)
    requires
        names.len() > 0,
        forall|k: int| 0 <= k < names.len() ==> is_plain(#[trigger] names[k]),
    ensures
        join_names(names).len() > 0,
        !is_absolute(join_names(names)),
        !starts_with_dot(join_names(names)),
        join_names(names).last() != SEP,
        components(join_names(names)) == names,
    decreases names.len(),
{
    let c = names.last();
    assert(is_plain(c));
    assert forall|j: int| 0 <= j < c.len() implies c[j] != SEP by {
        assert(c.contains(c[j]));
    }
    assert(!starts_with_dot(c)) by {
        if starts_with_dot(c) {
            assert(c =~= seq![DOT]);
        }
    }
    text::lemma_run_end_is(c, SEP, 0, c.len() as int);
    assert(c.subrange(0, c.len() as int) =~= c);
    assert(spans(c) =~= seq![(0int, c.len() as int)]);
    assert(components(c) =~= seq![c]);
    if names.len() == 1 {
        assert(names =~= seq![c]);
    } else {
        let front = names.drop_last();
        assert forall|k: int| 0 <= k < front.len() implies is_plain(#[trigger] front[k]) by {
            assert(is_plain(names[k]));
        }
        lemma_join_names(front);
        let stem = join_names(front);
        assert(join_names(names) == join(stem, c));
        lemma_join_components(stem, c);
        assert(front + seq![c] =~= names);
        let w = join_names(names);
        assert(w[0] == stem[0]);
        assert(w.last() == c.last());
        if starts_with_dot(w) {
            if stem.len() == 1 {
                assert(starts_with_dot(stem));
            } else {
                assert(w[1] == stem[1]);
                assert(starts_with_dot(stem));
            }
        }
    }
}

} // verus!
