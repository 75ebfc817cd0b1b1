use vstd::prelude::*;
use std::cmp::Ordering;

verus! {

/// Identity of a source buffer: its remote id and the replica that holds it.
#[derive(Clone, Copy, Debug, PartialEq, Eq, Structural)]
pub struct BufferId {
    pub remote_id: u64,
    pub replica_id: u16,
}

/// A logical path, as the characters of its text.
pub type PathView = Option<Seq<char>>;

/// The mathematical value of an excerpt key.
pub ghost struct KeyView {
    pub path: PathView,
    pub buffer_id: BufferId,
    pub start: int,
    pub end: int,
}

/// The ordering and identity key of an excerpt: the buffer's path, the buffer,
/// and a half-open character range of the buffer's text.
#[derive(Clone, Debug)]
pub struct ExcerptKey {
    pub path: Option<String>,
    pub buffer_id: BufferId,
    pub start: usize,
    pub end: usize,
}

pub open spec fn path_view(p: Option<String>) -> PathView {
    match p {
        Some(s) => Some(s@),
        None => None,
    }
}

impl View for ExcerptKey {
    type V = KeyView;

    open spec fn view(&self) -> KeyView {
        KeyView {
            path: path_view(self.path),
            buffer_id: self.buffer_id,
            start: self.start as int,
            end: self.end as int,
        }
    }
}

/// Lexicographic order on character sequences.
pub open spec fn chars_lt(a: Seq<char>, b: Seq<char>) -> bool
    decreases a.len(),
{
    if b.len() == 0 {
        false
    } else if a.len() == 0 {
        true
    } else if a[0] != b[0] {
        (a[0] as int) < (b[0] as int)
    } else {
        chars_lt(a.drop_first(), b.drop_first())
    }
}

/// Absent paths sort before present ones; present ones compare lexically.
pub open spec fn path_lt(a: PathView, b: PathView) -> bool {
    match (a, b) {
        (None, Some(_)) => true,
        (Some(x), Some(y)) => chars_lt(x, y),
        _ => false,
    }
}

pub open spec fn id_lt(a: BufferId, b: BufferId) -> bool {
    a.remote_id < b.remote_id || (a.remote_id == b.remote_id && a.replica_id < b.replica_id)
}

/// The pair (path, buffer) of `a` sorts strictly before that of `b`.
pub open spec fn group_lt(a: KeyView, b: KeyView) -> bool {
    path_lt(a.path, b.path) || (a.path == b.path && id_lt(a.buffer_id, b.buffer_id))
}

pub open spec fn same_group(a: KeyView, b: KeyView) -> bool {
    a.path == b.path && a.buffer_id == b.buffer_id
}

/// The total order on keys: path, then buffer, then start ascending, then the
/// wider range first.
pub open spec fn key_lt(a: KeyView, b: KeyView) -> bool {
    group_lt(a, b) || (same_group(a, b) && (a.start < b.start || (a.start == b.start && a.end
        > b.end)))
}

/// Two keys intersect when they name the same buffer and their closed
/// intervals overlap or touch.
pub open spec fn intersects(a: KeyView, b: KeyView) -> bool {
    a.buffer_id == b.buffer_id && a.start <= b.end && b.start <= a.end
}

pub proof fn lemma_chars_lt_irreflexive(a: Seq<char>)
    ensures
        !chars_lt(a, a),
    decreases a.len(),
{
    if a.len() > 0 {
        lemma_chars_lt_irreflexive(a.drop_first());
    }
}

pub proof fn lemma_chars_lt_transitive(a: Seq<char>, b: Seq<char>, c: Seq<char>)
    requires
        chars_lt(a, b),
        chars_lt(b, c),
    ensures
        chars_lt(a, c),
    decreases a.len(),
{
    if a.len() > 0 && a[0] == b[0] && b[0] == c[0] {
        lemma_chars_lt_transitive(a.drop_first(), b.drop_first(), c.drop_first());
    }
}

pub proof fn lemma_chars_lt_total(a: Seq<char>, b: Seq<char>)
    ensures
        chars_lt(a, b) || a == b || chars_lt(b, a),
    decreases a.len(),
{
    if a.len() > 0 && b.len() > 0 {
        if a[0] == b[0] {
            lemma_chars_lt_total(a.drop_first(), b.drop_first());
            if a.drop_first() == b.drop_first() {
                assert(a == seq![a[0]] + a.drop_first());
                assert(b == seq![b[0]] + b.drop_first());
            }
        } else {
            assert((a[0] as int) != (b[0] as int));
        }
    } else if a.len() == 0 && b.len() == 0 {
        assert(a == b);
    }
}

pub proof fn lemma_group_lt_irreflexive(a: KeyView)
    ensures
        !group_lt(a, a),
{
    if let Some(x) = a.path {
        lemma_chars_lt_irreflexive(x);
    }
}

pub proof fn lemma_group_lt_transitive(a: KeyView, b: KeyView, c: KeyView)
    requires
        group_lt(a, b),
        group_lt(b, c),
    ensures
        group_lt(a, c),
{
    if let (Some(x), Some(y), Some(z)) = (a.path, b.path, c.path) {
        if chars_lt(x, y) && chars_lt(y, z) {
            lemma_chars_lt_transitive(x, y, z);
        }
    }
}

pub proof fn lemma_group_lt_total(a: KeyView, b: KeyView)
    ensures
        group_lt(a, b) || same_group(a, b) || group_lt(b, a),
{
    if let (Some(x), Some(y)) = (a.path, b.path) {
        lemma_chars_lt_total(x, y);
    }
}

pub proof fn lemma_key_lt_transitive(a: KeyView, b: KeyView, c: KeyView)
    requires
        key_lt(a, b),
        key_lt(b, c),
    ensures
        key_lt(a, c),
{
    if group_lt(a, b) && group_lt(b, c) {
        lemma_group_lt_transitive(a, b, c);
    }
}

pub proof fn lemma_key_lt_irreflexive(a: KeyView)
    ensures
        !key_lt(a, a),
{
    lemma_group_lt_irreflexive(a);
}

pub proof fn lemma_key_lt_total(a: KeyView, b: KeyView)
    ensures
        key_lt(a, b) || a == b || key_lt(b, a),
{
    lemma_group_lt_total(a, b);
}

/// Compares two character strings lexically.
fn chars_less(a: &String, b: &String) -> (r: bool)
    ensures
        r == chars_lt(a@, b@),
{
    let la = a.as_str().unicode_len();
    let lb = b.as_str().unicode_len();
    let mut i: usize = 0;
    assert(a@.skip(0) =~= a@);
    assert(b@.skip(0) =~= b@);
    while i < la && i < lb
        invariant
            la == a@.len(),
            lb == b@.len(),
            i <= la,
            i <= lb,
            chars_lt(a@, b@) == chars_lt(a@.skip(i as int), b@.skip(i as int)),
        decreases la - i,
    {
        let ca = a.as_str().get_char(i);
        let cb = b.as_str().get_char(i);
        proof {
            let sa = a@.skip(i as int);
            let sb = b@.skip(i as int);
            assert(sa.drop_first() =~= a@.skip(i + 1));
            assert(sb.drop_first() =~= b@.skip(i + 1));
        }
        if ca != cb {
            return (ca as u32) < (cb as u32);
        }
        i = i + 1;
    }
    i < lb
}

fn paths_less(a: &Option<String>, b: &Option<String>) -> (r: bool)
    ensures
        r == path_lt(path_view(*a), path_view(*b)),
{
    match (a, b) {
        (None, Some(_)) => true,
        (Some(x), Some(y)) => chars_less(x, y),
        _ => false,
    }
}

pub fn paths_equal(a: &Option<String>, b: &Option<String>) -> (r: bool)
    ensures
        r == (path_view(*a) == path_view(*b)),
{
    match (a, b) {
        (None, None) => true,
        (Some(x), Some(y)) => x.eq(y),
        _ => false,
    }
}

pub fn clone_path(p: &Option<String>) -> (r: Option<String>)
    ensures
        path_view(r) == path_view(*p),
{
    match p {
        Some(s) => Some(s.clone()),
        None => None,
    }
}

impl ExcerptKey {
    /// Whether the two keys name the same buffer and their ranges overlap or
    /// touch.
    pub fn intersects(&self, other: &Self) -> (r: bool)
        ensures
            r == intersects(self@, other@),
    {
        self.buffer_id == other.buffer_id && self.start <= other.end && other.start <= self.end
    }

    /// Whether `self` sorts strictly before `other`.
    pub fn less_than(&self, other: &Self) -> (r: bool)
        ensures
            r == key_lt(self@, other@),
    {
        if paths_less(&self.path, &other.path) {
            return true;
        }
        if !paths_equal(&self.path, &other.path) {
            return false;
        }
        let a = self.buffer_id;
        let b = other.buffer_id;
        if a.remote_id != b.remote_id {
            return a.remote_id < b.remote_id;
        }
        if a.replica_id != b.replica_id {
            return a.replica_id < b.replica_id;
        }
        self.start < other.start || (self.start == other.start && self.end > other.end)
    }

    pub fn clone_key(&self) -> (r: ExcerptKey)
        ensures
            r@ == self@,
    {
        ExcerptKey {
            path: clone_path(&self.path),
            buffer_id: self.buffer_id,
            start: self.start,
            end: self.end,
        }
    }
}

/// A point used as a seek target: a path, a buffer, and an offset in it.
#[derive(Clone, Debug)]
pub struct ExcerptOffset {
    pub path: Option<String>,
    pub buffer_id: BufferId,
    pub offset: usize,
}

pub ghost struct OffsetView {
    pub path: PathView,
    pub buffer_id: BufferId,
    pub offset: int,
}

impl View for ExcerptOffset {
    type V = OffsetView;

    open spec fn view(&self) -> OffsetView {
        OffsetView { path: path_view(self.path), buffer_id: self.buffer_id, offset: self.offset as int }
    }
}

pub open spec fn key_cmp(a: KeyView, b: KeyView) -> Ordering {
    if key_lt(a, b) {
        Ordering::Less
    } else if a == b {
        Ordering::Equal
    } else {
        Ordering::Greater
    }
}

/// Where an offset stands against the excerpt a cursor is at: by path, then
/// buffer, then before the excerpt's start (`Less`), past its end
/// (`Greater`) or within it (`Equal`). Past the last excerpt (no key), every
/// offset is `Greater`.
pub open spec fn offset_cmp(o: OffsetView, location: Option<KeyView>) -> Ordering {
    match location {
        None => Ordering::Greater,
        Some(k) => if path_lt(o.path, k.path) {
            Ordering::Less
        } else if o.path != k.path {
            Ordering::Greater
        } else if id_lt(o.buffer_id, k.buffer_id) {
            Ordering::Less
        } else if o.buffer_id != k.buffer_id {
            Ordering::Greater
        } else if o.offset < k.start {
            Ordering::Less
        } else if o.offset > k.end {
            Ordering::Greater
        } else {
            Ordering::Equal
        },
    }
}

pub open spec fn location_view(location: Option<ExcerptKey>) -> Option<KeyView> {
    match location {
        Some(k) => Some(k@),
        None => None,
    }
}

fn ids_less(a: BufferId, b: BufferId) -> (r: bool)
    ensures
        r == id_lt(a, b),
{
    a.remote_id < b.remote_id || (a.remote_id == b.remote_id && a.replica_id < b.replica_id)
}

impl ExcerptKey {
    /// Compares two keys in the key order.
    pub fn cmp(&self, other: &Self) -> (r: Ordering)
        ensures
            r == key_cmp(self@, other@),
    {
        if self.less_than(other) {
            Ordering::Less
        } else if paths_equal(&self.path, &other.path) && self.buffer_id == other.buffer_id
            && self.start == other.start && self.end == other.end {
            Ordering::Equal
        } else {
            Ordering::Greater
        }
    }
}

impl ExcerptOffset {
    /// Compares the offset with the excerpt a cursor is at.
    pub fn cmp(&self, location: &Option<ExcerptKey>) -> (r: Ordering)
        ensures
            r == offset_cmp(self@, location_view(*location)),
    {
        match location {
            None => Ordering::Greater,
            Some(k) => {
                if paths_less(&self.path, &k.path) {
                    Ordering::Less
                } else if !paths_equal(&self.path, &k.path) {
                    Ordering::Greater
                } else if ids_less(self.buffer_id, k.buffer_id) {
                    Ordering::Less
                } else if self.buffer_id != k.buffer_id {
                    Ordering::Greater
                } else if self.offset < k.start {
                    Ordering::Less
                } else if self.offset > k.end {
                    Ordering::Greater
                } else {
                    Ordering::Equal
                }
            },
        }
    }
}

} // verus!
