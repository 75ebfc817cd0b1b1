use vstd::prelude::*;
use std::ops::Range;
use crate::buffer::{Buffer, BufferView, buffers_view, find_buffer, snapshot_of, lemma_snapshot_of_absent, lemma_snapshot_of_index, lemma_snapshot_of_push, lemma_snapshot_of_update};
use crate::excerpts::{all_fit, clip, coverage, cut_buffer, fits, keys_view, lemma_coverage_push, lemma_coverage_within, merge_one, points, recapture, well_formed};
use crate::key::{BufferId, ExcerptKey, KeyView, clone_path, path_view, paths_equal};

verus! {

/// The text that a run of excerpts shows: each excerpt's range of its buffer's
/// text, each preceded by a newline.
pub open spec fn emitted(ks: Seq<KeyView>, snaps: Seq<BufferView>) -> Seq<char>
    decreases ks.len(),
{
    if ks.len() == 0 {
        Seq::empty()
    } else {
        let k = ks.last();
        emitted(ks.drop_last(), snaps) + seq!['\n'] + snapshot_of(snaps, k.buffer_id).unwrap().text.subrange(
            k.start,
            k.end,
        )
    }
}

/// The summed length of the excerpts' ranges.
pub open spec fn total_len(ks: Seq<KeyView>) -> int
    decreases ks.len(),
{
    if ks.len() == 0 {
        0
    } else {
        total_len(ks.drop_last()) + (ks.last().end - ks.last().start)
    }
}

/// No two buffers of the list share an id.
pub open spec fn unique_ids(bs: Seq<BufferView>) -> bool {
    forall|i: int, j: int| 0 <= i < j < bs.len() ==> (#[trigger] bs[i]).id != (#[trigger] bs[j]).id
}

/// The positions that a batch of (buffer, range) pairs asks for.
pub open spec fn batch_points(batch: Seq<(Buffer, Range<usize>)>) -> Set<(BufferId, int)> {
    Set::new(
        |q: (BufferId, int)|
            exists|i: int|
                0 <= i < batch.len() && (#[trigger] batch[i]).0@.id == q.0 && batch[i].1.start <= q.1
                    < batch[i].1.end,
    )
}

/// The summed length of the ranges, saturating at the largest `usize`.
pub open spec fn saturated_len(ks: Seq<KeyView>) -> int {
    if total_len(ks) <= usize::MAX {
        total_len(ks)
    } else {
        usize::MAX as int
    }
}

/// A position in a snapshot, as a count of characters.
pub trait ToOffset {
    spec fn offset_view(&self) -> int;

    /// The position as an offset; it must not lie past the snapshot's length.
    fn to_offset(&self, snapshot: &MultiBufferSnapshot) -> (r: usize)
        requires
            snapshot.wf(),
            self.offset_view() <= saturated_len(snapshot.keys()),
        ensures
            r == self.offset_view(),
    ;
}

impl ToOffset for usize {
    open spec fn offset_view(&self) -> int {
        *self as int
    }

    fn to_offset(&self, snapshot: &MultiBufferSnapshot) -> (r: usize) {
        *self
    }
}

/// An immutable view of the index: the sorted excerpts, and the last seen
/// state of each tracked buffer.
#[derive(Clone)]
pub struct MultiBufferSnapshot {
    excerpts: Vec<ExcerptKey>,
    buffer_snapshots: Vec<Buffer>,
}

impl MultiBufferSnapshot {
    pub closed spec fn keys(&self) -> Seq<KeyView> {
        keys_view(self.excerpts@)
    }

    pub closed spec fn cache(&self) -> Seq<BufferView> {
        buffers_view(self.buffer_snapshots@)
    }

    /// Excerpts are strictly ordered, disjoint per buffer, and each lies
    /// within the cached text of its buffer, under that buffer's path.
    pub open spec fn wf(&self) -> bool {
        well_formed(self.keys()) && all_fit(self.keys(), self.cache())
    }

    pub fn empty() -> (r: MultiBufferSnapshot)
        ensures
            r.wf(),
            r.keys().len() == 0,
            r.cache().len() == 0,
    {
        let r = MultiBufferSnapshot { excerpts: Vec::new(), buffer_snapshots: Vec::new() };
        assert(r.keys() =~= Seq::empty());
        r
    }

    /// The excerpts' keys, in order.
    pub fn excerpts(&self) -> (r: &Vec<ExcerptKey>)
        ensures
            keys_view(r@) == self.keys(),
    {
        &self.excerpts
    }

    /// The total length of the excerpts' ranges, saturating at the largest
    /// `usize`.
    pub fn len(&self) -> (r: usize)
        requires
            self.wf(),
        ensures
            r == saturated_len(self.keys()),
    {
        let ghost ks = self.keys();
        let mut acc: usize = 0;
        let mut i: usize = 0;
        assert(ks.subrange(0, 0) =~= Seq::<KeyView>::empty());
        while i < self.excerpts.len()
            invariant
                ks == self.keys(),
                well_formed(ks),
                i <= ks.len(),
                acc == if total_len(ks.subrange(0, i as int)) <= usize::MAX {
                    total_len(ks.subrange(0, i as int))
                } else {
                    usize::MAX as int
                },
                total_len(ks.subrange(0, i as int)) >= 0,
            decreases ks.len() - i,
        {
            let ghost k = ks[i as int];
            assert(ks.subrange(0, i + 1).drop_last() =~= ks.subrange(0, i as int));
            assert(k == self.excerpts@[i as int]@);
            let l = self.excerpts[i].end - self.excerpts[i].start;
            if acc > usize::MAX - l {
                acc = usize::MAX;
            } else {
                acc = acc + l;
            }
            i = i + 1;
        }
        assert(ks.subrange(0, ks.len() as int) =~= ks);
        acc
    }

    /// The shown text: every excerpt's text, each preceded by a newline.
    pub fn text(&self) -> (r: String)
        requires
            self.wf(),
        ensures
            r@ == emitted(self.keys(), self.cache()),
    {
        let ghost ks = self.keys();
        let mut r = String::new();
        let mut i: usize = 0;
        assert(ks.subrange(0, 0) =~= Seq::<KeyView>::empty());
        while i < self.excerpts.len()
            invariant
                ks == self.keys(),
                self.wf(),
                i <= ks.len(),
                r@ == emitted(ks.subrange(0, i as int), self.cache()),
            decreases ks.len() - i,
        {
            let ghost k = ks[i as int];
            assert(ks.subrange(0, i + 1).drop_last() =~= ks.subrange(0, i as int));
            assert(k == self.excerpts@[i as int]@);
            assert(fits(k, self.cache()));
            let key = &self.excerpts[i];
            match find_buffer(&self.buffer_snapshots, key.buffer_id) {
                Some(j) => {
                    assert(self.keys()[i as int] == k);
                    assert(0 <= k.start < k.end);
                    assert(snapshot_of(self.cache(), k.buffer_id) == Some(self.buffer_snapshots@[j as int]@));
                    assert(k.end <= self.buffer_snapshots@[j as int]@.text.len());
                    let t = self.buffer_snapshots[j].text();
                    proof {
                        reveal_strlit("\n");
                    }
                    r.append("\n");
                    r.append(t.as_str().substring_char(key.start, key.end));
                },
                None => {},
            }
            i = i + 1;
        }
        assert(ks.subrange(0, ks.len() as int) =~= ks);
        r
    }

    /// A copy of the snapshot.
    pub fn duplicate(&self) -> (r: MultiBufferSnapshot)
        ensures
            r.keys() == self.keys(),
            r.cache() == self.cache(),
    {
        let mut excerpts: Vec<ExcerptKey> = Vec::new();
        let mut i: usize = 0;
        while i < self.excerpts.len()
            invariant
                i <= self.excerpts@.len(),
                excerpts@.len() == i,
                forall|k: int| 0 <= k < i ==> (#[trigger] excerpts@[k])@ == self.excerpts@[k]@,
            decreases self.excerpts@.len() - i,
        {
            excerpts.push(self.excerpts[i].clone_key());
            i = i + 1;
        }
        let mut buffers: Vec<Buffer> = Vec::new();
        let mut i: usize = 0;
        while i < self.buffer_snapshots.len()
            invariant
                i <= self.buffer_snapshots@.len(),
                buffers@.len() == i,
                forall|k: int| 0 <= k < i ==> (#[trigger] buffers@[k])@ == self.buffer_snapshots@[k]@,
            decreases self.buffer_snapshots@.len() - i,
        {
            buffers.push(self.buffer_snapshots[i].snapshot());
            i = i + 1;
        }
        assert(keys_view(excerpts@) =~= keys_view(self.excerpts@));
        assert(buffers_view(buffers@) =~= buffers_view(self.buffer_snapshots@));
        MultiBufferSnapshot { excerpts, buffer_snapshots: buffers }
    }
}

/// The cache and the live list find the same buffer state for every id.
pub open spec fn synced(live: Seq<BufferView>, cache: Seq<BufferView>) -> bool {
    forall|id: BufferId| #[trigger] snapshot_of(cache, id) == snapshot_of(live, id)
}

/// The owner of the index: the current snapshot, and the live state of every
/// buffer that excerpts were taken from.
pub struct MultiBuffer {
    snapshot: MultiBufferSnapshot,
    buffers: Vec<Buffer>,
}

impl MultiBuffer {
    pub closed spec fn keys(&self) -> Seq<KeyView> {
        self.snapshot.keys()
    }

    pub closed spec fn cache(&self) -> Seq<BufferView> {
        self.snapshot.cache()
    }

    pub closed spec fn live(&self) -> Seq<BufferView> {
        buffers_view(self.buffers@)
    }

    /// The snapshot is well formed, live buffers have distinct ids, and only
    /// live buffers are cached.
    pub open spec fn wf(&self) -> bool {
        &&& well_formed(self.keys())
        &&& all_fit(self.keys(), self.cache())
        &&& unique_ids(self.live())
        &&& forall|id: BufferId| #[trigger] snapshot_of(self.cache(), id) is Some ==> snapshot_of(self.live(), id) is Some
    }

    /// An index with no excerpts and no buffers.
    pub fn new() -> (r: MultiBuffer)
        ensures
            r.wf(),
            r.keys().len() == 0,
            r.cache().len() == 0,
            r.live().len() == 0,
    {
        let r = MultiBuffer { snapshot: MultiBufferSnapshot::empty(), buffers: Vec::new() };
        assert(r.live() =~= Seq::empty());
        r
    }

    /// Hands in the current state of a tracked buffer (an edit or a move made
    /// outside); an untracked buffer is ignored. The index catches up on the
    /// next `snapshot` or `insert_excerpts`.
    pub fn update_buffer(&mut self, buffer: Buffer)
        requires
            old(self).wf(),
        ensures
            final(self).wf(),
            final(self).keys() == old(self).keys(),
            final(self).cache() == old(self).cache(),
            forall|id: BufferId| #[trigger] snapshot_of(final(self).live(), id) == if id == buffer@.id
                && snapshot_of(old(self).live(), id) is Some {
                Some(buffer@)
            } else {
                snapshot_of(old(self).live(), id)
            },
    {
        let ghost prev = self.live();
        match find_buffer(&self.buffers, buffer.id()) {
            Some(j) => {
                assert(prev[j as int] == self.buffers@[j as int]@);
                self.buffers.set(j, buffer);
                proof {
                    assert(self.live() =~= prev.update(j as int, buffer@));
                    assert forall|id: BufferId| #[trigger] snapshot_of(self.live(), id) == if id == buffer@.id {
                        Some(buffer@)
                    } else {
                        snapshot_of(prev, id)
                    } by {
                        lemma_snapshot_of_update(prev, j as int, buffer@, id);
                    }
                    assert forall|a: int, c: int| 0 <= a < c < self.live().len() implies (
                        #[trigger] self.live()[a]).id != (#[trigger] self.live()[c]).id by {
                        assert(prev[a].id != prev[c].id);
                    }
                }
            },
            None => {},
        }
    }

    /// Re-captures one buffer's excerpts after it moved or changed, and
    /// caches its new state.
    fn relocate_buffer(&mut self, j: usize, live: &Buffer)
        requires
            old(self).wf(),
            j < old(self).cache().len(),
            old(self).cache()[j as int].id == live@.id,
            forall|k: int| 0 <= k < j ==> old(self).cache()[k].id != live@.id,
            snapshot_of(old(self).cache(), live@.id) is Some,
        ensures
            final(self).wf(),
            final(self).live() == old(self).live(),
            final(self).cache() == old(self).cache().update(j as int, live@),
            forall|id: BufferId| #[trigger] snapshot_of(final(self).cache(), id) == if id == live@.id {
                Some(live@)
            } else {
                snapshot_of(old(self).cache(), id)
            },
            coverage(final(self).keys()) == cut_buffer(
                live@.id,
                live@.text.len() as int,
                coverage(old(self).keys()),
            ),
    {
        let ghost old_cache = self.cache();
        let ghost new_cache = old_cache.update(j as int, live@);
        proof {
            assert forall|id: BufferId| #[trigger] snapshot_of(new_cache, id) == if id == live@.id {
                Some(live@)
            } else {
                snapshot_of(old_cache, id)
            } by {
                lemma_snapshot_of_update(old_cache, j as int, live@, id);
            }
        }
        let snap = live.snapshot();
        let excerpts = recapture(
            &self.snapshot.excerpts,
            live.id(),
            live.path(),
            live.len(),
            Ghost(old_cache),
            Ghost(new_cache),
        );
        self.snapshot.excerpts = excerpts;
        self.snapshot.buffer_snapshots.set(j, snap);
        assert(self.cache() =~= new_cache);
    }

    /// Brings the cache up to date with every live buffer: a buffer seen for
    /// the first time is cached; one whose path, version or text changed has
    /// its excerpts moved to its new path and cut to its new length, and its
    /// new state cached.
    fn sync(&mut self)
        requires
            old(self).wf(),
        ensures
            final(self).wf(),
            final(self).live() == old(self).live(),
            synced(final(self).live(), final(self).cache()),
            coverage(final(self).keys()) == clip(coverage(old(self).keys()), final(self).cache()),
    {
        let ghost old_keys = self.keys();
        let ghost old_cache = self.cache();
        let ghost live = self.live();
        proof {
            lemma_coverage_within(old_keys, old_cache);
        }
        let n = self.buffers.len();
        let mut i: usize = 0;
        while i < n
            invariant
                n == live.len(),
                i <= n,
                self.wf(),
                self.live() == live,
                clip(coverage(old_keys), old_cache) == coverage(old_keys),
                forall|k: int| 0 <= k < i ==> #[trigger] snapshot_of(self.cache(), live[k].id) == Some(live[k]),
                forall|k: int| i <= k < n ==> #[trigger] snapshot_of(self.cache(), live[k].id) == snapshot_of(old_cache, live[k].id),
                coverage(self.keys()) == clip(coverage(old_keys), self.cache()),
            decreases n - i,
        {
            let ghost cache = self.cache();
            let ghost b = live[i as int];
            assert(b == self.buffers@[i as int]@);
            let id = self.buffers[i].id();
            match find_buffer(&self.snapshot.buffer_snapshots, id) {
                None => {
                    let snap = self.buffers[i].snapshot();
                    self.snapshot.buffer_snapshots.push(snap);
                    proof {
                        assert(self.cache() =~= cache.push(b));
                        assert forall|id2: BufferId| #[trigger] snapshot_of(self.cache(), id2) == if id2 == b.id {
                            Some(b)
                        } else {
                            snapshot_of(cache, id2)
                        } by {
                            lemma_snapshot_of_push(cache, b, id2);
                        }
                        lemma_snapshot_of_index(live, i as int);
                        assert forall|k: int| 0 <= k < self.keys().len() implies fits(#[trigger] self.keys()[k], self.cache()) by {
                            assert(fits(self.keys()[k], cache));
                        }
                        assert forall|k: int| 0 <= k < i + 1 implies #[trigger] snapshot_of(self.cache(), live[k].id) == Some(live[k]) by {
                            if k < i {
                                assert(live[k].id != b.id);
                            }
                        }
                        assert forall|k: int| i + 1 <= k < n implies #[trigger] snapshot_of(self.cache(), live[k].id) == snapshot_of(old_cache, live[k].id) by {
                            assert(live[k].id != b.id);
                        }
                        assert(coverage(self.keys()) =~= clip(coverage(old_keys), self.cache()));
                    }
                },
                Some(j) => {
                    let same_path = paths_equal(self.snapshot.buffer_snapshots[j].path(), self.buffers[i].path());
                    let same_version = self.snapshot.buffer_snapshots[j].version() == self.buffers[i].version();
                    let same_text = self.snapshot.buffer_snapshots[j].text().eq(self.buffers[i].text());
                    if !(same_path && same_version && same_text) {
                        let live_buffer = self.buffers[i].snapshot();
                        self.relocate_buffer(j, &live_buffer);
                        proof {
                            lemma_snapshot_of_index(live, i as int);
                            assert forall|k: int| 0 <= k < i + 1 implies #[trigger] snapshot_of(self.cache(), live[k].id) == Some(live[k]) by {
                                if k < i {
                                    assert(live[k].id != b.id);
                                }
                            }
                            assert forall|k: int| i + 1 <= k < n implies #[trigger] snapshot_of(self.cache(), live[k].id) == snapshot_of(old_cache, live[k].id) by {
                                assert(live[k].id != b.id);
                            }
                            assert(snapshot_of(cache, b.id) == snapshot_of(old_cache, b.id));
                            assert forall|q: (BufferId, int)| #[trigger] coverage(self.keys()).contains(q) == clip(coverage(old_keys), self.cache()).contains(q) by {
                                if coverage(old_keys).contains(q) {
                                    assert(clip(coverage(old_keys), old_cache).contains(q));
                                }
                            }
                            assert(coverage(self.keys()) =~= clip(coverage(old_keys), self.cache()));
                        }
                    } else {
                        proof {
                            let c = self.snapshot.buffer_snapshots@[j as int]@;
                            assert(c == self.cache()[j as int]);
                            assert(c.id == b.id);
                            assert(c == b);
                        }
                    }
                },
            }
            i = i + 1;
        }
        proof {
            assert forall|id: BufferId| #[trigger] snapshot_of(self.cache(), id) == snapshot_of(self.live(), id) by {
                if exists|k: int| 0 <= k < n && live[k].id == id {
                    let k = choose|k: int| 0 <= k < n && live[k].id == id;
                    lemma_snapshot_of_index(live, k);
                } else {
                    lemma_snapshot_of_absent(live, id);
                }
            }
        }
    }

    /// Registers each pair's buffer as live, in the state given.
    fn register_buffers(&mut self, new_excerpts: &Vec<(Buffer, Range<usize>)>)
        requires
            old(self).wf(),
            forall|i: int, j: int|
                0 <= i < new_excerpts@.len() && 0 <= j < new_excerpts@.len() && (
                #[trigger] new_excerpts@[i]).0@.id == (#[trigger] new_excerpts@[j]).0@.id
                    ==> new_excerpts@[i].0@ == new_excerpts@[j].0@,
        ensures
            final(self).wf(),
            final(self).keys() == old(self).keys(),
            final(self).cache() == old(self).cache(),
            forall|i: int|
                0 <= i < new_excerpts@.len() ==> snapshot_of(final(self).live(), (#[trigger] new_excerpts@[i]).0@.id)
                    == Some(new_excerpts@[i].0@),
            forall|id: BufferId|
                (forall|i: int| 0 <= i < new_excerpts@.len() ==> (#[trigger] new_excerpts@[i]).0@.id != id)
                    ==> #[trigger] snapshot_of(final(self).live(), id) == snapshot_of(old(self).live(), id),
    {
        let mut i: usize = 0;
        while i < new_excerpts.len()
            invariant
                i <= new_excerpts@.len(),
                self.wf(),
                self.keys() == old(self).keys(),
                self.cache() == old(self).cache(),
                forall|a: int, c: int|
                    0 <= a < new_excerpts@.len() && 0 <= c < new_excerpts@.len() && (
                    #[trigger] new_excerpts@[a]).0@.id == (#[trigger] new_excerpts@[c]).0@.id
                        ==> new_excerpts@[a].0@ == new_excerpts@[c].0@,
                forall|k: int|
                    0 <= k < i ==> snapshot_of(self.live(), (#[trigger] new_excerpts@[k]).0@.id)
                        == Some(new_excerpts@[k].0@),
                forall|id: BufferId|
                    (forall|k: int| 0 <= k < i ==> (#[trigger] new_excerpts@[k]).0@.id != id)
                        ==> #[trigger] snapshot_of(self.live(), id) == snapshot_of(old(self).live(), id),
            decreases new_excerpts@.len() - i,
        {
            let ghost prev = self.live();
            let b = &new_excerpts[i].0;
            let snap = b.snapshot();
            match find_buffer(&self.buffers, b.id()) {
                Some(j) => {
                    assert(prev[j as int] == self.buffers@[j as int]@);
                    self.buffers.set(j, snap);
                    proof {
                        assert(self.live() =~= prev.update(j as int, b@));
                        assert forall|id: BufferId| #[trigger] snapshot_of(self.live(), id) == if id == b@.id {
                            Some(b@)
                        } else {
                            snapshot_of(prev, id)
                        } by {
                            lemma_snapshot_of_update(prev, j as int, b@, id);
                        }
                        assert forall|a: int, c: int| 0 <= a < c < self.live().len() implies (
                            #[trigger] self.live()[a]).id != (#[trigger] self.live()[c]).id by {
                            assert(prev[a].id != prev[c].id);
                        }
                    }
                },
                None => {
                    self.buffers.push(snap);
                    proof {
                        assert(self.live() =~= prev.push(b@));
                        assert forall|k: int| 0 <= k < prev.len() implies prev[k].id != b@.id by {
                            assert(prev[k] == self.buffers@[k]@);
                        }
                        assert(unique_ids(self.live()));
                        assert forall|id: BufferId| #[trigger] snapshot_of(self.live(), id) == if id == b@.id {
                            Some(b@)
                        } else {
                            snapshot_of(prev, id)
                        } by {
                            lemma_snapshot_of_push(prev, b@, id);
                        }
                    }
                },
            }
            proof {
                assert forall|k: int| 0 <= k < i + 1 implies snapshot_of(self.live(), (#[trigger] new_excerpts@[k]).0@.id)
                    == Some(new_excerpts@[k].0@) by {
                    if new_excerpts@[k].0@.id == b@.id {
                        assert(new_excerpts@[k].0@ == new_excerpts@[i as int].0@);
                    }
                }
                assert forall|id: BufferId|
                    (forall|k: int| 0 <= k < i + 1 ==> (#[trigger] new_excerpts@[k]).0@.id != id)
                    implies #[trigger] snapshot_of(self.live(), id) == snapshot_of(old(self).live(), id) by {
                    assert(new_excerpts@[i as int].0@.id != id);
                    assert forall|k: int| 0 <= k < i implies (#[trigger] new_excerpts@[k]).0@.id != id by {}
                }
            }
            i = i + 1;
        }
    }

    /// Adds excerpts for the given (buffer, range) pairs, in character
    /// offsets of each buffer's text. Empty or reversed ranges are dropped.
    /// Each pair's buffer becomes live in the state given, and the index
    /// first catches up with every live buffer; afterwards it covers what it
    /// covered before (cut to the current buffer lengths) and every requested
    /// range, merged into disjoint, ordered excerpts.
    pub fn insert_excerpts(&mut self, new_excerpts: Vec<(Buffer, Range<usize>)>)
        requires
            old(self).wf(),
            forall|i: int|
                0 <= i < new_excerpts@.len() ==> (#[trigger] new_excerpts@[i]).1.start
                    <= new_excerpts@[i].0@.text.len() && new_excerpts@[i].1.end
                    <= new_excerpts@[i].0@.text.len(),
            forall|i: int, j: int|
                0 <= i < new_excerpts@.len() && 0 <= j < new_excerpts@.len() && (
                #[trigger] new_excerpts@[i]).0@.id == (#[trigger] new_excerpts@[j]).0@.id
                    ==> new_excerpts@[i].0@ == new_excerpts@[j].0@,
        ensures
            final(self).wf(),
            synced(final(self).live(), final(self).cache()),
            forall|i: int|
                0 <= i < new_excerpts@.len() ==> snapshot_of(final(self).live(), (#[trigger] new_excerpts@[i]).0@.id)
                    == Some(new_excerpts@[i].0@),
            forall|id: BufferId|
                (forall|i: int| 0 <= i < new_excerpts@.len() ==> (#[trigger] new_excerpts@[i]).0@.id != id)
                    ==> #[trigger] snapshot_of(final(self).live(), id) == snapshot_of(old(self).live(), id),
            coverage(final(self).keys()) == clip(coverage(old(self).keys()), final(self).cache()).union(
                batch_points(new_excerpts@),
            ),
    {
        self.register_buffers(&new_excerpts);
        self.sync();
        let ghost base = coverage(self.keys());
        let ghost cache = self.cache();
        let ghost live = self.live();
        let ghost batch = new_excerpts@;
        let mut i: usize = 0;
        assert(batch_points(batch.subrange(0, 0)) =~= Set::empty());
        while i < new_excerpts.len()
            invariant
                batch == new_excerpts@,
                i <= batch.len(),
                self.wf(),
                self.cache() == cache,
                self.live() == live,
                synced(live, cache),
                forall|k: int|
                    0 <= k < new_excerpts@.len() ==> snapshot_of(live, (#[trigger] new_excerpts@[k]).0@.id)
                        == Some(new_excerpts@[k].0@),
                forall|k: int|
                    0 <= k < new_excerpts@.len() ==> snapshot_of(cache, (#[trigger] new_excerpts@[k]).0@.id)
                        == Some(new_excerpts@[k].0@),
                forall|k: int|
                    0 <= k < batch.len() ==> (#[trigger] batch[k]).1.start <= batch[k].0@.text.len()
                        && batch[k].1.end <= batch[k].0@.text.len(),
                coverage(self.keys()) == base.union(batch_points(batch.subrange(0, i as int))),
            decreases batch.len() - i,
        {
            let ghost prev = coverage(self.keys());
            let b = &new_excerpts[i].0;
            let start = new_excerpts[i].1.start;
            let end = new_excerpts[i].1.end;
            let ghost bi = batch[i as int];
            proof {
                assert(bi == new_excerpts@[i as int]);
                assert(snapshot_of(cache, bi.0@.id) == Some(bi.0@));
            }
            if start < end {
                let key = ExcerptKey { path: clone_path(b.path()), buffer_id: b.id(), start, end };
                let excerpts = merge_one(&self.snapshot.excerpts, key, Ghost(cache));
                self.snapshot.excerpts = excerpts;
                proof {
                    assert forall|q: (BufferId, int)| #[trigger] batch_points(batch.subrange(0, i + 1)).contains(q)
                        == batch_points(batch.subrange(0, i as int)).union(points(key@)).contains(q) by {
                        if batch_points(batch.subrange(0, i + 1)).contains(q) {
                            let w = choose|w: int| 0 <= w < i + 1 && (#[trigger] batch.subrange(0, i + 1)[w]).0@.id == q.0
                                && batch.subrange(0, i + 1)[w].1.start <= q.1 < batch.subrange(0, i + 1)[w].1.end;
                            if w < i {
                                assert(batch.subrange(0, i as int)[w] == batch.subrange(0, i + 1)[w]);
                            }
                        }
                        if batch_points(batch.subrange(0, i as int)).contains(q) {
                            let w = choose|w: int| 0 <= w < i && (#[trigger] batch.subrange(0, i as int)[w]).0@.id == q.0
                                && batch.subrange(0, i as int)[w].1.start <= q.1 < batch.subrange(0, i as int)[w].1.end;
                            assert(batch.subrange(0, i as int)[w] == batch.subrange(0, i + 1)[w]);
                        }
                        if points(key@).contains(q) {
                            assert(batch.subrange(0, i + 1)[i as int] == bi);
                        }
                    }
                    assert(batch_points(batch.subrange(0, i + 1)) =~= batch_points(batch.subrange(0, i as int)).union(points(key@)));
                    assert(coverage(self.keys()) =~= base.union(batch_points(batch.subrange(0, i + 1))));
                }
            } else {
                proof {
                    assert forall|q: (BufferId, int)| #[trigger] batch_points(batch.subrange(0, i + 1)).contains(q)
                        == batch_points(batch.subrange(0, i as int)).contains(q) by {
                        if batch_points(batch.subrange(0, i + 1)).contains(q) {
                            let w = choose|w: int| 0 <= w < i + 1 && (#[trigger] batch.subrange(0, i + 1)[w]).0@.id == q.0
                                && batch.subrange(0, i + 1)[w].1.start <= q.1 < batch.subrange(0, i + 1)[w].1.end;
                            if w < i {
                                assert(batch.subrange(0, i as int)[w] == batch.subrange(0, i + 1)[w]);
                            }
                        }
                        if batch_points(batch.subrange(0, i as int)).contains(q) {
                            let w = choose|w: int| 0 <= w < i && (#[trigger] batch.subrange(0, i as int)[w]).0@.id == q.0
                                && batch.subrange(0, i as int)[w].1.start <= q.1 < batch.subrange(0, i as int)[w].1.end;
                            assert(batch.subrange(0, i as int)[w] == batch.subrange(0, i + 1)[w]);
                        }
                    }
                    assert(batch_points(batch.subrange(0, i + 1)) =~= batch_points(batch.subrange(0, i as int)));
                }
            }
            i = i + 1;
        }
        assert(batch.subrange(0, batch.len() as int) =~= batch);
    }

    /// Catches up with every live buffer and returns a copy of the current
    /// snapshot.
    pub fn snapshot(&mut self) -> (r: MultiBufferSnapshot)
        requires
            old(self).wf(),
        ensures
            final(self).wf(),
            final(self).live() == old(self).live(),
            synced(final(self).live(), final(self).cache()),
            coverage(final(self).keys()) == clip(coverage(old(self).keys()), final(self).cache()),
            r.wf(),
            r.keys() == final(self).keys(),
            r.cache() == final(self).cache(),
    {
        self.sync();
        self.snapshot.duplicate()
    }
}

} // verus!
