use vstd::prelude::*;
use crate::buffer::{Buffer, BufferView, snapshot_of};
use std::ops::Range;
use crate::excerpts::{all_fit, clip, coverage, fits, lemma_coverage_within, points, well_formed};
use crate::key::{BufferId, KeyView, intersects, key_lt, lemma_key_lt_irreflexive, lemma_key_lt_transitive};
use crate::multi_buffer::{MultiBuffer, MultiBufferSnapshot, batch_points, emitted, synced};

verus! {

/// `k` is a maximal run of `c`: every position of its range is in `c`, and
/// the positions just before and just after it are not.
pub open spec fn is_run(k: KeyView, c: Set<(BufferId, int)>) -> bool {
    &&& k.start < k.end
    &&& forall|p: int| k.start <= p < k.end ==> #[trigger] c.contains((k.buffer_id, p))
    &&& !c.contains((k.buffer_id, k.start - 1))
    &&& !c.contains((k.buffer_id, k.end))
}

/// A position is covered exactly when some key's range holds it.
pub proof fn lemma_coverage_has(a: Seq<KeyView>, q: (BufferId, int))
    ensures
        coverage(a).contains(q) <==> exists|j: int| 0 <= j < a.len() && #[trigger] points(a[j]).contains(q),
    decreases a.len(),
{
    if a.len() > 0 {
        lemma_coverage_has(a.drop_last(), q);
        if coverage(a.drop_last()).contains(q) {
            let j = choose|j: int| 0 <= j < a.drop_last().len() && #[trigger] points(a.drop_last()[j]).contains(q);
            assert(points(a[j]).contains(q));
        }
        if exists|j: int| 0 <= j < a.len() && #[trigger] points(a[j]).contains(q) {
            let j = choose|j: int| 0 <= j < a.len() && #[trigger] points(a[j]).contains(q);
            if j < a.len() - 1 {
                assert(points(a.drop_last()[j]).contains(q));
            }
        }
    }
}

/// Each excerpt of a well-formed run is a maximal run of what the excerpts cover.
pub proof fn lemma_member_is_run(a: Seq<KeyView>, i: int)
    requires
        well_formed(a),
        0 <= i < a.len(),
    ensures
        is_run(a[i], coverage(a)),
{
    let k = a[i];
    assert forall|p: int| k.start <= p < k.end implies #[trigger] coverage(a).contains((k.buffer_id, p)) by {
        lemma_coverage_has(a, (k.buffer_id, p));
        assert(points(a[i]).contains((k.buffer_id, p)));
    }
    lemma_coverage_has(a, (k.buffer_id, k.start - 1));
    if coverage(a).contains((k.buffer_id, k.start - 1)) {
        let j = choose|j: int| 0 <= j < a.len() && #[trigger] points(a[j]).contains((k.buffer_id, k.start - 1));
        if j < i {
            assert(a[j].end < a[i].start);
        } else if j > i {
            assert(a[i].end < a[j].start);
        }
    }
    lemma_coverage_has(a, (k.buffer_id, k.end));
    if coverage(a).contains((k.buffer_id, k.end)) {
        let j = choose|j: int| 0 <= j < a.len() && #[trigger] points(a[j]).contains((k.buffer_id, k.end));
        if j < i {
            assert(a[j].end < a[i].start);
        } else if j > i {
            assert(a[i].end < a[j].start);
        }
    }
}

/// A maximal run of what a well-formed run covers is the range of one of its
/// excerpts.
pub proof fn lemma_run_is_member(a: Seq<KeyView>, k: KeyView) -> (j: int)
    requires
        well_formed(a),
        is_run(k, coverage(a)),
    ensures
        0 <= j < a.len(),
        a[j].buffer_id == k.buffer_id,
        a[j].start == k.start,
        a[j].end == k.end,
{
    let id = k.buffer_id;
    assert(coverage(a).contains((id, k.start)));
    lemma_coverage_has(a, (id, k.start));
    let j = choose|j: int| 0 <= j < a.len() && #[trigger] points(a[j]).contains((id, k.start));
    if a[j].start < k.start {
        assert(points(a[j]).contains((id, k.start - 1)));
        lemma_coverage_has(a, (id, k.start - 1));
    }
    if a[j].end < k.end {
        let e = a[j].end;
        assert(coverage(a).contains((id, e)));
        lemma_coverage_has(a, (id, e));
        let m = choose|m: int| 0 <= m < a.len() && #[trigger] points(a[m]).contains((id, e));
        if m < j {
            assert(a[m].end < a[j].start);
        } else if m > j {
            assert(a[j].end < a[m].start);
        }
    }
    if a[j].end > k.end {
        assert(points(a[j]).contains((id, k.end)));
        lemma_coverage_has(a, (id, k.end));
    }
    j
}

/// Two strictly sorted sequences of the same keys are equal.
pub proof fn lemma_sorted_same_keys(a: Seq<KeyView>, b: Seq<KeyView>)
    requires
        forall|i: int, j: int| 0 <= i < j < a.len() ==> key_lt(#[trigger] a[i], #[trigger] a[j]),
        forall|i: int, j: int| 0 <= i < j < b.len() ==> key_lt(#[trigger] b[i], #[trigger] b[j]),
        forall|x: KeyView| a.contains(x) == b.contains(x),
    ensures
        a == b,
    decreases a.len(),
{
    if a.len() == 0 {
        if b.len() > 0 {
            assert(b.contains(b[0]));
        }
        assert(a =~= b);
    } else if b.len() == 0 {
        assert(a.contains(a[0]));
    } else {
        let x = a.last();
        let y = b.last();
        assert(a.contains(x));
        assert(b.contains(y));
        let i = choose|i: int| 0 <= i < a.len() && a[i] == y;
        let j = choose|j: int| 0 <= j < b.len() && b[j] == x;
        if x != y {
            assert(i < a.len() - 1);
            assert(j < b.len() - 1);
            assert(key_lt(y, x));
            assert(key_lt(x, y));
            lemma_key_lt_transitive(x, y, x);
            lemma_key_lt_irreflexive(x);
        }
        let a2 = a.drop_last();
        let b2 = b.drop_last();
        assert forall|z: KeyView| a2.contains(z) == b2.contains(z) by {
            if a2.contains(z) {
                let p = choose|p: int| 0 <= p < a2.len() && a2[p] == z;
                assert(key_lt(a[p], x));
                lemma_key_lt_irreflexive(x);
                assert(a.contains(z));
                let r = choose|r: int| 0 <= r < b.len() && b[r] == z;
                assert(r != b.len() - 1);
                assert(b2[r] == z);
            }
            if b2.contains(z) {
                let p = choose|p: int| 0 <= p < b2.len() && b2[p] == z;
                assert(key_lt(b[p], y));
                lemma_key_lt_irreflexive(y);
                assert(b.contains(z));
                let r = choose|r: int| 0 <= r < a.len() && a[r] == z;
                assert(r != a.len() - 1);
                assert(a2[r] == z);
            }
        }
        lemma_sorted_same_keys(a2, b2);
        assert(a =~= a2.push(x));
        assert(b =~= b2.push(y));
    }
}

/// Excerpts are determined by what they cover: two well-formed runs that fit
/// the same buffers and cover the same positions are equal.
pub proof fn lemma_coverage_determines_excerpts(a: Seq<KeyView>, b: Seq<KeyView>, snaps: Seq<BufferView>)
    requires
        well_formed(a),
        well_formed(b),
        all_fit(a, snaps),
        all_fit(b, snaps),
        coverage(a) == coverage(b),
    ensures
        a == b,
{
    assert forall|x: KeyView| a.contains(x) implies b.contains(x) by {
        let i = choose|i: int| 0 <= i < a.len() && a[i] == x;
        lemma_member_is_run(a, i);
        let j = lemma_run_is_member(b, x);
        assert(fits(a[i], snaps));
        assert(fits(b[j], snaps));
        assert(b[j] == x);
    }
    assert forall|x: KeyView| b.contains(x) implies a.contains(x) by {
        let i = choose|i: int| 0 <= i < b.len() && b[i] == x;
        lemma_member_is_run(b, i);
        let j = lemma_run_is_member(a, x);
        assert(fits(b[i], snaps));
        assert(fits(a[j], snaps));
        assert(a[j] == x);
    }
    lemma_sorted_same_keys(a, b);
}

/// In a well-formed snapshot, no two consecutive excerpts intersect.
pub proof fn lemma_consecutive_disjoint(s: &MultiBufferSnapshot, i: int)
    requires
        s.wf(),
        0 <= i && i + 1 < s.keys().len(),
    ensures
        !intersects(s.keys()[i], s.keys()[i + 1]),
{
    let ks = s.keys();
    assert(key_lt(ks[i], ks[i + 1]));
    if ks[i].buffer_id == ks[i + 1].buffer_id {
        assert(ks[i].end < ks[i + 1].start);
    }
}

/// In a well-formed snapshot, excerpts are strictly increasing in key order.
pub proof fn lemma_excerpts_increasing(s: &MultiBufferSnapshot, i: int, j: int)
    requires
        s.wf(),
        0 <= i < j < s.keys().len(),
    ensures
        key_lt(s.keys()[i], s.keys()[j]),
{
}

/// Excerpts that fit one list of buffers fit any list that finds the same
/// state for every id.
pub proof fn lemma_fit_same_lookup(ks: Seq<KeyView>, sa: Seq<BufferView>, sb: Seq<BufferView>)
    requires
        all_fit(ks, sa),
        forall|id: BufferId| #[trigger] snapshot_of(sa, id) == snapshot_of(sb, id),
    ensures
        all_fit(ks, sb),
{
    assert forall|i: int| 0 <= i < ks.len() implies fits(#[trigger] ks[i], sb) by {
        assert(fits(ks[i], sa));
        assert(snapshot_of(sa, ks[i].buffer_id) == snapshot_of(sb, ks[i].buffer_id));
    }
}

/// The shown text depends on the buffers only through the state found for
/// each id.
pub proof fn lemma_emitted_same_lookup(ks: Seq<KeyView>, sa: Seq<BufferView>, sb: Seq<BufferView>)
    requires
        forall|id: BufferId| #[trigger] snapshot_of(sa, id) == snapshot_of(sb, id),
    ensures
        emitted(ks, sa) == emitted(ks, sb),
    decreases ks.len(),
{
    if ks.len() > 0 {
        lemma_emitted_same_lookup(ks.drop_last(), sa, sb);
        assert(snapshot_of(sa, ks.last().buffer_id) == snapshot_of(sb, ks.last().buffer_id));
    }
}

/// Insertion order and batching do not matter: two snapshots that find the
/// same buffer state for every id, and whose excerpts cover the same
/// positions, hold the same excerpts and show the same text.
pub proof fn lemma_same_coverage_same_text(a: &MultiBufferSnapshot, b: &MultiBufferSnapshot)
    requires
        a.wf(),
        b.wf(),
        forall|id: BufferId| #[trigger] snapshot_of(a.cache(), id) == snapshot_of(b.cache(), id),
        coverage(a.keys()) == coverage(b.keys()),
    ensures
        a.keys() == b.keys(),
        emitted(a.keys(), a.cache()) == emitted(b.keys(), b.cache()),
{
    lemma_fit_same_lookup(b.keys(), b.cache(), a.cache());
    lemma_coverage_determines_excerpts(a.keys(), b.keys(), a.cache());
    lemma_emitted_same_lookup(a.keys(), a.cache(), b.cache());
}

/// A caught-up index shows, for every id, the live state of that buffer.
pub proof fn lemma_synced_lookup(a: &MultiBuffer, b: &MultiBuffer)
    requires
        synced(a.live(), a.cache()),
        synced(b.live(), b.cache()),
        forall|id: BufferId| #[trigger] snapshot_of(a.live(), id) == snapshot_of(b.live(), id),
    ensures
        forall|id: BufferId| #[trigger] snapshot_of(a.cache(), id) == snapshot_of(b.cache(), id),
{
    assert forall|id: BufferId| #[trigger] snapshot_of(a.cache(), id) == snapshot_of(b.cache(), id) by {
        assert(snapshot_of(a.live(), id) == snapshot_of(b.live(), id));
    }
}

/// Insertion order and batching do not matter: two caught-up indexes over the
/// same live buffers whose excerpts cover the same positions hold the same
/// excerpts and show the same text.
pub proof fn lemma_same_buffers_same_text(a: &MultiBuffer, b: &MultiBuffer)
    requires
        a.wf(),
        b.wf(),
        synced(a.live(), a.cache()),
        synced(b.live(), b.cache()),
        forall|id: BufferId| #[trigger] snapshot_of(a.live(), id) == snapshot_of(b.live(), id),
        coverage(a.keys()) == coverage(b.keys()),
    ensures
        a.keys() == b.keys(),
        emitted(a.keys(), a.cache()) == emitted(b.keys(), b.cache()),
{
    lemma_synced_lookup(a, b);
    lemma_fit_same_lookup(b.keys(), b.cache(), a.cache());
    lemma_coverage_determines_excerpts(a.keys(), b.keys(), a.cache());
    lemma_emitted_same_lookup(a.keys(), a.cache(), b.cache());
}

/// Inserting ranges that the excerpts already cover, into a caught-up index
/// whose buffers did not change, leaves the excerpts and the text as they
/// were. `after` is any state that `insert_excerpts` promises for `batch`.
pub proof fn lemma_covered_insert_unchanged(
    before: &MultiBuffer,
    after: &MultiBuffer,
    batch: Seq<(Buffer, Range<usize>)>,
)
    requires
        before.wf(),
        synced(before.live(), before.cache()),
        forall|i: int| 0 <= i < batch.len() ==> snapshot_of(before.live(), (#[trigger] batch[i]).0@.id) == Some(batch[i].0@),
        batch_points(batch).subset_of(coverage(before.keys())),
        after.wf(),
        synced(after.live(), after.cache()),
        forall|i: int| 0 <= i < batch.len() ==> snapshot_of(after.live(), (#[trigger] batch[i]).0@.id) == Some(batch[i].0@),
        forall|id: BufferId|
            (forall|i: int| 0 <= i < batch.len() ==> (#[trigger] batch[i]).0@.id != id)
                ==> #[trigger] snapshot_of(after.live(), id) == snapshot_of(before.live(), id),
        coverage(after.keys()) == clip(coverage(before.keys()), after.cache()).union(batch_points(batch)),
    ensures
        after.keys() == before.keys(),
        emitted(after.keys(), after.cache()) == emitted(before.keys(), before.cache()),
{
    assert forall|id: BufferId| #[trigger] snapshot_of(after.live(), id) == snapshot_of(before.live(), id) by {
        if exists|i: int| 0 <= i < batch.len() && (#[trigger] batch[i]).0@.id == id {
            let i = choose|i: int| 0 <= i < batch.len() && (#[trigger] batch[i]).0@.id == id;
            assert(snapshot_of(after.live(), batch[i].0@.id) == Some(batch[i].0@));
        }
    }
    lemma_synced_lookup(after, before);
    lemma_fit_same_lookup(before.keys(), before.cache(), after.cache());
    lemma_coverage_within(before.keys(), after.cache());
    assert(coverage(after.keys()) =~= coverage(before.keys()));
    lemma_coverage_determines_excerpts(after.keys(), before.keys(), after.cache());
    lemma_emitted_same_lookup(before.keys(), after.cache(), before.cache());
}

/// Catching up twice with no change in between changes nothing: `after` is
/// any state that `snapshot` promises from the caught-up `before`.
pub proof fn lemma_snapshot_again_unchanged(before: &MultiBuffer, after: &MultiBuffer)
    requires
        before.wf(),
        synced(before.live(), before.cache()),
        after.wf(),
        after.live() == before.live(),
        synced(after.live(), after.cache()),
        coverage(after.keys()) == clip(coverage(before.keys()), after.cache()),
    ensures
        after.keys() == before.keys(),
        emitted(after.keys(), after.cache()) == emitted(before.keys(), before.cache()),
{
    lemma_synced_lookup(after, before);
    lemma_fit_same_lookup(before.keys(), before.cache(), after.cache());
    lemma_coverage_within(before.keys(), after.cache());
    lemma_coverage_determines_excerpts(after.keys(), before.keys(), after.cache());
    lemma_emitted_same_lookup(before.keys(), after.cache(), before.cache());
}

/// Moving buffers to other paths, with the lengths of their texts unchanged,
/// keeps every excerpt's buffer and range: after catching up, each earlier
/// excerpt stands in the index with its buffer's new path, at the place that
/// path gives it in the order.
pub proof fn lemma_rename_keeps_ranges(
    before: Seq<KeyView>,
    old_cache: Seq<BufferView>,
    after: Seq<KeyView>,
    new_cache: Seq<BufferView>,
)
    requires
        well_formed(before),
        all_fit(before, old_cache),
        well_formed(after),
        all_fit(after, new_cache),
        forall|id: BufferId|
            #[trigger] snapshot_of(old_cache, id) matches Some(s) ==> snapshot_of(new_cache, id) matches Some(t)
                && t.text.len() == s.text.len(),
        coverage(after) == clip(coverage(before), new_cache),
    ensures
        coverage(after) == coverage(before),
        forall|i: int|
            0 <= i < before.len() ==> exists|j: int|
                0 <= j < after.len() && (#[trigger] after[j]).buffer_id == (#[trigger] before[i]).buffer_id
                    && after[j].start == before[i].start && after[j].end == before[i].end
                    && after[j].path == snapshot_of(new_cache, before[i].buffer_id).unwrap().path,
{
    lemma_coverage_within(before, old_cache);
    assert forall|q: (BufferId, int)| #[trigger] coverage(after).contains(q) == coverage(before).contains(q) by {
        if coverage(before).contains(q) {
            assert(clip(coverage(before), old_cache).contains(q));
        }
    }
    assert(coverage(after) =~= coverage(before));
    assert forall|i: int| 0 <= i < before.len() implies exists|j: int|
        0 <= j < after.len() && (#[trigger] after[j]).buffer_id == (#[trigger] before[i]).buffer_id
            && after[j].start == before[i].start && after[j].end == before[i].end
            && after[j].path == snapshot_of(new_cache, before[i].buffer_id).unwrap().path by {
        lemma_member_is_run(before, i);
        let j = lemma_run_is_member(after, before[i]);
        assert(fits(after[j], new_cache));
    }
}

} // verus!
