use vstd::prelude::*;
use crate::buffer::{BufferView, snapshot_of};
use crate::key::{BufferId, ExcerptKey, KeyView, clone_path, path_view, group_lt, key_lt, lemma_group_lt_irreflexive, lemma_group_lt_transitive, lemma_key_lt_total, same_group};

verus! {

pub open spec fn keys_view(v: Seq<ExcerptKey>) -> Seq<KeyView> {
    v.map_values(|k: ExcerptKey| k@)
}

/// Excerpts are non-empty, strictly increasing in key order, and the excerpts
/// of one buffer share its path and leave a gap between each other.
pub open spec fn well_formed(ks: Seq<KeyView>) -> bool {
    &&& forall|i: int| 0 <= i < ks.len() ==> 0 <= #[trigger] ks[i].start < ks[i].end
    &&& forall|i: int, j: int| 0 <= i < j < ks.len() ==> key_lt(#[trigger] ks[i], #[trigger] ks[j])
    &&& forall|i: int, j: int|
        0 <= i < j < ks.len() && (#[trigger] ks[i]).buffer_id == (#[trigger] ks[j]).buffer_id
            ==> ks[i].path == ks[j].path && ks[i].end < ks[j].start
}

/// The buffer positions that a key covers.
pub open spec fn points(k: KeyView) -> Set<(BufferId, int)> {
    Set::new(|q: (BufferId, int)| q.0 == k.buffer_id && k.start <= q.1 < k.end)
}

/// The buffer positions that a sequence of keys covers.
pub open spec fn coverage(ks: Seq<KeyView>) -> Set<(BufferId, int)>
    decreases ks.len(),
{
    if ks.len() == 0 {
        Set::empty()
    } else {
        coverage(ks.drop_last()).union(points(ks.last()))
    }
}

/// The key names a buffer of `snaps`, with that buffer's path, and its range
/// lies within that buffer's text.
pub open spec fn fits(k: KeyView, snaps: Seq<BufferView>) -> bool {
    match snapshot_of(snaps, k.buffer_id) {
        Some(s) => s.path == k.path && k.end <= s.text.len(),
        None => false,
    }
}

pub open spec fn all_fit(ks: Seq<KeyView>, snaps: Seq<BufferView>) -> bool {
    forall|i: int| 0 <= i < ks.len() ==> fits(#[trigger] ks[i], snaps)
}

/// `a` belongs at or before the place of `x`: an earlier group, or the same
/// group and a start no later.
pub open spec fn at_or_before(a: KeyView, x: KeyView) -> bool {
    group_lt(a, x) || (same_group(a, x) && a.start <= x.start)
}

pub proof fn lemma_at_or_before_transitive(a: KeyView, b: KeyView, c: KeyView)
    requires
        at_or_before(a, b),
        at_or_before(b, c),
    ensures
        at_or_before(a, c),
{
    if group_lt(a, b) && group_lt(b, c) {
        lemma_group_lt_transitive(a, b, c);
    }
}

pub proof fn lemma_coverage_push(ks: Seq<KeyView>, k: KeyView)
    ensures
        coverage(ks.push(k)) == coverage(ks).union(points(k)),
{
    assert(ks.push(k).drop_last() =~= ks);
}

pub proof fn lemma_coverage_prefix(ks: Seq<KeyView>, i: int)
    requires
        0 <= i < ks.len(),
    ensures
        coverage(ks.subrange(0, i + 1)) == coverage(ks.subrange(0, i)).union(points(ks[i])),
{
    assert(ks.subrange(0, i + 1).drop_last() =~= ks.subrange(0, i));
}

/// Appends `x` to a sorted run, merging it into the last excerpt when the two
/// intersect.
fn push_excerpt(out: &mut Vec<ExcerptKey>, x: ExcerptKey, Ghost(snaps): Ghost<Seq<BufferView>>)
    requires
        well_formed(keys_view(old(out)@)),
        all_fit(keys_view(old(out)@), snaps),
        fits(x@, snaps),
        x.start < x.end,
        forall|i: int| 0 <= i < old(out)@.len() ==> at_or_before(#[trigger] old(out)@[i]@, x@),
    ensures
        well_formed(keys_view(final(out)@)),
        all_fit(keys_view(final(out)@), snaps),
        coverage(keys_view(final(out)@)) == coverage(keys_view(old(out)@)).union(points(x@)),
        forall|i: int|
            0 <= i < final(out)@.len() ==> (i < old(out)@.len() && #[trigger] final(out)@[i]@
                == old(out)@[i]@) || (same_group(final(out)@[i]@, x@) && final(out)@[i]@.start
                <= x@.start),
{
    let ghost o = keys_view(out@);
    let n = out.len();
    if n > 0 && out[n - 1].intersects(&x) {
        let ghost last = o[n - 1];
        let start = out[n - 1].start;
        let end = if out[n - 1].end < x.end {
            x.end
        } else {
            out[n - 1].end
        };
        let merged = ExcerptKey {
            path: clone_path(&out[n - 1].path),
            buffer_id: x.buffer_id,
            start,
            end,
        };
        out.set(n - 1, merged);
        proof {
            let f = keys_view(out@);
            assert(fits(last, snaps));
            assert(same_group(last, x@));
            assert(at_or_before(last, x@));
            assert(f =~= o.update(n - 1, merged@));
            assert forall|i: int, j: int| 0 <= i < j < f.len() implies key_lt(
                #[trigger] f[i],
                #[trigger] f[j],
            ) by {
                assert(key_lt(o[i], o[j]));
                if j == n - 1 && same_group(o[i], last) {
                    assert(o[i].end < last.start);
                }
            }
            lemma_group_lt_irreflexive(x@);
            assert(last.start <= x@.start && x@.start <= last.end);
            assert forall|q: (BufferId, int)| #[trigger] points(merged@).contains(q) == points(
                last,
            ).union(points(x@)).contains(q) by {}
            assert(points(merged@) =~= points(last).union(points(x@)));
            assert(same_group(merged@, x@));
            assert forall|i: int| 0 <= i < n - 1 implies #[trigger] out@[i]@ == o[i] by {
                assert(f[i] == o[i]);
            }
            assert(o =~= o.drop_last().push(last));
            lemma_coverage_push(o.drop_last(), last);
            assert(f =~= o.drop_last().push(merged@));
            lemma_coverage_push(o.drop_last(), merged@);
            assert(coverage(f) =~= coverage(o).union(points(x@)));
        }
    } else {
        out.push(x);
        proof {
            let f = keys_view(out@);
            assert(f =~= o.push(x@));
            lemma_coverage_push(o, x@);
            assert forall|i: int| 0 <= i < n implies #[trigger] out@[i]@ == o[i] by {
                assert(f[i] == o[i]);
            }
            if n > 0 {
                let last = o[n - 1];
                assert(at_or_before(last, x@));
                lemma_group_lt_irreflexive(x@);
                assert forall|i: int| 0 <= i < n && o[i].buffer_id == x.buffer_id implies o[i].end
                    < x.start by {
                    assert(fits(o[i], snaps));
                    if i < n - 1 {
                        assert(key_lt(o[i], last));
                        if group_lt(o[i], last) {
                            if group_lt(last, x@) {
                                lemma_group_lt_transitive(o[i], last, x@);
                            }
                            lemma_group_lt_irreflexive(x@);
                        }
                    }
                }
            }
            assert forall|i: int, j: int| 0 <= i < j < f.len() implies key_lt(
                #[trigger] f[i],
                #[trigger] f[j],
            ) by {
                if j < n {
                    assert(key_lt(o[i], o[j]));
                } else {
                    assert(at_or_before(o[i], x@));
                    assert(fits(o[i], snaps));
                }
            }
            assert forall|i: int, j: int|
                0 <= i < j < f.len() && (#[trigger] f[i]).buffer_id == (#[trigger] f[j]).buffer_id
                implies f[i].path == f[j].path && f[i].end < f[j].start by {
                if j == n {
                    assert(fits(o[i], snaps));
                }
            }
        }
    }
}

/// Inserts one key into a sorted, coalesced run of excerpts, merging it with
/// every excerpt it intersects.
pub fn merge_one(ks: &Vec<ExcerptKey>, x: ExcerptKey, Ghost(snaps): Ghost<Seq<BufferView>>) -> (r:
    Vec<ExcerptKey>)
    requires
        well_formed(keys_view(ks@)),
        all_fit(keys_view(ks@), snaps),
        fits(x@, snaps),
        x.start < x.end,
    ensures
        well_formed(keys_view(r@)),
        all_fit(keys_view(r@), snaps),
        coverage(keys_view(r@)) == coverage(keys_view(ks@)).union(points(x@)),
{
    let ghost e = keys_view(ks@);
    let mut out: Vec<ExcerptKey> = Vec::new();
    let mut inserted = false;
    let n = ks.len();
    let mut i: usize = 0;
    while i < n
        invariant
            n == ks@.len(),
            e == keys_view(ks@),
            i <= n,
            well_formed(e),
            all_fit(e, snaps),
            fits(x@, snaps),
            x.start < x.end,
            well_formed(keys_view(out@)),
            all_fit(keys_view(out@), snaps),
            coverage(keys_view(out@)) == if inserted {
                coverage(e.subrange(0, i as int)).union(points(x@))
            } else {
                coverage(e.subrange(0, i as int))
            },
            i < n ==> forall|k: int| 0 <= k < out@.len() ==> at_or_before(#[trigger] out@[k]@, e[i as int]),
            !inserted ==> forall|k: int| 0 <= k < out@.len() ==> at_or_before(#[trigger] out@[k]@, x@),
        decreases n - i,
    {
        let ghost ei = e[i as int];
        if !inserted && !ks[i].less_than(&x) {
            let ghost before = out@;
            push_excerpt(&mut out, x.clone_key(), Ghost(snaps));
            inserted = true;
            proof {
                lemma_key_lt_total(x@, ei);
                assert forall|k: int| 0 <= k < out@.len() implies at_or_before(#[trigger] out@[k]@, ei) by {
                    if k < before.len() && out@[k]@ == before[k]@ {
                    } else {
                        lemma_at_or_before_transitive(out@[k]@, x@, ei);
                    }
                }
            }
        }
        let ghost before = out@;
        let ghost ins = inserted;
        push_excerpt(&mut out, ks[i].clone_key(), Ghost(snaps));
        proof {
            lemma_coverage_prefix(e, i as int);
            if i + 1 < n {
                let next = e[i + 1];
                assert(key_lt(ei, next));
                assert forall|k: int| 0 <= k < out@.len() implies at_or_before(#[trigger] out@[k]@, next) by {
                    lemma_at_or_before_transitive(out@[k]@, ei, next);
                }
            }
            if !ins {
                assert forall|k: int| 0 <= k < out@.len() implies at_or_before(#[trigger] out@[k]@, x@) by {
                    if k < before.len() && out@[k]@ == before[k]@ {
                    } else {
                        lemma_at_or_before_transitive(out@[k]@, ei, x@);
                    }
                }
            }
            assert(coverage(keys_view(out@)) =~= if inserted {
                coverage(e.subrange(0, i + 1)).union(points(x@))
            } else {
                coverage(e.subrange(0, i + 1))
            });
        }
        i = i + 1;
    }
    if !inserted {
        push_excerpt(&mut out, x, Ghost(snaps));
    }
    assert(e.subrange(0, n as int) =~= e);
    out
}

/// The positions of `cov` that lie within the text of their buffer in `snaps`.
pub open spec fn clip(cov: Set<(BufferId, int)>, snaps: Seq<BufferView>) -> Set<(BufferId, int)> {
    Set::new(
        |q: (BufferId, int)|
            cov.contains(q) && match snapshot_of(snaps, q.0) {
                Some(s) => q.1 < s.text.len(),
                None => false,
            },
    )
}

/// Every covered position of excerpts that fit lies within its buffer's text.
pub proof fn lemma_coverage_within(ks: Seq<KeyView>, snaps: Seq<BufferView>)
    requires
        all_fit(ks, snaps),
    ensures
        clip(coverage(ks), snaps) == coverage(ks),
    decreases ks.len(),
{
    if ks.len() > 0 {
        lemma_coverage_within(ks.drop_last(), snaps);
        assert(fits(ks.last(), snaps));
    }
    assert(clip(coverage(ks), snaps) =~= coverage(ks));
}

/// The positions of `cov`, without those of buffer `b` at or past `len`.
pub open spec fn cut_buffer(b: BufferId, len: int, cov: Set<(BufferId, int)>) -> Set<(BufferId, int)> {
    Set::new(|q: (BufferId, int)| cov.contains(q) && (q.0 != b || q.1 < len))
}

/// Rebuilds a run after buffer `b` moved to `new_path` or changed its text to
/// `new_len` characters: that buffer's excerpts take the new path and are cut
/// to the new length (those left empty are dropped); the others stay.
pub fn recapture(
    ks: &Vec<ExcerptKey>,
    b: BufferId,
    new_path: &Option<String>,
    new_len: usize,
    Ghost(old_snaps): Ghost<Seq<BufferView>>,
    Ghost(new_snaps): Ghost<Seq<BufferView>>,
) -> (r: Vec<ExcerptKey>)
    requires
        well_formed(keys_view(ks@)),
        all_fit(keys_view(ks@), old_snaps),
        snapshot_of(new_snaps, b) matches Some(s) && s.path == path_view(*new_path) && s.text.len()
            == new_len,
        forall|id: BufferId| id != b ==> #[trigger] snapshot_of(new_snaps, id) == snapshot_of(old_snaps, id),
    ensures
        well_formed(keys_view(r@)),
        all_fit(keys_view(r@), new_snaps),
        coverage(keys_view(r@)) == cut_buffer(b, new_len as int, coverage(keys_view(ks@))),
{
    let ghost e = keys_view(ks@);
    let mut out: Vec<ExcerptKey> = Vec::new();
    let n = ks.len();
    let mut i: usize = 0;
    assert(coverage(e.subrange(0, 0)) =~= Set::empty());
    assert(cut_buffer(b, new_len as int, Set::empty()) =~= Set::empty());
    while i < n
        invariant
            n == ks@.len(),
            e == keys_view(ks@),
            i <= n,
            well_formed(e),
            all_fit(e, old_snaps),
            snapshot_of(new_snaps, b) matches Some(s) && s.path == path_view(*new_path) && s.text.len()
                == new_len,
            forall|id: BufferId| id != b ==> #[trigger] snapshot_of(new_snaps, id) == snapshot_of(old_snaps, id),
            well_formed(keys_view(out@)),
            all_fit(keys_view(out@), new_snaps),
            coverage(keys_view(out@)) == cut_buffer(b, new_len as int, coverage(e.subrange(0, i as int))),
        decreases n - i,
    {
        let ghost ei = e[i as int];
        proof {
            lemma_coverage_prefix(e, i as int);
            assert(fits(ei, old_snaps));
        }
        let ghost prev = coverage(keys_view(out@));
        if ks[i].buffer_id == b {
            if ks[i].start < new_len {
                let end = if ks[i].end < new_len {
                    ks[i].end
                } else {
                    new_len
                };
                let k = ExcerptKey { path: clone_path(new_path), buffer_id: b, start: ks[i].start, end };
                out = merge_one(&out, k, Ghost(new_snaps));
                proof {
                    let c = coverage(e.subrange(0, i + 1));
                    assert(ei == ks@[i as int]@);
                    assert(k@.start == ei.start && k@.buffer_id == ei.buffer_id && ei.buffer_id == b);
                    assert(k@.end == if ei.end < new_len { ei.end } else { new_len as int });
                    assert(c == coverage(e.subrange(0, i as int)).union(points(ei)));
                    assert forall|q: (BufferId, int)| #[trigger] cut_buffer(b, new_len as int, c).contains(q) == prev.union(
                        points(k@),
                    ).contains(q) by {
                        assert(prev.contains(q) == cut_buffer(b, new_len as int, coverage(e.subrange(0, i as int))).contains(q));
                    }
                    assert(cut_buffer(b, new_len as int, c) =~= prev.union(points(k@)));
                }
            } else {
                proof {
                    let c = coverage(e.subrange(0, i + 1));
                    assert(ei == ks@[i as int]@);
                    assert(ei.buffer_id == b && ei.start >= new_len);
                    assert(c == coverage(e.subrange(0, i as int)).union(points(ei)));
                    assert forall|q: (BufferId, int)| #[trigger] cut_buffer(b, new_len as int, c).contains(q) == prev.contains(q) by {
                        assert(prev.contains(q) == cut_buffer(b, new_len as int, coverage(e.subrange(0, i as int))).contains(q));
                    }
                    assert(cut_buffer(b, new_len as int, c) =~= prev);
                }
            }
        } else {
            let k = ks[i].clone_key();
            out = merge_one(&out, k, Ghost(new_snaps));
            proof {
                assert(cut_buffer(b, new_len as int, coverage(e.subrange(0, i + 1))) =~= prev.union(points(k@)));
            }
        }
        i = i + 1;
    }
    assert(e.subrange(0, n as int) =~= e);
    out
}

} // verus!
