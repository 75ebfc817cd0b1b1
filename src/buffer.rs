use vstd::prelude::*;
use crate::key::{BufferId, PathView, path_view, clone_path};

verus! {

/// The mathematical value of a source buffer.
pub ghost struct BufferView {
    pub id: BufferId,
    pub text: Seq<char>,
    pub path: PathView,
    pub version: u64,
}

/// A source buffer: text identified by a buffer id, with an optional logical
/// path and a version that advances on every edit.
#[derive(Clone, Debug)]
pub struct Buffer {
    id: BufferId,
    text: String,
    path: Option<String>,
    version: u64,
}

impl View for Buffer {
    type V = BufferView;

    closed spec fn view(&self) -> BufferView {
        BufferView { id: self.id, text: self.text@, path: path_view(self.path), version: self.version }
    }
}

/// The first buffer of `snaps` with the given id, if any.
pub open spec fn snapshot_of(snaps: Seq<BufferView>, id: BufferId) -> Option<BufferView>
    decreases snaps.len(),
{
    if snaps.len() == 0 {
        None
    } else if snaps[0].id == id {
        Some(snaps[0])
    } else {
        snapshot_of(snaps.drop_first(), id)
    }
}

/// Replacing the first buffer with a given id leaves the lookup of every
/// other id unchanged.
pub proof fn lemma_snapshot_of_update(snaps: Seq<BufferView>, j: int, b: BufferView, id: BufferId)
    requires
        0 <= j < snaps.len(),
        snaps[j].id == b.id,
        forall|k: int| 0 <= k < j ==> snaps[k].id != b.id,
    ensures
        snapshot_of(snaps.update(j, b), id) == if id == b.id {
            Some(b)
        } else {
            snapshot_of(snaps, id)
        },
    decreases snaps.len(),
{
    let u = snaps.update(j, b);
    if j > 0 {
        assert(snaps[0].id != b.id);
        assert(u.drop_first() =~= snaps.drop_first().update(j - 1, b));
        assert(u[0] == snaps[0]);
        assert forall|k: int| 0 <= k < j - 1 implies snaps.drop_first()[k].id != b.id by {
            assert(snaps[k + 1].id != b.id);
        }
        lemma_snapshot_of_update(snaps.drop_first(), j - 1, b, id);
    } else {
        assert(u.drop_first() =~= snaps.drop_first());
        assert(u[0] == b);
    }
}

/// Appending a buffer of a new id makes it findable and changes no other lookup.
pub proof fn lemma_snapshot_of_push(snaps: Seq<BufferView>, b: BufferView, id: BufferId)
    requires
        snapshot_of(snaps, b.id) is None,
    ensures
        snapshot_of(snaps.push(b), id) == if id == b.id {
            Some(b)
        } else {
            snapshot_of(snaps, id)
        },
    decreases snaps.len(),
{
    let u = snaps.push(b);
    if snaps.len() > 0 {
        assert(u.drop_first() =~= snaps.drop_first().push(b));
        assert(u[0] == snaps[0]);
        lemma_snapshot_of_push(snaps.drop_first(), b, id);
    } else {
        assert(u.drop_first() =~= snaps);
        assert(u[0] == b);
    }
}

/// In a list of distinct ids, looking up a buffer's id finds that buffer.
pub proof fn lemma_snapshot_of_index(snaps: Seq<BufferView>, k: int)
    requires
        0 <= k < snaps.len(),
        forall|a: int, c: int| 0 <= a < c < snaps.len() ==> (#[trigger] snaps[a]).id != (#[trigger] snaps[c]).id,
    ensures
        snapshot_of(snaps, snaps[k].id) == Some(snaps[k]),
    decreases snaps.len(),
{
    if k > 0 {
        assert(snaps[0].id != snaps[k].id);
        let t = snaps.drop_first();
        assert forall|a: int, c: int| 0 <= a < c < t.len() implies (#[trigger] t[a]).id != (#[trigger] t[c]).id by {
            assert(snaps[a + 1].id != snaps[c + 1].id);
        }
        lemma_snapshot_of_index(t, k - 1);
    }
}

/// An id that no buffer of the list has is not found.
pub proof fn lemma_snapshot_of_absent(snaps: Seq<BufferView>, id: BufferId)
    requires
        forall|k: int| 0 <= k < snaps.len() ==> (#[trigger] snaps[k]).id != id,
    ensures
        snapshot_of(snaps, id) is None,
    decreases snaps.len(),
{
    if snaps.len() > 0 {
        assert(snaps[0].id != id);
        let t = snaps.drop_first();
        assert forall|k: int| 0 <= k < t.len() implies (#[trigger] t[k]).id != id by {
            assert(snaps[k + 1].id != id);
        }
        lemma_snapshot_of_absent(t, id);
    }
}

/// Returns the index of the first buffer with the given id.
pub fn find_buffer(buffers: &Vec<Buffer>, id: BufferId) -> (r: Option<usize>)
    ensures
        match r {
            Some(j) => j < buffers@.len() && buffers@[j as int]@.id == id && (forall|k: int|
                0 <= k < j ==> buffers@[k]@.id != id) && snapshot_of(buffers_view(buffers@), id)
                == Some(buffers@[j as int]@),
            None => snapshot_of(buffers_view(buffers@), id) is None && forall|k: int|
                0 <= k < buffers@.len() ==> buffers@[k]@.id != id,
        },
{
    let mut i: usize = 0;
    assert(buffers_view(buffers@).skip(0) =~= buffers_view(buffers@));
    while i < buffers.len()
        invariant
            i <= buffers@.len(),
            forall|k: int| 0 <= k < i ==> buffers@[k]@.id != id,
            snapshot_of(buffers_view(buffers@), id) == snapshot_of(
                buffers_view(buffers@).skip(i as int),
                id,
            ),
        decreases buffers@.len() - i,
    {
        proof {
            let s = buffers_view(buffers@).skip(i as int);
            assert(s.drop_first() =~= buffers_view(buffers@).skip(i + 1));
        }
        if buffers[i].id == id {
            return Some(i);
        }
        i = i + 1;
    }
    None
}

pub open spec fn buffers_view(v: Seq<Buffer>) -> Seq<BufferView> {
    v.map_values(|b: Buffer| b@)
}

impl Buffer {
    /// A buffer of the given text, with no path, on replica zero, at version zero.
    pub fn local(remote_id: u64, text: &str) -> (r: Buffer)
        ensures
            r@ == (BufferView {
                id: BufferId { remote_id, replica_id: 0 },
                text: text@,
                path: None,
                version: 0,
            }),
    {
        Buffer {
            id: BufferId { remote_id, replica_id: 0 },
            text: String::from_str(text),
            path: None,
            version: 0,
        }
    }

    pub fn id(&self) -> (r: BufferId)
        ensures
            r == self@.id,
    {
        self.id
    }

    pub fn version(&self) -> (r: u64)
        ensures
            r == self@.version,
    {
        self.version
    }

    /// The length of the text, in characters.
    pub fn len(&self) -> (r: usize)
        ensures
            r == self@.text.len(),
    {
        self.text.as_str().unicode_len()
    }

    pub fn text(&self) -> (r: &String)
        ensures
            r@ == self@.text,
    {
        &self.text
    }

    pub fn path(&self) -> (r: &Option<String>)
        ensures
            path_view(*r) == self@.path,
    {
        &self.path
    }

    /// Moves the buffer to another path; the text and version stay.
    pub fn set_path(&mut self, path: Option<String>)
        ensures
            final(self)@ == (BufferView { path: path_view(path), ..old(self)@ }),
    {
        self.path = path;
    }

    /// Replaces the whole text; the version advances (wrapping at its maximum).
    pub fn set_text(&mut self, text: &str)
        ensures
            final(self)@ == (BufferView {
                text: text@,
                version: if old(self)@.version == u64::MAX {
                    0
                } else {
                    (old(self)@.version + 1) as u64
                },
                ..old(self)@
            }),
    {
        self.text = String::from_str(text);
        self.version = if self.version == u64::MAX {
            0
        } else {
            self.version + 1
        };
    }

    /// A point-in-time copy of the buffer.
    pub fn snapshot(&self) -> (r: Buffer)
        ensures
            r@ == self@,
    {
        Buffer {
            id: self.id,
            text: self.text.clone(),
            path: clone_path(&self.path),
            version: self.version,
        }
    }
}

} // verus!
