use multi_buffer::{Buffer, BufferId, ExcerptKey, ExcerptOffset, MultiBuffer, ToOffset};
use std::cmp::Ordering;

fn buffer_at(id: u64, path: &str, text: &str) -> Buffer {
    let mut b = Buffer::local(id, text);
    b.set_path(Some(path.to_string()));
    b
}

fn key(path: Option<&str>, id: u64, start: usize, end: usize) -> ExcerptKey {
    ExcerptKey {
        path: path.map(|p| p.to_string()),
        buffer_id: BufferId { remote_id: id, replica_id: 0 },
        start,
        end,
    }
}

#[test]
fn rename_moves_excerpts_and_keeps_ranges() {
    let mut a = buffer_at(1, "b/one", "abcdef");
    let b = buffer_at(2, "c/two", "uvwxyz");
    let mut mb = MultiBuffer::new();
    mb.insert_excerpts(vec![(a.clone(), 0..2), (b.clone(), 1..3), (a.clone(), 4..5)]);
    assert_eq!(mb.snapshot().text(), "\nab\ne\nvw");

    a.set_path(Some("d/one".to_string()));
    mb.update_buffer(a.clone());
    let snapshot = mb.snapshot();
    assert_eq!(snapshot.text(), "\nvw\nab\ne");
    let ranges: Vec<(u64, usize, usize, Option<String>)> = snapshot
        .excerpts()
        .iter()
        .map(|k| (k.buffer_id.remote_id, k.start, k.end, k.path.clone()))
        .collect();
    assert_eq!(
        ranges,
        vec![
            (2, 1, 3, Some("c/two".to_string())),
            (1, 0, 2, Some("d/one".to_string())),
            (1, 4, 5, Some("d/one".to_string())),
        ]
    );
}

#[test]
fn buffer_without_path_sorts_first() {
    let a = buffer_at(1, "a", "abcdef");
    let b = Buffer::local(2, "uvwxyz");
    let mut mb = MultiBuffer::new();
    mb.insert_excerpts(vec![(a.clone(), 0..1), (b.clone(), 0..1)]);
    assert_eq!(mb.snapshot().text(), "\nu\na");
}

#[test]
fn shorter_text_cuts_excerpts() {
    let mut a = Buffer::local(1, "abcdefgh");
    let mut mb = MultiBuffer::new();
    mb.insert_excerpts(vec![(a.clone(), 1..3), (a.clone(), 5..8)]);
    assert_eq!(mb.snapshot().text(), "\nbc\nfgh");
    a.set_text("ABCDEF");
    assert_eq!(a.version(), 1);
    mb.update_buffer(a.clone());
    assert_eq!(mb.snapshot().text(), "\nBC\nF");
    a.set_text("AB");
    mb.update_buffer(a.clone());
    assert_eq!(mb.snapshot().text(), "\nB");
}

#[test]
fn empty_and_reversed_ranges_are_dropped() {
    let a = Buffer::local(1, "abcdef");
    let mut mb = MultiBuffer::new();
    #[allow(clippy::reversed_empty_ranges)]
    let reversed = 5..2;
    mb.insert_excerpts(vec![(a.clone(), 3..3), (a.clone(), reversed)]);
    let snapshot = mb.snapshot();
    assert_eq!(snapshot.text(), "");
    assert_eq!(snapshot.len(), 0);
    assert!(snapshot.excerpts().is_empty());
}

#[test]
fn touching_ranges_coalesce() {
    let a = Buffer::local(1, "abcdef");
    let mut mb = MultiBuffer::new();
    mb.insert_excerpts(vec![(a.clone(), 2..4), (a.clone(), 0..2)]);
    let snapshot = mb.snapshot();
    assert_eq!(snapshot.text(), "\nabcd");
    assert_eq!(snapshot.excerpts().len(), 1);
}

#[test]
fn batching_and_order_do_not_matter() {
    let a = Buffer::local(1, "abcdefghijklmnop");
    let mut one = MultiBuffer::new();
    one.insert_excerpts(vec![(a.clone(), 8..10), (a.clone(), 0..2), (a.clone(), 3..6)]);
    let mut two = MultiBuffer::new();
    two.insert_excerpts(vec![(a.clone(), 4..6)]);
    two.insert_excerpts(vec![(a.clone(), 0..2), (a.clone(), 3..5)]);
    two.insert_excerpts(vec![(a.clone(), 9..10), (a.clone(), 8..9)]);
    assert_eq!(one.snapshot().text(), "\nab\ndef\nij");
    assert_eq!(one.snapshot().text(), two.snapshot().text());
}

#[test]
fn covered_insert_keeps_boundaries() {
    let a = Buffer::local(1, "abcdefghij");
    let mut mb = MultiBuffer::new();
    mb.insert_excerpts(vec![(a.clone(), 1..4), (a.clone(), 6..9)]);
    let before: Vec<(usize, usize)> = mb.snapshot().excerpts().iter().map(|k| (k.start, k.end)).collect();
    mb.insert_excerpts(vec![(a.clone(), 2..3), (a.clone(), 6..9)]);
    let after: Vec<(usize, usize)> = mb.snapshot().excerpts().iter().map(|k| (k.start, k.end)).collect();
    assert_eq!(before, vec![(1, 4), (6, 9)]);
    assert_eq!(before, after);
}

#[test]
fn len_sums_excerpt_ranges() {
    let a = Buffer::local(1, "abcdefghijklmnopqrstuvwxyz");
    let mut mb = MultiBuffer::new();
    mb.insert_excerpts(vec![(a.clone(), 0..2), (a.clone(), 4..12)]);
    let snapshot = mb.snapshot();
    assert_eq!(snapshot.len(), 10);
    assert_eq!(7usize.to_offset(&snapshot), 7);
}

#[test]
fn key_order_and_intersection() {
    let wide = key(Some("p"), 1, 2, 9);
    let narrow = key(Some("p"), 1, 2, 4);
    assert!(wide.less_than(&narrow));
    assert!(!narrow.less_than(&wide));
    assert!(key(None, 9, 5, 6).less_than(&key(Some("a"), 1, 0, 1)));
    assert!(key(Some("a"), 1, 0, 1).less_than(&key(Some("ab"), 0, 0, 1)));
    assert!(key(Some("p"), 1, 0, 2).intersects(&key(Some("p"), 1, 2, 3)));
    assert!(!key(Some("p"), 1, 0, 2).intersects(&key(Some("p"), 1, 3, 4)));
    assert!(!key(Some("p"), 1, 0, 2).intersects(&key(Some("p"), 2, 0, 2)));
}

#[test]
fn buffer_version_advances_on_edit() {
    let mut a = Buffer::local(3, "xy");
    assert_eq!(a.version(), 0);
    assert_eq!(a.len(), 2);
    a.set_text("xyz");
    assert_eq!(a.version(), 1);
    assert_eq!(a.text(), "xyz");
    assert_eq!(a.id(), BufferId { remote_id: 3, replica_id: 0 });
}

#[test]
fn key_cmp_follows_key_order() {
    let a = key(Some("p"), 1, 2, 9);
    let b = key(Some("p"), 1, 2, 4);
    assert_eq!(a.cmp(&b), Ordering::Less);
    assert_eq!(b.cmp(&a), Ordering::Greater);
    assert_eq!(a.cmp(&a.clone()), Ordering::Equal);
    assert_eq!(key(Some("p"), 1, 0, 1).cmp(&key(Some("p"), 2, 0, 1)), Ordering::Less);
}

#[test]
fn offset_against_cursor_location() {
    let offset = |o: usize| ExcerptOffset {
        path: Some("p".to_string()),
        buffer_id: BufferId { remote_id: 1, replica_id: 0 },
        offset: o,
    };
    let at = Some(key(Some("p"), 1, 4, 8));
    assert_eq!(offset(3).cmp(&at), Ordering::Less);
    assert_eq!(offset(4).cmp(&at), Ordering::Equal);
    assert_eq!(offset(8).cmp(&at), Ordering::Equal);
    assert_eq!(offset(9).cmp(&at), Ordering::Greater);
    assert_eq!(offset(0).cmp(&None), Ordering::Greater);
    assert_eq!(offset(0).cmp(&Some(key(Some("q"), 1, 4, 8))), Ordering::Less);
    assert_eq!(offset(0).cmp(&Some(key(None, 1, 4, 8))), Ordering::Greater);
    assert_eq!(offset(0).cmp(&Some(key(Some("p"), 0, 4, 8))), Ordering::Greater);
}

#[test]
fn same_length_new_text_is_shown() {
    let mut mb = MultiBuffer::new();
    mb.insert_excerpts(vec![(Buffer::local(1, "abc"), 0..2)]);
    assert_eq!(mb.snapshot().text(), "\nab");
    mb.update_buffer(Buffer::local(1, "xyz"));
    assert_eq!(mb.snapshot().text(), "\nxy");
}

#[test]
fn untouched_buffers_keep_their_excerpts() {
    let a = buffer_at(1, "a", "abcdef");
    let b = buffer_at(2, "b", "uvwxyz");
    let mut mb = MultiBuffer::new();
    mb.insert_excerpts(vec![(a.clone(), 0..2), (b.clone(), 3..5)]);
    mb.insert_excerpts(vec![(a.clone(), 4..6)]);
    assert_eq!(mb.snapshot().text(), "\nab\nef\nxy");
}
