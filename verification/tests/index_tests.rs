use hwan_note::index::{generate_note_id, reconcile_index, remove_note_from_index,
    IndexPair, NoteIndex, NoteIndexEntry, ScannedFile};
use sha1::Digest;

fn entry(path: &str, created: u64) -> NoteIndexEntry {
    NoteIndexEntry {
        relative_path: path.to_string(),
        created_at: created,
        manual_title: None,
    }
}

fn index_of(pairs: Vec<(&str, NoteIndexEntry)>) -> NoteIndex {
    let mut idx = NoteIndex::new();
    for (id, e) in pairs {
        idx.upsert(id.to_string(), e);
    }
    idx
}

#[test]
fn note_id_is_prefix_of_sha1_hex() {
    let mut hasher = sha1::Sha1::new();
    hasher.update("sub/file.md".as_bytes());
    let digest = hasher.finalize();
    let mut hex = String::new();
    for b in digest.iter() {
        hex.push_str(&format!("{:02x}", b));
    }
    let expected = format!("note-{}", &hex[..12]);
    assert_eq!(generate_note_id("sub/file.md"), expected);
}

#[test]
fn note_id_known_value() {
    assert_eq!(generate_note_id("abc"), "note-a9993e364706");
}

#[test]
fn note_id_is_deterministic() {
    assert_eq!(generate_note_id("new.md"), generate_note_id("new.md"));
    assert_ne!(generate_note_id("a.md"), generate_note_id("b.md"));
}

#[test]
fn reconcile_removes_dead_and_adopts_orphan() {
    let idx = index_of(vec![("dead", entry("gone.md", 7))]);
    let files = vec![ScannedFile {
        relative_path: "new.md".to_string(),
        created_at: 42,
    }];
    let (next, changed) = reconcile_index(idx, &files);
    assert!(changed);
    assert_eq!(next.entries.len(), 1);
    let pair: &IndexPair = &next.entries[0];
    assert_eq!(pair.note_id, generate_note_id("new.md"));
    assert_eq!(pair.entry.relative_path, "new.md");
    assert_eq!(pair.entry.created_at, 42);
    assert!(pair.entry.manual_title.is_none());
}

#[test]
fn reconcile_keeps_referenced_entries_untouched() {
    let idx = index_of(vec![("keep", entry("a.md", 5))]);
    let files = vec![ScannedFile {
        relative_path: "a.md".to_string(),
        created_at: 99,
    }];
    let (next, changed) = reconcile_index(idx, &files);
    assert!(!changed);
    assert_eq!(next.entries.len(), 1);
    assert_eq!(next.entries[0].note_id, "keep");
    assert_eq!(next.entries[0].entry.created_at, 5);
}

#[test]
fn reconcile_is_idempotent_across_runs() {
    let idx = NoteIndex::new();
    let files = vec![
        ScannedFile { relative_path: "one.md".to_string(), created_at: 1 },
        ScannedFile { relative_path: "two.md".to_string(), created_at: 2 },
    ];
    let (next, changed1) = reconcile_index(idx, &files);
    assert!(changed1);
    assert_eq!(next.entries.len(), 2);
    let (again, changed2) = reconcile_index(next, &files);
    assert!(!changed2);
    assert_eq!(again.entries.len(), 2);
    assert_eq!(again.entries[0].note_id, generate_note_id("one.md"));
    assert_eq!(again.entries[1].note_id, generate_note_id("two.md"));
}

#[test]
fn deleting_missing_identifier_leaves_index_alone() {
    let mut idx = index_of(vec![("present", entry("a.md", 1))]);
    let r = remove_note_from_index(&mut idx, "absent");
    assert!(r.is_none());
    assert_eq!(idx.entries.len(), 1);
    assert_eq!(idx.entries[0].note_id, "present");
    assert_eq!(idx.entries[0].entry.relative_path, "a.md");
}

#[test]
fn deleting_empty_identifier_leaves_index_alone() {
    let mut idx = index_of(vec![("present", entry("a.md", 1))]);
    let r = remove_note_from_index(&mut idx, "!!!");
    assert!(r.is_none());
    assert_eq!(idx.entries.len(), 1);
}

#[test]
fn deleting_existing_identifier_returns_path() {
    let mut idx = index_of(vec![("one", entry("sub/x.md", 1)), ("two", entry("y.md", 2))]);
    let r = remove_note_from_index(&mut idx, "one");
    assert_eq!(r, Some("sub/x.md".to_string()));
    assert_eq!(idx.entries.len(), 1);
    assert_eq!(idx.entries[0].note_id, "two");
}

#[test]
fn get_and_upsert_replace_in_place() {
    let mut idx = index_of(vec![("id", entry("a.md", 1))]);
    idx.upsert("id".to_string(), entry("b.md", 1));
    assert_eq!(idx.entries.len(), 1);
    assert_eq!(idx.entries[0].entry.relative_path, "b.md");
    let got = idx.get(&"id".to_string()).unwrap();
    assert_eq!(got.relative_path, "b.md");
    assert!(idx.get(&"nope".to_string()).is_none());
}
