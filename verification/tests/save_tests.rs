use hwan_note::index::{reconcile_index, NoteIndex, ScannedFile};
use hwan_note::markdown::markdown_to_html;
use hwan_note::save::{auto_save_dir_info, build_loaded_note, ensure_unique_file_path,
    get_auto_save_dir, is_markdown_extension, plan_auto_save, sort_loaded_notes,
    title_from_filename, AutoSavePayload, LoadedNote};

fn payload(id: &str, title: &str, content: &str) -> AutoSavePayload {
    AutoSavePayload {
        note_id: id.to_string(),
        title: title.to_string(),
        content: content.to_string(),
        folder_path: None,
        is_title_manual: None,
    }
}

#[test]
fn unique_path_prefers_bare_slug() {
    assert_eq!(ensure_unique_file_path(&vec![], "title", None), "title.md");
}

#[test]
fn unique_path_counts_up_on_collision() {
    let existing = vec!["title.md".to_string()];
    assert_eq!(ensure_unique_file_path(&existing, "title", None), "title-2.md");
    let existing2 = vec!["title.md".to_string(), "title-2.md".to_string()];
    assert_eq!(ensure_unique_file_path(&existing2, "title", None), "title-3.md");
}

#[test]
fn unique_path_allows_own_file() {
    let existing = vec!["title.md".to_string(), "title-2.md".to_string()];
    let own = "title-2.md".to_string();
    assert_eq!(ensure_unique_file_path(&existing, "title", Some(&own)), "title-2.md");
}

#[test]
fn two_saves_same_title_get_distinct_files_and_resave_keeps_its_file() {
    let idx = NoteIndex::new();
    let p1 = payload("a", "Title", "x");
    let plan1 = plan_auto_save(idx, &p1, &vec![], 1);
    assert_eq!(plan1.target_rel_path, "Title.md");

    let p2 = payload("b", "Title", "y");
    let existing = vec!["Title.md".to_string()];
    let plan2 = plan_auto_save(plan1.index, &p2, &existing, 2);
    assert_eq!(plan2.target_rel_path, "Title-2.md");
    assert!(plan2.old_rel_path.is_none());

    // Saving again under the same identifier and title keeps the same file.
    let existing2 = vec!["Title.md".to_string(), "Title-2.md".to_string()];
    let plan3 = plan_auto_save(plan2.index, &p2, &existing2, 3);
    assert_eq!(plan3.target_rel_path, "Title-2.md");
    assert!(plan3.old_rel_path.is_none());
    assert_eq!(plan3.created_at, 2);
}

#[test]
fn save_plan_fills_identifier_folder_and_content() {
    let idx = NoteIndex::new();
    let mut p = payload("!!bad id!!", "", "# Derived Name\nbody");
    p.folder_path = Some("work\\projects".to_string());
    p.is_title_manual = Some(true);
    let plan = plan_auto_save(idx, &p, &vec![], 10);
    // An identifier with nothing left after sanitising falls back to a token.
    assert_eq!(plan.note_id, "badid");
    assert_eq!(plan.target_rel_path, "work/projects/Derived-Name.md");
    assert_eq!(plan.content, "# Derived Name\r\nbody");
    assert_eq!(plan.created_at, 10);
    let e = plan.index.get(&"badid".to_string()).unwrap();
    assert_eq!(e.relative_path, "work/projects/Derived-Name.md");
    // A blank title is never kept as a manual title.
    assert!(e.manual_title.is_none());
}

#[test]
fn save_plan_empty_identifier_falls_back_to_token() {
    let plan = plan_auto_save(NoteIndex::new(), &payload("!!!", "T", "c"), &vec![], 1);
    assert_eq!(plan.note_id, "note");
}

#[test]
fn save_plan_keeps_created_at_and_drops_old_file_on_rename() {
    let idx = NoteIndex::new();
    let plan1 = plan_auto_save(idx, &payload("id1", "First", "c"), &vec![], 100);
    assert_eq!(plan1.target_rel_path, "First.md");
    let existing = vec!["First.md".to_string()];
    let plan2 = plan_auto_save(plan1.index, &payload("id1", "Second", "c"), &existing, 200);
    assert_eq!(plan2.target_rel_path, "Second.md");
    assert_eq!(plan2.old_rel_path, Some("First.md".to_string()));
    assert_eq!(plan2.created_at, 100);
}

#[test]
fn save_plan_caps_manual_title_at_fifty_characters() {
    let mut p = payload("id", &"t".repeat(60), "c");
    p.is_title_manual = Some(true);
    let plan = plan_auto_save(NoteIndex::new(), &p, &vec![], 1);
    let e = plan.index.get(&"id".to_string()).unwrap();
    assert_eq!(e.manual_title.as_ref().unwrap().chars().count(), 50);
}

#[test]
fn saved_note_round_trips_through_reconcile_and_render() {
    let content = "- [ ] task\n  - [x] sub\n:::toggle[open] sum\nbody\n:::";
    let p = payload("n1", "My Note", content);
    let plan = plan_auto_save(NoteIndex::new(), &p, &vec![], 1000);
    assert_eq!(plan.target_rel_path, "My-Note.md");

    // The file now exists on disk with the CRLF content; reconciling finds it
    // referenced, so nothing changes and exactly one note comes back.
    let files = vec![ScannedFile {
        relative_path: plan.target_rel_path.clone(),
        created_at: 999,
    }];
    let (idx, changed) = reconcile_index(plan.index, &files);
    assert!(!changed);
    assert_eq!(idx.entries.len(), 1);

    let pair = &idx.entries[0];
    assert_eq!(pair.note_id, "n1");
    let note = build_loaded_note(
        &pair.note_id,
        &pair.entry,
        &plan.content,
        2000,
        &"/root/My-Note.md".to_string(),
    );
    // The rendered structure survives the CRLF round trip.
    assert_eq!(note.content, markdown_to_html(content));
    // No manual title was set, so the title derives from the content.
    assert_eq!(note.title, "task");
    assert!(!note.is_title_manual);
    assert_eq!(note.folder_path, "");
    assert_eq!(note.created_at, 1000);
    assert_eq!(note.updated_at, 2000);
}

#[test]
fn loaded_note_prefers_nonblank_manual_title() {
    let mut idx = NoteIndex::new();
    let plan = {
        let mut p = payload("id", "  Manual  ", "# Derived");
        p.is_title_manual = Some(true);
        plan_auto_save(idx, &p, &vec![], 1)
    };
    idx = plan.index;
    let pair = &idx.entries[0];
    let note = build_loaded_note(&pair.note_id, &pair.entry, "# Derived", 2, &"f".to_string());
    assert_eq!(note.title, "Manual");
    assert!(note.is_title_manual);
}

#[test]
fn loaded_note_folder_comes_from_relative_path() {
    let p = {
        let mut p = payload("id", "T", "c");
        p.folder_path = Some("a/b".to_string());
        p
    };
    let plan = plan_auto_save(NoteIndex::new(), &p, &vec![], 1);
    assert_eq!(plan.target_rel_path, "a/b/T.md");
    let pair = &plan.index.entries[0];
    let note = build_loaded_note(&pair.note_id, &pair.entry, "c", 2, &"f".to_string());
    assert_eq!(note.folder_path, "a/b");
}

#[test]
fn notes_sort_most_recently_updated_first() {
    let mk = |id: &str, updated: u64| LoadedNote {
        note_id: id.to_string(),
        title: String::new(),
        is_title_manual: false,
        plain_text: String::new(),
        content: String::new(),
        folder_path: String::new(),
        created_at: 0,
        updated_at: updated,
        file_path: String::new(),
    };
    let sorted = sort_loaded_notes(vec![mk("a", 5), mk("b", 9), mk("c", 7)]);
    let order: Vec<u64> = sorted.iter().map(|n| n.updated_at).collect();
    assert_eq!(order, vec![9, 7, 5]);
    let ids: Vec<&str> = sorted.iter().map(|n| n.note_id.as_str()).collect();
    assert_eq!(ids, vec!["b", "c", "a"]);
}

#[test]
fn auto_save_dir_sits_under_documents() {
    assert_eq!(get_auto_save_dir("/home/u/Documents"), "/home/u/Documents/HwanNote/Notes");
}

#[test]
fn markdown_extension_is_case_insensitive_md_only() {
    assert!(is_markdown_extension("md"));
    assert!(is_markdown_extension("MD"));
    assert!(is_markdown_extension("mD"));
    assert!(!is_markdown_extension("txt"));
    assert!(!is_markdown_extension("m"));
    assert!(!is_markdown_extension("mdx"));
    assert!(!is_markdown_extension(""));
}

#[test]
fn dir_info_is_default_exactly_without_override() {
    let info = auto_save_dir_info(None, "/docs/HwanNote/Notes".to_string());
    assert!(info.is_default);
    assert!(info.custom_dir.is_none());
    let info2 = auto_save_dir_info(Some("/custom".to_string()), "/custom".to_string());
    assert!(!info2.is_default);
    assert_eq!(info2.custom_dir.as_deref(), Some("/custom"));
    assert_eq!(info2.effective_dir, "/custom");
}

#[test]
fn title_from_filename_trims_caps_and_falls_back() {
    assert_eq!(title_from_filename("  notes  "), "notes");
    assert_eq!(title_from_filename(&"x".repeat(60)).chars().count(), 50);
    assert_eq!(title_from_filename("   "), "\u{c81c}\u{baa9} \u{c5c6}\u{c74c}");
}
