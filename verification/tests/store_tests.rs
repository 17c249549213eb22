use notes_backend::note::{all_distinct, contains_name, contains_name_before, Note};
use notes_backend::store::{all_valid, NoteStore};

fn s(text: &str) -> String {
    text.to_string()
}

fn ids(notes: &[Note]) -> Vec<u32> {
    notes.iter().map(|n| n.id).collect()
}

#[test]
fn new_store_is_empty() {
    let store = NoteStore::new();
    assert_eq!(store.len(), 0);
    assert!(store.get_notes(&s("alice")).is_empty());
    assert!(store.get_notes_by_owner(&s("alice")).is_empty());
    assert_eq!(store.get_note_by_id(&s("alice"), 0), None);
}

#[test]
fn opened_store_starts_empty_in_fresh_memory() {
    let store = NoteStore::open().expect("a fresh memory holds a valid store");
    assert_eq!(store.len(), 0);
}

#[test]
fn add_note_creates_owned_unshared_note() {
    let mut store = NoteStore::new();
    store.add_note(s("alice"), s("hi"));
    assert_eq!(store.len(), 1);
    let note = store.get_note_by_id(&s("alice"), 0).unwrap();
    assert_eq!(
        note,
        Note { id: 0, content: s("hi"), owner: s("alice"), shared_with: vec![] }
    );
}

#[test]
fn scenario_share_then_read_then_denied_update() {
    let mut store = NoteStore::new();
    store.add_note(s("alice"), s("hi"));
    let note = store.get_note_by_id(&s("alice"), 0).unwrap();
    assert_eq!(note.id, 0);
    assert_eq!(note.owner, "alice");
    assert_eq!(store.get_note_by_id(&s("bob"), 0), None);
    assert_eq!(
        store.share_note(&s("alice"), 0, s("bob")),
        Ok(s("Note shared successfully."))
    );
    let seen = store.get_note_by_id(&s("bob"), 0).unwrap();
    assert_eq!(
        seen,
        Note { id: 0, content: s("hi"), owner: s("alice"), shared_with: vec![s("bob")] }
    );
    assert_eq!(
        store.update_note(&s("bob"), 0, s("x")),
        Err(s("Permission denied: Only the owner can update the note"))
    );
    assert_eq!(store.get_note_by_id(&s("alice"), 0).unwrap().content, "hi");
}

#[test]
fn allocation_is_by_size_and_overwrites_after_delete() {
    let mut store = NoteStore::new();
    store.add_note(s("alice"), s("a"));
    assert_eq!(ids(&store.get_notes(&s("alice"))), vec![0]);
    store.add_note(s("alice"), s("b"));
    assert_eq!(ids(&store.get_notes(&s("alice"))), vec![0, 1]);
    assert_eq!(store.delete_note(&s("alice"), 0), Ok(s("Note has been deleted.")));
    assert_eq!(store.len(), 1);
    store.add_note(s("carol"), s("c"));
    assert_eq!(store.len(), 1);
    assert_eq!(store.get_note_by_id(&s("alice"), 1), None);
    let note = store.get_note_by_id(&s("carol"), 1).unwrap();
    assert_eq!(
        note,
        Note { id: 1, content: s("c"), owner: s("carol"), shared_with: vec![] }
    );
    assert_eq!(store.get_note_by_id(&s("carol"), 0), None);
}

#[test]
fn get_note_by_id_hides_notes_from_strangers() {
    let mut store = NoteStore::new();
    store.add_note(s("alice"), s("one"));
    store.share_note(&s("alice"), 0, s("bob")).unwrap();
    store.share_note(&s("alice"), 0, s("dave")).unwrap();
    let expected = Note {
        id: 0,
        content: s("one"),
        owner: s("alice"),
        shared_with: vec![s("bob"), s("dave")],
    };
    assert_eq!(store.get_note_by_id(&s("alice"), 0), Some(expected.clone()));
    assert_eq!(store.get_note_by_id(&s("bob"), 0), Some(expected.clone()));
    assert_eq!(store.get_note_by_id(&s("dave"), 0), Some(expected));
    assert_eq!(store.get_note_by_id(&s("eve"), 0), None);
    assert_eq!(store.get_note_by_id(&s("alice"), 7), None);
}

#[test]
fn get_notes_lists_owned_and_shared_in_key_order() {
    let mut store = NoteStore::new();
    store.add_note(s("alice"), s("a0"));
    store.add_note(s("bob"), s("b1"));
    store.add_note(s("alice"), s("a2"));
    store.add_note(s("carol"), s("c3"));
    store.share_note(&s("carol"), 3, s("alice")).unwrap();
    store.share_note(&s("bob"), 1, s("carol")).unwrap();
    let alice = store.get_notes(&s("alice"));
    assert_eq!(ids(&alice), vec![0, 2, 3]);
    assert_eq!(alice[2].owner, "carol");
    assert_eq!(alice[2].shared_with, vec![s("alice")]);
    assert_eq!(ids(&store.get_notes(&s("bob"))), vec![1]);
    assert_eq!(ids(&store.get_notes(&s("carol"))), vec![1, 3]);
    assert!(store.get_notes(&s("eve")).is_empty());
    assert_eq!(store.get_notes(&s("alice")), alice);
}

#[test]
fn get_notes_by_owner_ignores_sharing() {
    let mut store = NoteStore::new();
    store.add_note(s("alice"), s("a0"));
    store.add_note(s("bob"), s("b1"));
    store.add_note(s("alice"), s("a2"));
    store.share_note(&s("bob"), 1, s("alice")).unwrap();
    let owned = store.get_notes_by_owner(&s("alice"));
    assert_eq!(ids(&owned), vec![0, 2]);
    assert_eq!(owned[0].content, "a0");
    assert_eq!(owned[1].content, "a2");
    let bobs = store.get_notes_by_owner(&s("bob"));
    assert_eq!(ids(&bobs), vec![1]);
    assert_eq!(bobs[0].shared_with, vec![s("alice")]);
    assert!(store.get_notes_by_owner(&s("eve")).is_empty());
}

#[test]
fn update_note_replaces_content_only() {
    let mut store = NoteStore::new();
    store.add_note(s("alice"), s("old"));
    store.share_note(&s("alice"), 0, s("bob")).unwrap();
    assert_eq!(
        store.update_note(&s("alice"), 0, s("new")),
        Ok(s("Note updated successfully"))
    );
    assert_eq!(
        store.get_note_by_id(&s("bob"), 0),
        Some(Note { id: 0, content: s("new"), owner: s("alice"), shared_with: vec![s("bob")] })
    );
}

#[test]
fn update_note_reports_missing_note() {
    let mut store = NoteStore::new();
    assert_eq!(store.update_note(&s("alice"), 3, s("x")), Err(s("Note not found")));
    assert_eq!(store.len(), 0);
}

#[test]
fn delete_note_twice_succeeds_then_not_found() {
    let mut store = NoteStore::new();
    store.add_note(s("alice"), s("a"));
    assert_eq!(store.delete_note(&s("alice"), 0), Ok(s("Note has been deleted.")));
    assert_eq!(store.delete_note(&s("alice"), 0), Err(s("No note found.")));
    assert_eq!(store.len(), 0);
}

#[test]
fn delete_note_keeps_other_ids() {
    let mut store = NoteStore::new();
    store.add_note(s("alice"), s("a"));
    store.add_note(s("alice"), s("b"));
    store.add_note(s("alice"), s("c"));
    store.delete_note(&s("alice"), 1).unwrap();
    let left = store.get_notes(&s("alice"));
    assert_eq!(ids(&left), vec![0, 2]);
    assert_eq!(left[1].content, "c");
}

#[test]
fn share_note_twice_succeeds_then_already_shared() {
    let mut store = NoteStore::new();
    store.add_note(s("alice"), s("a"));
    assert_eq!(
        store.share_note(&s("alice"), 0, s("bob")),
        Ok(s("Note shared successfully."))
    );
    assert_eq!(
        store.share_note(&s("alice"), 0, s("bob")),
        Err(s("User already has access to this note."))
    );
    assert_eq!(
        store.get_note_by_id(&s("alice"), 0).unwrap().shared_with,
        vec![s("bob")]
    );
}

#[test]
fn share_note_reports_missing_note() {
    let mut store = NoteStore::new();
    assert_eq!(store.share_note(&s("alice"), 0, s("bob")), Err(s("Note not found.")));
}

#[test]
fn non_owner_is_denied_and_note_unchanged() {
    let mut store = NoteStore::new();
    store.add_note(s("alice"), s("a"));
    store.share_note(&s("alice"), 0, s("bob")).unwrap();
    let before = store.get_note_by_id(&s("alice"), 0).unwrap();
    assert_eq!(
        store.update_note(&s("bob"), 0, s("x")),
        Err(s("Permission denied: Only the owner can update the note"))
    );
    assert_eq!(
        store.delete_note(&s("bob"), 0),
        Err(s("Permission denied: Only the owner can delete the note"))
    );
    assert_eq!(
        store.share_note(&s("bob"), 0, s("eve")),
        Err(s("Permission denied: Only the owner can share the note."))
    );
    assert_eq!(
        store.share_note(&s("bob"), 0, s("bob")),
        Err(s("Permission denied: Only the owner can share the note."))
    );
    assert_eq!(store.get_note_by_id(&s("alice"), 0), Some(before));
    assert_eq!(store.len(), 1);
}

#[test]
fn owner_is_never_listed_among_readers() {
    let mut store = NoteStore::new();
    store.add_note(s("alice"), s("hi"));
    let before = store.get_note_by_id(&s("alice"), 0).unwrap();
    assert_eq!(
        store.share_note(&s("alice"), 0, s("alice")),
        Err(s("User already has access to this note."))
    );
    let after = store.get_note_by_id(&s("alice"), 0).unwrap();
    assert_eq!(after, before);
    assert!(after.shared_with.is_empty());
    store.share_note(&s("alice"), 0, s("bob")).unwrap();
    assert_eq!(
        store.share_note(&s("alice"), 0, s("alice")),
        Err(s("User already has access to this note."))
    );
    assert_eq!(
        store.get_note_by_id(&s("alice"), 0).unwrap().shared_with,
        vec![s("bob")]
    );
}

#[test]
fn well_formed_notes_list_no_reader_twice_and_not_the_owner() {
    let plain = Note { id: 0, content: s("c"), owner: s("o"), shared_with: vec![] };
    let shared = Note { id: 0, content: s("c"), owner: s("o"), shared_with: vec![s("p"), s("q")] };
    let twice = Note { id: 0, content: s("c"), owner: s("o"), shared_with: vec![s("p"), s("p")] };
    let own = Note { id: 0, content: s("c"), owner: s("o"), shared_with: vec![s("p"), s("o")] };
    assert!(plain.is_well_formed());
    assert!(shared.is_well_formed());
    assert!(!twice.is_well_formed());
    assert!(!own.is_well_formed());
}

#[test]
fn record_round_trip_without_readers() {
    let note = Note { id: 7, content: s("hello"), owner: s("alice"), shared_with: vec![] };
    assert_eq!(Note::from_bytes(&note.to_bytes()), Some(note));
}

#[test]
fn record_round_trip_with_readers() {
    let note = Note {
        id: u32::MAX,
        content: s("gr\u{fc}\u{df}e \u{1f600} \u{4e16}\u{754c}"),
        owner: s(""),
        shared_with: vec![s("bob"), s(""), s("\u{e9}ve")],
    };
    assert_eq!(Note::from_bytes(&note.to_bytes()), Some(note));
}

#[test]
fn record_bytes_are_as_laid_out() {
    let note = Note { id: 258, content: s("a"), owner: s("\u{e9}"), shared_with: vec![s("bc")] };
    let mut expected: Vec<u8> = vec![2, 1, 0, 0];
    expected.extend_from_slice(&[1, 0, 0, 0, 0, 0, 0, 0, b'a']);
    expected.extend_from_slice(&[2, 0, 0, 0, 0, 0, 0, 0, 0xc3, 0xa9]);
    expected.extend_from_slice(&[1, 0, 0, 0, 0, 0, 0, 0]);
    expected.extend_from_slice(&[2, 0, 0, 0, 0, 0, 0, 0, b'b', b'c']);
    assert_eq!(note.to_bytes(), expected);
    assert_eq!(Note::from_bytes(&expected), Some(note));
}

#[test]
fn malformed_records_are_rejected() {
    let note = Note { id: 1, content: s("abc"), owner: s("o"), shared_with: vec![s("p")] };
    let bytes = note.to_bytes();
    assert_eq!(Note::from_bytes(&[]), None);
    assert_eq!(Note::from_bytes(&[1, 2, 3]), None);
    for cut in 0..bytes.len() {
        assert_eq!(Note::from_bytes(&bytes[..cut]), None);
    }
    let mut longer = bytes.clone();
    longer.push(0);
    assert_eq!(Note::from_bytes(&longer), None);
    let mut bad_text = bytes.clone();
    bad_text[12] = 0xff;
    assert_eq!(Note::from_bytes(&bad_text), None);
    let mut huge_len = bytes.clone();
    huge_len[11] = 0xff;
    assert_eq!(Note::from_bytes(&huge_len), None);
    let mut more_readers = bytes.clone();
    let count_at = 4 + 8 + 3 + 8 + 1;
    more_readers[count_at] = 2;
    assert_eq!(Note::from_bytes(&more_readers), None);
}

#[test]
fn readable_by_owner_and_readers_only() {
    let note = Note {
        id: 0,
        content: s("c"),
        owner: s("alice"),
        shared_with: vec![s("bob"), s("carol")],
    };
    assert!(note.is_readable_by(&s("alice")));
    assert!(note.is_readable_by(&s("bob")));
    assert!(note.is_readable_by(&s("carol")));
    assert!(!note.is_readable_by(&s("dave")));
    assert!(!note.is_readable_by(&s("")));
}

#[test]
fn name_search_and_distinctness() {
    let names = vec![s("a"), s("b"), s("c"), s("b")];
    assert!(contains_name(&names, &s("c")));
    assert!(!contains_name(&names, &s("d")));
    assert!(contains_name_before(&names, 2, &s("b")));
    assert!(!contains_name_before(&names, 2, &s("c")));
    assert!(!contains_name_before(&names, 0, &s("a")));
    assert!(!all_distinct(&names));
    assert!(all_distinct(&names[..3].to_vec()));
    assert!(all_distinct(&Vec::new()));
}

#[test]
fn entries_are_checked_for_validity() {
    let good = Note { id: 4, content: s("c"), owner: s("o"), shared_with: vec![s("p"), s("q")] };
    let twice = Note { id: 5, content: s("c"), owner: s("o"), shared_with: vec![s("p"), s("p")] };
    assert!(all_valid(&Vec::new()));
    assert!(all_valid(&vec![(4, good.to_bytes())]));
    assert!(!all_valid(&vec![(3, good.to_bytes())]));
    assert!(!all_valid(&vec![(4, good.to_bytes()), (5, twice.to_bytes())]));
    let own = Note { id: 6, content: s("c"), owner: s("o"), shared_with: vec![s("o")] };
    assert!(!all_valid(&vec![(4, good.to_bytes()), (6, own.to_bytes())]));
    assert!(!all_valid(&vec![(4, good.to_bytes()), (5, vec![1, 2, 3])]));
}
