use miro_bookmarks::Bookmark;
use miro_bookmarks::BookmarkMessage;
use miro_bookmarks::BookmarkStore;
use miro_bookmarks::StoreError;
use miro_bookmarks::fingerprint;

fn mark_of(store: &BookmarkStore, set: usize, mark: usize) -> &Bookmark {
    &store.sets[set].marks[mark]
}

#[test]
fn scenario_create_and_delete() {
    let mut store = BookmarkStore::new();
    assert_eq!(store.sets.len(), 0);

    store.create_bookmark("/doc.pdf".to_string(), "intro".to_string(), 1, None);
    assert_eq!(store.sets.len(), 1);
    assert_eq!(store.sets[0].path, "/doc.pdf");
    assert_eq!(store.sets[0].marks.len(), 1);
    assert_eq!(mark_of(&store, 0, 0).page, 1);
    assert_eq!(mark_of(&store, 0, 0).name, "intro");

    store.create_bookmark("/doc.pdf".to_string(), "ch2".to_string(), 10, None);
    assert_eq!(store.sets.len(), 1);
    assert_eq!(store.sets[0].marks.len(), 2);
    assert_eq!(mark_of(&store, 0, 1).page, 10);
    assert_eq!(mark_of(&store, 0, 1).name, "ch2");

    store.delete_bookmark("/doc.pdf".to_string(), "intro".to_string());
    assert_eq!(store.sets.len(), 1);
    assert_eq!(store.sets[0].marks.len(), 1);
    assert_eq!(mark_of(&store, 0, 0).name, "ch2");

    store.delete_bookmark("/doc.pdf".to_string(), "ch2".to_string());
    assert_eq!(store.sets.len(), 0);
}

#[test]
fn create_then_delete_restores_prior_state() {
    let mut store = BookmarkStore::new();
    store.create_bookmark("/a.pdf".to_string(), "one".to_string(), 3, None);
    store.create_bookmark("/b.pdf".to_string(), "two".to_string(), 7, None);
    let before = store.to_json();

    store.create_bookmark("/a.pdf".to_string(), "extra".to_string(), 9, None);
    store.delete_bookmark("/a.pdf".to_string(), "extra".to_string());
    assert_eq!(store.to_json(), before);

    store.create_bookmark("/c.pdf".to_string(), "solo".to_string(), 2, None);
    store.delete_bookmark("/c.pdf".to_string(), "solo".to_string());
    assert_eq!(store.to_json(), before);
}

#[test]
fn delete_removes_every_mark_with_the_name() {
    let mut store = BookmarkStore::new();
    store.create_bookmark("/a.pdf".to_string(), "dup".to_string(), 1, None);
    store.create_bookmark("/a.pdf".to_string(), "keep".to_string(), 2, None);
    store.create_bookmark("/a.pdf".to_string(), "dup".to_string(), 3, None);
    store.delete_bookmark("/a.pdf".to_string(), "dup".to_string());
    assert_eq!(store.sets.len(), 1);
    assert_eq!(store.sets[0].marks.len(), 1);
    assert_eq!(mark_of(&store, 0, 0).name, "keep");
}

#[test]
fn delete_is_a_silent_no_op_without_a_match() {
    let mut store = BookmarkStore::new();
    store.create_bookmark("/a.pdf".to_string(), "one".to_string(), 1, None);
    let before = store.to_json();
    store.delete_bookmark("/missing.pdf".to_string(), "one".to_string());
    assert_eq!(store.to_json(), before);
    store.delete_bookmark("/a.pdf".to_string(), "missing".to_string());
    assert_eq!(store.to_json(), before);
}

#[test]
fn two_creates_for_one_path_make_one_set() {
    let mut store = BookmarkStore::new();
    store.create_bookmark("/x.pdf".to_string(), "a".to_string(), 1, None);
    store.create_bookmark("/x.pdf".to_string(), "b".to_string(), 2, None);
    assert_eq!(store.sets.len(), 1);
    assert_eq!(store.sets[0].marks.len(), 2);
}

#[test]
fn deleting_the_only_bookmark_removes_the_set() {
    let mut store = BookmarkStore::new();
    store.create_bookmark("/x.pdf".to_string(), "a".to_string(), 1, None);
    store.create_bookmark("/y.pdf".to_string(), "b".to_string(), 2, None);
    store.delete_bookmark("/x.pdf".to_string(), "a".to_string());
    assert_eq!(store.sets.len(), 1);
    assert_eq!(store.sets[0].path, "/y.pdf");
}

#[test]
fn serialized_text_has_the_expected_form() {
    let mut store = BookmarkStore::new();
    assert_eq!(store.to_json(), "{\"sets\":[]}");

    store.create_bookmark("/doc.pdf".to_string(), "intro".to_string(), 1, None);
    assert_eq!(
        store.to_json(),
        "{\"sets\":[{\"marks\":[{\"page\":1,\"name\":\"intro\"}],\"file_hash\":0,\"path\":\"/doc.pdf\"}]}"
    );

    store.create_bookmark("/doc.pdf".to_string(), "ch2".to_string(), -12, None);
    assert_eq!(
        store.to_json(),
        "{\"sets\":[{\"marks\":[{\"page\":1,\"name\":\"intro\"},{\"page\":-12,\"name\":\"ch2\"}],\"file_hash\":0,\"path\":\"/doc.pdf\"}]}"
    );
}

#[test]
fn save_then_load_reproduces_the_sets() {
    let mut store = BookmarkStore::new();
    let bytes: Vec<u8> = vec![1, 2, 3, 4];
    store.create_bookmark("/a.pdf".to_string(), "one".to_string(), 3, Some(bytes));
    store.create_bookmark("/a.pdf".to_string(), "two".to_string(), -5, None);
    store.create_bookmark("/b pdf with spaces".to_string(), "n".to_string(), 2147483647, None);
    store.set_pending_name("half-typed".to_string());

    let text = store.to_json();
    let loaded = BookmarkStore::from_json(&text).unwrap();

    assert_eq!(loaded.sets.len(), store.sets.len());
    for (a, b) in loaded.sets.iter().zip(store.sets.iter()) {
        assert_eq!(a.path, b.path);
        assert_eq!(a.file_hash, b.file_hash);
        assert_eq!(a.marks.len(), b.marks.len());
        for (ma, mb) in a.marks.iter().zip(b.marks.iter()) {
            assert_eq!(ma.page, mb.page);
            assert_eq!(ma.name, mb.name);
        }
    }
    assert_eq!(loaded.pending_name, "");
}

#[test]
fn round_trip_escapes_quotes_and_backslashes() {
    let mut store = BookmarkStore::new();
    store.create_bookmark(
        "C:\\docs\\a.pdf".to_string(),
        "say \"hi\" \\ there".to_string(),
        4,
        None,
    );
    let text = store.to_json();
    let loaded = BookmarkStore::from_json(&text).unwrap();
    assert_eq!(loaded.sets[0].path, "C:\\docs\\a.pdf");
    assert_eq!(loaded.sets[0].marks[0].name, "say \"hi\" \\ there");
}

#[test]
fn load_accepts_whitespace_between_tokens() {
    let text = "{\n  \"sets\": [\n    {\n      \"marks\": [ { \"page\": 1 , \"name\": \"intro\" } ],\n      \"file_hash\": 42,\n      \"path\": \"/doc.pdf\"\n    }\n  ]\n}\n";
    let loaded = BookmarkStore::from_json(text).unwrap();
    assert_eq!(loaded.sets.len(), 1);
    assert_eq!(loaded.sets[0].path, "/doc.pdf");
    assert_eq!(loaded.sets[0].file_hash, 42);
    assert_eq!(loaded.sets[0].marks[0].page, 1);
    assert_eq!(loaded.sets[0].marks[0].name, "intro");
}

#[test]
fn load_accepts_an_empty_store_with_whitespace() {
    let loaded = BookmarkStore::from_json("{ \"sets\": [] }").unwrap();
    assert_eq!(loaded.sets.len(), 0);
    let loaded = BookmarkStore::from_json(" { \"sets\" : [ ] } ").unwrap();
    assert_eq!(loaded.sets.len(), 0);
}

#[test]
fn load_accepts_unicode_escapes() {
    let text = "{\"sets\":[{\"marks\":[{\"page\":1,\"name\":\"\\u0041\\u00e9\\u4e16\"}],\"file_hash\":0,\"path\":\"\\uD83D\\uDE00.pdf\"}]}";
    let loaded = BookmarkStore::from_json(text).unwrap();
    assert_eq!(loaded.sets[0].marks[0].name, "A\u{e9}\u{4e16}");
    assert_eq!(loaded.sets[0].path, "\u{1F600}.pdf");
}

#[test]
fn load_rejects_bad_unicode_escapes() {
    for text in [
        // a lone high surrogate
        "{\"sets\":[{\"marks\":[{\"page\":1,\"name\":\"\\uD83D\"}],\"file_hash\":0,\"path\":\"p\"}]}",
        // a lone low surrogate
        "{\"sets\":[{\"marks\":[{\"page\":1,\"name\":\"\\uDE00\"}],\"file_hash\":0,\"path\":\"p\"}]}",
        // not hexadecimal digits
        "{\"sets\":[{\"marks\":[{\"page\":1,\"name\":\"\\u00zz\"}],\"file_hash\":0,\"path\":\"p\"}]}",
        // a raw control character inside a string
        "{\"sets\":[{\"marks\":[{\"page\":1,\"name\":\"a\u{0001}b\"}],\"file_hash\":0,\"path\":\"p\"}]}",
    ] {
        assert!(matches!(BookmarkStore::from_json(text), Err(StoreError::Serialization)));
    }
}

#[test]
fn load_rejects_leading_zeros() {
    for text in [
        "{\"sets\":[{\"marks\":[{\"page\":007,\"name\":\"a\"}],\"file_hash\":0,\"path\":\"p\"}]}",
        "{\"sets\":[{\"marks\":[{\"page\":1,\"name\":\"a\"}],\"file_hash\":00,\"path\":\"p\"}]}",
    ] {
        assert!(matches!(BookmarkStore::from_json(text), Err(StoreError::Serialization)));
    }
}

#[test]
fn control_characters_are_escaped_on_save() {
    let mut store = BookmarkStore::new();
    store.create_bookmark("/a.pdf".to_string(), "a\nb\u{0001}c".to_string(), 1, None);
    let text = store.to_json();
    assert_eq!(
        text,
        "{\"sets\":[{\"marks\":[{\"page\":1,\"name\":\"a\\nb\\u0001c\"}],\"file_hash\":0,\"path\":\"/a.pdf\"}]}"
    );
    let loaded = BookmarkStore::from_json(&text).unwrap();
    assert_eq!(loaded.sets[0].marks[0].name, "a\nb\u{0001}c");
}

#[test]
fn load_accepts_common_string_escapes() {
    let text = "{\"sets\":[{\"marks\":[{\"page\":1,\"name\":\"a\\nb\\tc\\/d\"}],\"file_hash\":7,\"path\":\"\\/p.pdf\"}]}";
    let loaded = BookmarkStore::from_json(text).unwrap();
    assert_eq!(loaded.sets[0].marks[0].name, "a\nb\tc/d");
    assert_eq!(loaded.sets[0].path, "/p.pdf");
    assert_eq!(loaded.sets[0].file_hash, 7);
}

#[test]
fn load_rejects_malformed_text() {
    for text in [
        "",
        "{}",
        "{\"sets\":}",
        "{\"sets\":[",
        "{\"sets\":[]] }",
        "{\"sets\":[]}trailing",
        "{\"sets\":[{\"marks\":[{\"page\":1,\"name\":\"a\"}],\"file_hash\":x,\"path\":\"p\"}]}",
        "{\"sets\":[{\"marks\":[{\"page\":99999999999,\"name\":\"a\"}],\"file_hash\":0,\"path\":\"p\"}]}",
        "{\"sets\":[{\"marks\":[{\"page\":1,\"name\":\"a}],\"file_hash\":0,\"path\":\"p\"}]}",
    ] {
        assert!(matches!(BookmarkStore::from_json(text), Err(StoreError::Serialization)));
    }
}

#[test]
fn load_rejects_an_empty_set() {
    let text = "{\"sets\":[{\"marks\":[],\"file_hash\":0,\"path\":\"/p.pdf\"}]}";
    assert!(matches!(BookmarkStore::from_json(text), Err(StoreError::Serialization)));
}

#[test]
fn load_rejects_two_sets_for_one_path() {
    let text = "{\"sets\":[{\"marks\":[{\"page\":1,\"name\":\"a\"}],\"file_hash\":0,\"path\":\"/p.pdf\"},{\"marks\":[{\"page\":2,\"name\":\"b\"}],\"file_hash\":0,\"path\":\"/p.pdf\"}]}";
    assert!(matches!(BookmarkStore::from_json(text), Err(StoreError::Serialization)));
}

#[test]
fn dispatch_performs_owned_commands() {
    let mut store = BookmarkStore::new();
    let r = store.update(
        BookmarkMessage::CreateBookmark {
            path: "/d.pdf".to_string(),
            name: "m".to_string(),
            page: 6,
        },
        None,
    );
    assert_eq!(r, Ok(()));
    assert_eq!(store.sets.len(), 1);

    let r = store.update(BookmarkMessage::PendingName("typing".to_string()), None);
    assert_eq!(r, Ok(()));
    assert_eq!(store.pending_name, "typing");

    let r = store.update(BookmarkMessage::Noop, None);
    assert_eq!(r, Ok(()));
    assert_eq!(store.sets.len(), 1);

    let r = store.update(
        BookmarkMessage::DeleteBookmark { path: "/d.pdf".to_string(), name: "m".to_string() },
        None,
    );
    assert_eq!(r, Ok(()));
    assert_eq!(store.sets.len(), 0);
}

#[test]
fn dispatching_unowned_commands_is_a_contract_violation() {
    let mut store = BookmarkStore::new();
    store.create_bookmark("/d.pdf".to_string(), "m".to_string(), 1, None);
    let before = store.to_json();

    let r = store.update(
        BookmarkMessage::GoTo { path: "/d.pdf".to_string(), page: 3 },
        None,
    );
    assert_eq!(r, Err(StoreError::ContractViolation));
    assert_eq!(store.to_json(), before);

    let r = store.update(
        BookmarkMessage::RequestNewBookmark { name: "m".to_string() },
        None,
    );
    assert_eq!(r, Err(StoreError::ContractViolation));
    assert_eq!(store.to_json(), before);
}

#[test]
fn fingerprint_is_deterministic_and_distinguishes_content() {
    let a: Vec<u8> = b"the quick brown fox".to_vec();
    let a_again: Vec<u8> = b"the quick brown fox".to_vec();
    let b: Vec<u8> = b"the quick brown fog".to_vec();
    let empty: Vec<u8> = Vec::new();

    assert_eq!(fingerprint(&a), fingerprint(&a_again));
    assert_ne!(fingerprint(&a), fingerprint(&b));
    assert_ne!(fingerprint(&a), fingerprint(&empty));
    assert_eq!(fingerprint(&empty), fingerprint(&Vec::new()));
}

#[test]
fn creation_records_the_content_fingerprint_once() {
    let bytes: Vec<u8> = b"content".to_vec();
    let digest = fingerprint(&bytes);

    let mut store = BookmarkStore::new();
    store.create_bookmark("/d.pdf".to_string(), "m".to_string(), 1, Some(bytes));
    assert_eq!(store.sets[0].file_hash, digest);

    // A later creation for the same path never recomputes the fingerprint.
    let other: Vec<u8> = b"changed content".to_vec();
    store.create_bookmark("/d.pdf".to_string(), "n".to_string(), 2, Some(other));
    assert_eq!(store.sets[0].file_hash, digest);
}

#[test]
fn creation_without_readable_content_records_zero() {
    let mut store = BookmarkStore::new();
    store.create_bookmark("/gone.pdf".to_string(), "m".to_string(), 1, None);
    assert_eq!(store.sets[0].file_hash, 0);
}

#[test]
fn contains_path_reports_known_paths() {
    let mut store = BookmarkStore::new();
    store.create_bookmark("/a.pdf".to_string(), "m".to_string(), 1, None);
    assert!(store.contains_path(&"/a.pdf".to_string()));
    assert!(!store.contains_path(&"/b.pdf".to_string()));
}

#[test]
fn large_hash_and_extreme_pages_round_trip() {
    let mut store = BookmarkStore::new();
    let bytes: Vec<u8> = b"x".to_vec();
    store.create_bookmark("/a.pdf".to_string(), "min".to_string(), -2147483648, Some(bytes));
    store.create_bookmark("/a.pdf".to_string(), "max".to_string(), 2147483647, None);
    let text = store.to_json();
    let loaded = BookmarkStore::from_json(&text).unwrap();
    assert_eq!(loaded.sets[0].file_hash, store.sets[0].file_hash);
    assert_eq!(loaded.sets[0].marks[0].page, -2147483648);
    assert_eq!(loaded.sets[0].marks[1].page, 2147483647);
}
