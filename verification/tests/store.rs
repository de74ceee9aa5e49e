use typst_tokens::store::{ChangeRange, Position, Store, StoreError, TextChange};

fn chars(s: &str) -> Vec<char> {
    s.chars().collect()
}

fn text_of(v: &Vec<char>) -> String {
    v.iter().collect()
}

fn range(sl: u32, sc: u32, el: u32, ec: u32) -> Option<ChangeRange> {
    Some(ChangeRange {
        start: Position { line: sl, character: sc },
        end: Position { line: el, character: ec },
    })
}

#[test]
fn open_then_read() {
    let mut store = Store::new();
    assert!(store.open(b"file:///a.typ".to_vec(), chars("hello")).is_ok());
    let t = store.current_text(&b"file:///a.typ".to_vec()).unwrap();
    assert_eq!(text_of(t), "hello");
}

#[test]
fn reopen_replaces_text() {
    let mut store = Store::new();
    store.open(b"u".to_vec(), chars("one")).unwrap();
    store.open(b"u".to_vec(), chars("two")).unwrap();
    assert_eq!(text_of(store.current_text(&b"u".to_vec()).unwrap()), "two");
}

#[test]
fn range_change_replaces_middle() {
    let mut store = Store::new();
    store.open(b"u".to_vec(), chars("hello\nworld")).unwrap();
    let changes = vec![TextChange { range: range(0, 1, 0, 3), text: chars("EY") }];
    store.apply_changes(&b"u".to_vec(), &changes).unwrap();
    assert_eq!(text_of(store.current_text(&b"u".to_vec()).unwrap()), "hEYlo\nworld");
}

#[test]
fn range_change_across_lines() {
    let mut store = Store::new();
    store.open(b"u".to_vec(), chars("hello\nworld")).unwrap();
    // Join the two lines by removing the line break.
    let changes = vec![TextChange { range: range(0, 5, 1, 0), text: chars(" ") }];
    store.apply_changes(&b"u".to_vec(), &changes).unwrap();
    assert_eq!(text_of(store.current_text(&b"u".to_vec()).unwrap()), "hello world");
}

#[test]
fn missing_range_replaces_whole_document() {
    let mut store = Store::new();
    store.open(b"u".to_vec(), chars("old text")).unwrap();
    let changes = vec![TextChange { range: None, text: chars("new") }];
    store.apply_changes(&b"u".to_vec(), &changes).unwrap();
    assert_eq!(text_of(store.current_text(&b"u".to_vec()).unwrap()), "new");
}

#[test]
fn changes_apply_in_order() {
    let mut store = Store::new();
    store.open(b"u".to_vec(), chars("abc")).unwrap();
    let changes = vec![
        TextChange { range: range(0, 0, 0, 1), text: chars("X") },
        TextChange { range: range(0, 2, 0, 3), text: chars("Z") },
    ];
    store.apply_changes(&b"u".to_vec(), &changes).unwrap();
    assert_eq!(text_of(store.current_text(&b"u".to_vec()).unwrap()), "XbZ");
}

#[test]
fn start_after_end_is_invalid() {
    let mut store = Store::new();
    store.open(b"u".to_vec(), chars("hello")).unwrap();
    let changes = vec![TextChange { range: range(0, 3, 0, 1), text: chars("x") }];
    assert_eq!(store.apply_changes(&b"u".to_vec(), &changes), Err(StoreError::InvalidRange));
    assert_eq!(text_of(store.current_text(&b"u".to_vec()).unwrap()), "hello");
}

#[test]
fn line_past_end_is_invalid() {
    let mut store = Store::new();
    store.open(b"u".to_vec(), chars("hello")).unwrap();
    let changes = vec![TextChange { range: range(3, 0, 3, 0), text: chars("x") }];
    assert_eq!(store.apply_changes(&b"u".to_vec(), &changes), Err(StoreError::InvalidRange));
}

#[test]
fn column_past_line_end_is_invalid() {
    let mut store = Store::new();
    store.open(b"u".to_vec(), chars("ab\ncd")).unwrap();
    let changes = vec![TextChange { range: range(0, 9, 0, 9), text: chars("x") }];
    assert_eq!(store.apply_changes(&b"u".to_vec(), &changes), Err(StoreError::InvalidRange));
    assert_eq!(text_of(store.current_text(&b"u".to_vec()).unwrap()), "ab\ncd");
}

#[test]
fn column_inside_surrogate_pair_is_invalid() {
    let mut store = Store::new();
    // U+10348 occupies UTF-16 columns 0 and 1; column 1 is inside it.
    store.open(b"u".to_vec(), chars("\u{10348}x")).unwrap();
    let bad = vec![TextChange { range: range(0, 1, 0, 2), text: chars("y") }];
    assert_eq!(store.apply_changes(&b"u".to_vec(), &bad), Err(StoreError::InvalidRange));
    let good = vec![TextChange { range: range(0, 2, 0, 3), text: chars("y") }];
    store.apply_changes(&b"u".to_vec(), &good).unwrap();
    assert_eq!(text_of(store.current_text(&b"u".to_vec()).unwrap()), "\u{10348}y");
}

#[test]
fn batch_with_bad_change_leaves_text_untouched() {
    let mut store = Store::new();
    store.open(b"u".to_vec(), chars("abc")).unwrap();
    let changes = vec![
        TextChange { range: range(0, 0, 0, 1), text: chars("X") },
        TextChange { range: range(9, 0, 9, 0), text: chars("Y") },
    ];
    assert_eq!(store.apply_changes(&b"u".to_vec(), &changes), Err(StoreError::InvalidRange));
    // The first, valid change of the refused batch was not kept either.
    assert_eq!(text_of(store.current_text(&b"u".to_vec()).unwrap()), "abc");
}

#[test]
fn unopened_document_is_an_error_and_store_keeps_serving() {
    let mut store = Store::new();
    store.open(b"kept".to_vec(), chars("safe")).unwrap();
    assert_eq!(
        store.current_text(&b"missing".to_vec()).err(),
        Some(StoreError::NotFound)
    );
    let changes = vec![TextChange { range: None, text: chars("x") }];
    assert_eq!(
        store.apply_changes(&b"missing".to_vec(), &changes),
        Err(StoreError::NotFound)
    );
    // The store still serves other documents afterwards.
    assert_eq!(text_of(store.current_text(&b"kept".to_vec()).unwrap()), "safe");
    store.open(b"new".to_vec(), chars("fresh")).unwrap();
    assert_eq!(text_of(store.current_text(&b"new".to_vec()).unwrap()), "fresh");
}

#[test]
fn noop_edit_keeps_text_identical() {
    let mut store = Store::new();
    store.open(b"u".to_vec(), chars("# Title\n*bold* word")).unwrap();
    let before = text_of(store.current_text(&b"u".to_vec()).unwrap());
    // Replace `Title` by itself: the net text effect is identity.
    let changes = vec![TextChange { range: range(0, 2, 0, 7), text: chars("Title") }];
    store.apply_changes(&b"u".to_vec(), &changes).unwrap();
    let after = text_of(store.current_text(&b"u".to_vec()).unwrap());
    assert_eq!(before, after);
}
