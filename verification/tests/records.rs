//! Tests of the saved-level byte records and of canonical forms.
use water_sort::canonical::canonical_form;
use water_sort::level::Level;

#[test]
fn record_round_trips_through_bytes() {
    let data: Vec<u8> = vec![2, 1, 2, 0, 2, 2, 0];
    let level = Level::from_saved_bytes(7, 3, &data).expect("record should parse");
    assert_eq!(level.number, 7);
    assert_eq!(level.glass_height, 3);
    assert_eq!(level.loaded, vec![vec![1, 2, 0], vec![2, 2, 0]]);
    assert_eq!(level.current, level.loaded);
    let bytes = level.to_saved_bytes();
    let reparsed = Level::from_saved_bytes(7, 3, &bytes).expect("record should parse");
    assert_eq!(reparsed.loaded, level.loaded);
}

#[test]
fn record_bytes_have_the_fixed_layout() {
    let data: Vec<u8> = vec![2, 1, 0, 1, 0];
    let level = Level::from_saved_bytes(0, 2, &data).expect("record should parse");
    let bytes = level.to_saved_bytes();
    // one count byte, then sixteen glasses of two cells each
    assert_eq!(bytes.len(), 1 + 16 * 2);
    let mut expected: Vec<u8> = vec![2, 1, 0, 1, 0];
    expected.extend(std::iter::repeat(0).take(14 * 2));
    assert_eq!(bytes, expected);
}

#[test]
fn empty_record_is_rejected() {
    let data: Vec<u8> = Vec::new();
    assert!(Level::from_saved_bytes(0, 4, &data).is_none());
}

#[test]
fn truncated_record_is_rejected() {
    // advertises three glasses but carries bytes for one
    let data: Vec<u8> = vec![3, 1, 1];
    assert!(Level::from_saved_bytes(0, 2, &data).is_none());
}

#[test]
fn gapped_glass_is_rejected() {
    // a glass with an empty cell below a filled one is malformed
    let data: Vec<u8> = vec![1, 0, 1];
    assert!(Level::from_saved_bytes(0, 2, &data).is_none());
}

#[test]
fn load_next_advances_and_installs() {
    let first: Vec<u8> = vec![2, 1, 1, 0, 0];
    let mut level = Level::from_saved_bytes(0, 2, &first).expect("record should parse");
    let second: Vec<u8> = vec![2, 2, 0, 2, 0];
    assert!(level.load_next(&second));
    assert_eq!(level.number, 1);
    assert_eq!(level.loaded, vec![vec![2, 0], vec![2, 0]]);
    assert_eq!(level.current, level.loaded);
}

#[test]
fn load_next_rejects_bad_records_unchanged() {
    let first: Vec<u8> = vec![2, 1, 1, 0, 0];
    let mut level = Level::from_saved_bytes(0, 2, &first).expect("record should parse");
    let bad: Vec<u8> = vec![9, 1];
    assert!(!level.load_next(&bad));
    assert_eq!(level.number, 0);
    assert_eq!(level.loaded, vec![vec![1, 1], vec![0, 0]]);
}

#[test]
fn resize_installs_the_new_height() {
    let first: Vec<u8> = vec![2, 1, 1, 0, 0];
    let mut level = Level::from_saved_bytes(3, 2, &first).expect("record should parse");
    let taller: Vec<u8> = vec![2, 1, 1, 1, 0, 0, 0];
    assert!(level.resize(3, &taller));
    assert_eq!(level.number, 3);
    assert_eq!(level.glass_height, 3);
    assert_eq!(level.loaded, vec![vec![1, 1, 1], vec![0, 0, 0]]);
}

#[test]
fn canonical_form_sorts_glasses_by_key() {
    let board: Vec<Vec<u8>> = vec![vec![2, 0], vec![1, 2], vec![0, 0]];
    let canon = canonical_form(&board);
    assert_eq!(canon, vec![vec![0, 0], vec![1, 2], vec![2, 0]]);
}

#[test]
fn permuted_boards_share_one_canonical_form() {
    let a: Vec<Vec<u8>> = vec![vec![1, 2], vec![0, 0], vec![2, 1]];
    let b: Vec<Vec<u8>> = vec![vec![2, 1], vec![1, 2], vec![0, 0]];
    assert_eq!(canonical_form(&a), canonical_form(&b));
}
