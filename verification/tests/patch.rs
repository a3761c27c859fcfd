use sg_patch::patch::{apply_edits, Edit, PatchError};

fn b(s: &str) -> Vec<u8> {
    s.as_bytes().to_vec()
}

fn edit(start: u32, end: u32, rep: &str) -> Edit {
    Edit { byte_start: start, byte_end: end, replacement: b(rep) }
}

#[test]
fn empty_edits_returns_original() {
    let original = b("abcdef");
    let out = apply_edits(&original, &Vec::new()).unwrap();
    assert_eq!(out, b("abcdef"));
}

#[test]
fn empty_edits_on_empty_buffer() {
    let original: Vec<u8> = Vec::new();
    let out = apply_edits(&original, &Vec::new()).unwrap();
    assert_eq!(out, Vec::<u8>::new());
}

#[test]
fn offset_correctness_under_length_change() {
    let original = b("abcdef");
    let edits = vec![edit(1, 3, "XYZ"), edit(4, 5, "Q")];
    let out = apply_edits(&original, &edits).unwrap();
    assert_eq!(out, b("aXYZdQf"));
}

#[test]
fn multiple_shrinking_edits() {
    let original = b("aaaabbbbcccc");
    let edits = vec![edit(0, 4, ""), edit(4, 8, "X")];
    let out = apply_edits(&original, &edits).unwrap();
    assert_eq!(out, b("Xcccc"));
}

#[test]
fn insertion_at_a_point() {
    let original = b("abc");
    let edits = vec![edit(1, 1, "--")];
    let out = apply_edits(&original, &edits).unwrap();
    assert_eq!(out, b("a--bc"));
}

#[test]
fn edit_at_end_of_buffer() {
    let original = b("abc");
    let edits = vec![edit(2, 3, "ZZ")];
    let out = apply_edits(&original, &edits).unwrap();
    assert_eq!(out, b("abZZ"));
}

#[test]
fn adjacent_edits_are_accepted() {
    let original = b("abcd");
    let edits = vec![edit(0, 2, "1"), edit(2, 4, "2")];
    let out = apply_edits(&original, &edits).unwrap();
    assert_eq!(out, b("12"));
}

#[test]
fn overlapping_edits_are_malformed() {
    let original = b("abcdef");
    let edits = vec![edit(0, 3, "X"), edit(2, 5, "Y")];
    assert_eq!(apply_edits(&original, &edits), Err(PatchError::MalformedEdit));
}

#[test]
fn out_of_order_edits_are_malformed() {
    let original = b("abcdef");
    let edits = vec![edit(4, 5, "Q"), edit(1, 3, "XYZ")];
    assert_eq!(apply_edits(&original, &edits), Err(PatchError::MalformedEdit));
}

#[test]
fn range_past_end_is_malformed() {
    let original = b("abc");
    let edits = vec![edit(1, 7, "X")];
    assert_eq!(apply_edits(&original, &edits), Err(PatchError::MalformedEdit));
}

#[test]
fn reversed_range_is_malformed() {
    let original = b("abcdef");
    let edits = vec![edit(3, 1, "X")];
    assert_eq!(apply_edits(&original, &edits), Err(PatchError::MalformedEdit));
}

#[test]
fn malformed_list_leaves_no_partial_result() {
    let original = b("abcdef");
    let edits = vec![edit(0, 2, "OK"), edit(1, 3, "BAD")];
    assert!(apply_edits(&original, &edits).is_err());
    assert_eq!(original, b("abcdef"));
}
