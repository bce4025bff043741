use line_comments::buffer::Buffer;
use line_comments::comment::find_line_comment;
use line_comments::comment::toggle_line_comments;
use line_comments::transaction::SelRange;
use line_comments::transaction::Selection;
use line_comments::transaction::State;

fn doc_string(b: &Buffer) -> String {
    b.to_chars().into_iter().collect()
}

#[test]
fn test_find_line_comment() {
    // four lines, two space indented, except for line 1 which is blank.
    let doc = Buffer::from_str("  1\n\n  2\n  3");

    let mut state = State::new(doc);
    // select whole document
    state.selection = Selection::single(0, state.doc.len_chars() - 1);

    let res = find_line_comment("//", &state.doc, 0, 3);
    // (commented = false, skipped = [line 1], min = col 2)
    assert_eq!(res, (false, vec![1], 2));

    // comment
    let transaction = toggle_line_comments(&state, "//");
    transaction.apply(&mut state);

    assert_eq!(doc_string(&state.doc), "  // 1\n\n  // 2\n  // 3");

    // uncomment
    let transaction = toggle_line_comments(&state, "//");
    transaction.apply(&mut state);
    assert_eq!(doc_string(&state.doc), "  1\n\n  2\n  3");
}

#[test]
fn blank_lines_untouched() {
    // the whitespace-only middle line is skipped and never modified
    let doc = Buffer::from_str("a\n   \nb");
    let mut state = State::new(doc);
    state.selection = Selection::single(0, state.doc.len_chars() - 1);

    let res = find_line_comment("//", &state.doc, 0, 3);
    assert_eq!(res, (false, vec![1], 0));

    let transaction = toggle_line_comments(&state, "//");
    assert_eq!(transaction.edits.len(), 2);
    transaction.apply(&mut state);
    assert_eq!(doc_string(&state.doc), "// a\n   \n// b");
}

#[test]
fn one_mismatch_flips_detection() {
    // a single uncommented non-blank line makes the whole range uncommented
    let doc = Buffer::from_str("// a\nb\n// c");
    let res = find_line_comment("//", &doc, 0, 3);
    assert_eq!(res, (false, vec![], 0));

    // with every line commented the range is commented
    let doc = Buffer::from_str("// a\n  // b");
    let res = find_line_comment("//", &doc, 0, 2);
    assert_eq!(res, (true, vec![], 0));
}

#[test]
fn short_line_never_matches() {
    // a line shorter than the token is compared length-clamped, so it
    // cannot equal the token
    let doc = Buffer::from_str("/\n/");
    let res = find_line_comment("//", &doc, 0, 2);
    assert_eq!(res, (false, vec![], 0));
}

#[test]
fn insertion_column_is_shared_minimum() {
    // both edits sit at column 2, the minimum indentation, not at each
    // line's own column
    let doc = Buffer::from_str("    a\n  b");
    let mut state = State::new(doc);
    state.selection = Selection::single(0, state.doc.len_chars() - 1);

    let transaction = toggle_line_comments(&state, "//");
    assert_eq!(transaction.edits.len(), 2);
    assert_eq!(transaction.edits[0].start, 2);
    assert_eq!(transaction.edits[1].start, 8);

    transaction.apply(&mut state);
    assert_eq!(doc_string(&state.doc), "  //   a\n  // b");
}

#[test]
fn exact_edit_shape() {
    // commenting inserts exactly the token and one space, at equal offsets
    let doc = Buffer::from_str("x");
    let mut state = State::new(doc);
    state.selection = Selection::single(0, 0);
    let transaction = toggle_line_comments(&state, "//");
    assert_eq!(transaction.edits.len(), 1);
    assert_eq!(transaction.edits[0].start, 0);
    assert_eq!(transaction.edits[0].end, 0);
    let inserted: String = transaction.edits[0].insert.clone().unwrap().into_iter().collect();
    assert_eq!(inserted, "// ");

    // uncommenting deletes exactly token length plus one characters
    let doc = Buffer::from_str("// x");
    let mut state = State::new(doc);
    state.selection = Selection::single(0, 3);
    let transaction = toggle_line_comments(&state, "//");
    assert_eq!(transaction.edits.len(), 1);
    assert_eq!(transaction.edits[0].start, 0);
    assert_eq!(transaction.edits[0].end, 3);
    assert!(transaction.edits[0].insert.is_none());
    transaction.apply(&mut state);
    assert_eq!(doc_string(&state.doc), "x");
}

#[test]
fn two_selections_independent() {
    // a commented block and an uncommented block, toggled in one
    // transaction, each according to its own detection result
    let doc = Buffer::from_str("// a\n// b\nc\nd");
    let mut state = State::new(doc);
    state.selection = Selection {
        ranges: vec![
            SelRange { anchor: 0, head: 5 },
            SelRange { anchor: 10, head: 12 },
        ],
    };

    let transaction = toggle_line_comments(&state, "//");
    assert_eq!(transaction.edits.len(), 4);
    transaction.apply(&mut state);
    assert_eq!(doc_string(&state.doc), "a\nb\n// c\n// d");
}

#[test]
fn all_blank_selection_produces_no_edits() {
    let doc = Buffer::from_str("   \n\t\n");
    let mut state = State::new(doc);
    state.selection = Selection::single(0, state.doc.len_chars() - 1);

    let transaction = toggle_line_comments(&state, "//");
    assert_eq!(transaction.edits.len(), 0);
    transaction.apply(&mut state);
    assert_eq!(doc_string(&state.doc), "   \n\t\n");
}

#[test]
fn round_trip_mixed_indentation() {
    let original = "    deep\n  shallow\nnone";
    let doc = Buffer::from_str(original);
    let mut state = State::new(doc);
    state.selection = Selection::single(0, state.doc.len_chars() - 1);

    let transaction = toggle_line_comments(&state, "//");
    transaction.apply(&mut state);
    assert_eq!(doc_string(&state.doc), "//     deep\n//   shallow\n// none");

    let transaction = toggle_line_comments(&state, "//");
    transaction.apply(&mut state);
    assert_eq!(doc_string(&state.doc), original);
}

#[test]
fn selection_reaching_document_end() {
    // the end offset of the document lies on the trailing empty line, which
    // is blank and skipped
    let doc = Buffer::from_str("a\n");
    let mut state = State::new(doc);
    state.selection = Selection::single(0, state.doc.len_chars());

    let transaction = toggle_line_comments(&state, "//");
    assert_eq!(transaction.edits.len(), 1);
    transaction.apply(&mut state);
    assert_eq!(doc_string(&state.doc), "// a\n");
}

#[test]
fn selection_is_mapped_through_edits() {
    // after commenting, the selection bounds point at the same characters
    let doc = Buffer::from_str("ab\ncd");
    let mut state = State::new(doc);
    state.selection = Selection::single(0, 4);

    let transaction = toggle_line_comments(&state, "//");
    transaction.apply(&mut state);
    assert_eq!(doc_string(&state.doc), "// ab\n// cd");
    assert_eq!(state.selection.ranges[0].anchor, 0);
    assert_eq!(state.selection.ranges[0].head, 10);
}
