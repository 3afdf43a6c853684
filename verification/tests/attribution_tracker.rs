use git_ai::authorship::attribution_tracker::{
    attributions_to_line_attributions, line_attributions_to_attributions, transfer_attributions,
    Attribution, AttributionTracker, LineAttribution,
};
use git_ai::authorship::edit_script::{check_script, to_byte_script, EditOp};

fn attr(start: usize, end: usize, author: &str, ts: u128) -> Attribution {
    Attribution::new(start, end, author.to_string(), ts)
}

fn line(start: u32, end: u32, author: &str) -> LineAttribution {
    LineAttribution::new(start, end, author.to_string())
}

#[test]
fn unattributed_bytes_go_to_the_given_author() {
    let tracker = AttributionTracker::new();
    let given = vec![attr(3, 6, "ai", 5), attr(8, 10, "ai", 5)];
    let filled = tracker.attribute_unattributed_ranges("0123456789ab", &given, "human", 4);
    assert_eq!(
        filled,
        vec![
            attr(3, 6, "ai", 5),
            attr(8, 10, "ai", 5),
            attr(0, 3, "human", 4),
            attr(6, 8, "human", 4),
            attr(10, 12, "human", 4),
        ]
    );
}

#[test]
fn fully_attributed_content_gets_nothing_more() {
    let tracker = AttributionTracker::new();
    let given = vec![attr(0, 4, "ai", 5), attr(2, 9, "other", 6)];
    assert_eq!(tracker.attribute_unattributed_ranges("012345678", &given, "human", 4), given);
    assert_eq!(tracker.attribute_unattributed_ranges("", &vec![], "human", 4), vec![]);
}

#[test]
fn appended_lines_belong_to_the_new_author() {
    let tracker = AttributionTracker::new();
    let old = "Base line 1\nBase line 2\n";
    let new = "Base line 1\nBase line 2\nNEW\nHello\nWorld\n";
    let before = vec![attr(0, old.len(), "human", 9)];
    let after = tracker.update_attributions(old, new, &before, "session", 10).unwrap();
    assert_eq!(after, vec![attr(0, old.len(), "human", 9), attr(old.len(), new.len(), "session", 10)]);
}

#[test]
fn inserted_line_splits_nothing_and_shifts_what_follows() {
    let tracker = AttributionTracker::new();
    let old = "a\nb\nc\n";
    let new = "a\nX\nb\nc\n";
    let before = vec![attr(0, 2, "one", 1), attr(2, 6, "two", 2)];
    let after = tracker.update_attributions(old, new, &before, "ai", 3).unwrap();
    assert_eq!(after, vec![attr(0, 2, "one", 1), attr(2, 4, "ai", 3), attr(4, 8, "two", 2)]);
}

#[test]
fn deleted_line_takes_its_attribution_along() {
    let tracker = AttributionTracker::new();
    let old = "a\nb\nc\n";
    let new = "a\nc\n";
    let before = vec![attr(0, 2, "one", 1), attr(2, 4, "two", 2), attr(4, 6, "three", 3)];
    let after = tracker.update_attributions(old, new, &before, "ai", 4).unwrap();
    assert_eq!(after, vec![attr(0, 2, "one", 1), attr(2, 4, "three", 3)]);
}

#[test]
fn replaced_line_belongs_to_the_new_author() {
    let tracker = AttributionTracker::new();
    let old = "one\ntwo\nthree\n";
    let new = "one\nTWO!\nthree\n";
    let before = vec![attr(0, 14, "ai", 1)];
    let after = tracker.update_attributions(old, new, &before, "human", 2).unwrap();
    assert_eq!(after, vec![attr(0, 4, "ai", 1), attr(4, 9, "human", 2), attr(9, 15, "ai", 1)]);
}

#[test]
fn attribution_that_spans_a_change_is_clipped_on_both_sides() {
    let tracker = AttributionTracker::new();
    let old = "aa\nbb\ncc\n";
    let new = "aa\ncc\n";
    // covers the end of line 1, all of line 2 and the start of line 3
    let before = vec![attr(1, 7, "ai", 1)];
    let after = tracker.update_attributions(old, new, &before, "human", 2).unwrap();
    assert_eq!(after, vec![attr(1, 4, "ai", 1)]);
}

#[test]
fn unchanged_content_keeps_everything() {
    let tracker = AttributionTracker::new();
    let text = "x\ny\n";
    let before = vec![attr(2, 4, "b", 2), attr(0, 2, "a", 1)];
    let after = tracker.update_attributions(text, text, &before, "ai", 3).unwrap();
    assert_eq!(after, vec![attr(0, 2, "a", 1), attr(2, 4, "b", 2)]);
}

#[test]
fn neighbours_of_one_author_and_time_are_merged() {
    let script = vec![
        EditOp::Insert { old_index: 0, new_index: 0, new_len: 3 },
        EditOp::Insert { old_index: 0, new_index: 3, new_len: 2 },
    ];
    let after = transfer_attributions(&vec![], &script, "ai", 7);
    assert_eq!(after, vec![attr(0, 5, "ai", 7)]);
}

#[test]
fn result_is_sorted_by_start_then_time() {
    let script = vec![EditOp::Equal { old_index: 0, new_index: 0, len: 10 }];
    let before = vec![attr(4, 8, "late", 9), attr(0, 6, "b", 2), attr(0, 3, "a", 1)];
    let after = transfer_attributions(&before, &script, "ai", 7);
    assert_eq!(after, vec![attr(0, 3, "a", 1), attr(0, 6, "b", 2), attr(4, 8, "late", 9)]);
}

#[test]
fn script_is_checked_against_both_contents() {
    let good = vec![
        EditOp::Equal { old_index: 0, new_index: 0, len: 2 },
        EditOp::Replace { old_index: 2, old_len: 1, new_index: 2, new_len: 2 },
    ];
    assert!(check_script(&good, b"abc", b"abxy"));
    // does not reach the end of the new content
    assert!(!check_script(&good, b"abc", b"abxyz"));
    // keeps bytes that differ
    assert!(!check_script(&good, b"abc", b"aXxy"));
    // leaves a gap
    let gap = vec![EditOp::Equal { old_index: 1, new_index: 1, len: 1 }];
    assert!(!check_script(&gap, b"ab", b"ab"));
    assert!(check_script(&vec![], b"", b""));
    assert!(!check_script(&vec![], b"a", b""));
}

#[test]
fn line_script_becomes_byte_script() {
    let ops = vec![
        EditOp::Equal { old_index: 0, new_index: 0, len: 1 },
        EditOp::Insert { old_index: 1, new_index: 1, new_len: 2 },
        EditOp::Delete { old_index: 1, old_len: 1, new_index: 3 },
    ];
    // old: "ab\ncd\n", new: "ab\nx\nyz\n"
    let bytes = to_byte_script(&ops, &vec![0, 3, 6], &vec![0, 3, 5, 8]).unwrap();
    assert_eq!(
        bytes,
        vec![
            EditOp::Equal { old_index: 0, new_index: 0, len: 3 },
            EditOp::Insert { old_index: 3, new_index: 3, new_len: 5 },
            EditOp::Delete { old_index: 3, old_len: 3, new_index: 8 },
        ]
    );
    let out_of_range = vec![EditOp::Equal { old_index: 2, new_index: 0, len: 1 }];
    assert_eq!(to_byte_script(&out_of_range, &vec![0, 3, 6], &vec![0, 3, 5, 8]), None);
}

#[test]
fn lines_go_to_every_author_who_touches_them() {
    let content = "human1\nhuman2\nAI3\nAI4\n";
    let attrs = vec![attr(0, 14, "human", 1), attr(14, 22, "ai", 2)];
    assert_eq!(
        attributions_to_line_attributions(&attrs, content),
        vec![line(1, 2, "human"), line(3, 4, "ai")]
    );
}

#[test]
fn line_shared_by_two_authors_goes_to_both() {
    let content = "abcdef\nxyz\n";
    let attrs = vec![attr(0, 3, "human", 1), attr(3, 7, "ai", 2), attr(7, 11, "human", 1)];
    assert_eq!(
        attributions_to_line_attributions(&attrs, content),
        vec![line(1, 2, "human"), line(1, 1, "ai")]
    );
}

#[test]
fn runs_of_one_author_are_maximal() {
    let content = "a\nb\nc\nd\ne";
    let attrs = vec![attr(0, 2, "ai", 1), attr(2, 4, "ai", 2), attr(6, 9, "ai", 3)];
    assert_eq!(
        attributions_to_line_attributions(&attrs, content),
        vec![line(1, 2, "ai"), line(4, 5, "ai")]
    );
}

#[test]
fn trailing_newline_opens_no_line() {
    let attrs = vec![attr(0, 100, "ai", 1)];
    assert_eq!(attributions_to_line_attributions(&attrs, "a\nb\n"), vec![line(1, 2, "ai")]);
    assert_eq!(attributions_to_line_attributions(&attrs, "a\nb"), vec![line(1, 2, "ai")]);
    assert_eq!(attributions_to_line_attributions(&attrs, "\n"), vec![line(1, 1, "ai")]);
    assert_eq!(attributions_to_line_attributions(&attrs, ""), vec![]);
}

#[test]
fn line_attributions_cover_their_lines_whole() {
    let content = "ab\ncd\nef";
    let lines = vec![line(2, 2, "ai"), line(1, 9, "x"), line(4, 5, "gone"), line(3, 2, "empty")];
    assert_eq!(
        line_attributions_to_attributions(&lines, content, 7),
        vec![attr(3, 6, "ai", 7), attr(0, 8, "x", 7)]
    );
}

#[test]
fn written_line_stays_with_its_author_through_a_later_change() {
    let tracker = AttributionTracker::new();
    let base = "a\n";
    let first = "a\nb\n";
    let second = "x\na\nb\n";
    let start = tracker.attribute_unattributed_ranges(base, &vec![], "human", 9);
    let written = tracker.update_attributions(base, first, &start, "session", 10).unwrap();
    let filled = tracker.attribute_unattributed_ranges(first, &written, "human", 19);
    assert_eq!(filled, written);
    let later = tracker.update_attributions(first, second, &filled, "human", 20).unwrap();
    assert_eq!(
        later,
        vec![attr(0, 2, "human", 20), attr(2, 4, "human", 9), attr(4, 6, "session", 10)]
    );
    // taken in one step by the session, the same line is the session's too
    let at_once = tracker.update_attributions(base, first, &start, "session", 30).unwrap();
    assert_eq!(at_once[1].author_id, later[2].author_id);
}
