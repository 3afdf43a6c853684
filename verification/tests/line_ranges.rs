use git_ai::authorship::authorship_log::{
    dedup_line_numbers, expand_all, keep_lines_within, move_lines, ranges_contain,
    sort_line_numbers, to_commit_lines, LineRange,
};
use git_ai::authorship::edit_script::EditOp;

#[test]
fn compress_lines_collapses_adjacent_lines() {
    let ranges = LineRange::compress_lines(&[1, 2, 3, 5, 7, 8]);
    assert_eq!(
        ranges,
        vec![LineRange::Range(1, 3), LineRange::Single(5), LineRange::Range(7, 8)]
    );
}

#[test]
fn compress_lines_collapses_equal_successors() {
    assert_eq!(
        LineRange::compress_lines(&[4, 4, 5, 5, 5, 9, 9]),
        vec![LineRange::Range(4, 5), LineRange::Single(9)]
    );
    assert_eq!(LineRange::compress_lines(&[]), vec![]);
    assert_eq!(LineRange::compress_lines(&[u32::MAX - 1, u32::MAX]), vec![LineRange::Range(u32::MAX - 1, u32::MAX)]);
}

#[test]
fn compress_of_expand_gives_the_ranges_back() {
    let ranges = vec![
        LineRange::Single(1),
        LineRange::Range(3, 6),
        LineRange::Single(8),
        LineRange::Range(20, 21),
    ];
    let lines = expand_all(&ranges);
    assert_eq!(lines, vec![1, 3, 4, 5, 6, 8, 20, 21]);
    assert_eq!(LineRange::compress_lines(&lines), ranges);
}

#[test]
fn expand_gives_every_line() {
    assert_eq!(LineRange::Single(7).expand(), vec![7]);
    assert_eq!(LineRange::Range(2, 5).expand(), vec![2, 3, 4, 5]);
    assert_eq!(LineRange::Range(5, 2).expand(), Vec::<u32>::new());
    assert_eq!(LineRange::Range(u32::MAX, u32::MAX).expand(), vec![u32::MAX]);
    assert_eq!(LineRange::Range(2, 5).line_count(), 4);
    assert_eq!(LineRange::Range(5, 2).line_count(), 0);
    assert_eq!(LineRange::Range(0, u32::MAX).line_count(), 1 << 32);
}

#[test]
fn range_contains_its_ends() {
    let r = LineRange::Range(10, 15);
    assert!(r.contains(10) && r.contains(15) && !r.contains(9) && !r.contains(16));
    assert_eq!((r.start(), r.end()), (10, 15));
    assert!(ranges_contain(&vec![LineRange::Single(1), r], 12));
    assert!(!ranges_contain(&vec![LineRange::Single(1), r], 2));
}

#[test]
fn lines_move_up_by_the_unstaged_lines_before_them() {
    // an unstaged line at 1: line 22 of the working tree is line 21 of the commit
    assert_eq!(to_commit_lines(&vec![22, 31], &vec![1]), vec![21, 30]);
    assert_eq!(to_commit_lines(&vec![4, 5, 6, 7], &vec![6, 7]), vec![4, 5, 6, 6]);
    assert_eq!(to_commit_lines(&vec![1, 2], &vec![]), vec![1, 2]);
}

#[test]
fn sort_and_dedup() {
    assert_eq!(sort_line_numbers(&vec![5, 1, 4, 1, 3]), vec![1, 1, 3, 4, 5]);
    assert_eq!(dedup_line_numbers(&vec![1, 1, 3, 4, 4, 4, 5, 1]), vec![1, 3, 4, 5, 1]);
}

#[test]
fn only_lines_within_the_ranges_stay() {
    let kept = vec![LineRange::Range(2, 3), LineRange::Single(9)];
    assert_eq!(keep_lines_within(&vec![1, 2, 3, 4, 9, 10], &kept), vec![2, 3, 9]);
}

#[test]
fn kept_lines_move_with_their_step() {
    let ops = vec![
        EditOp::Equal { old_index: 0, new_index: 0, len: 2 },
        EditOp::Insert { old_index: 2, new_index: 2, new_len: 3 },
        EditOp::Delete { old_index: 2, old_len: 1, new_index: 5 },
        EditOp::Equal { old_index: 3, new_index: 5, len: 2 },
    ];
    assert_eq!(move_lines(&vec![1, 2, 3, 4, 5, 6], &ops), vec![1, 2, 6, 7]);
}
