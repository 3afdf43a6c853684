use git_ai::authorship::attribution_tracker::{Attribution, AttributionTracker};
use git_ai::authorship::post_commit::{
    convert_line_ranges_to_char_ranges, filter_attributions_to_ranges,
    filter_line_attributions_to_ranges,
};
use git_ai::authorship::attribution_tracker::LineAttribution;
use git_ai::authorship::authorship_log::LineRange;

fn attr(start: usize, end: usize, author: &str, ts: u128) -> Attribution {
    Attribution::new(start, end, author.to_string(), ts)
}

#[test]
fn the_latest_attribution_counts() {
    let tracker = AttributionTracker::new();
    let attrs = vec![attr(0, 10, "old", 1), attr(3, 6, "new", 2)];
    assert_eq!(
        tracker.resolve_overlaps(&attrs),
        vec![attr(0, 3, "old", 1), attr(3, 6, "new", 2), attr(6, 10, "old", 1)]
    );
}

#[test]
fn of_two_attributions_of_one_time_the_later_entry_counts() {
    let tracker = AttributionTracker::new();
    let attrs = vec![attr(0, 4, "first", 5), attr(2, 6, "second", 5), attr(9, 9, "empty", 9)];
    assert_eq!(tracker.resolve_overlaps(&attrs), vec![attr(0, 2, "first", 5), attr(2, 6, "second", 5)]);
}

#[test]
fn neighbours_of_one_author_and_time_become_one() {
    let tracker = AttributionTracker::new();
    let attrs = vec![attr(4, 8, "ai", 3), attr(0, 4, "ai", 3), attr(10, 12, "ai", 3)];
    assert_eq!(tracker.resolve_overlaps(&attrs), vec![attr(0, 8, "ai", 3), attr(10, 12, "ai", 3)]);
    assert_eq!(tracker.resolve_overlaps(&vec![]), vec![]);
}

#[test]
fn line_ranges_become_byte_ranges_without_the_last_newline() {
    let content = "ab\ncd\nef";
    let ranges = vec![
        LineRange::Range(1, 2),
        LineRange::Single(3),
        LineRange::Range(2, 9),
        LineRange::Single(4),
        LineRange::Single(0),
        LineRange::Range(3, 2),
    ];
    assert_eq!(convert_line_ranges_to_char_ranges(content, &ranges), vec![(0, 5), (6, 8), (3, 8)]);
    assert_eq!(convert_line_ranges_to_char_ranges("ab\n", &vec![LineRange::Range(1, 5)]), vec![(0, 3)]);
    assert_eq!(convert_line_ranges_to_char_ranges("", &vec![LineRange::Single(1)]), vec![]);
}

#[test]
fn attributions_are_cut_down_to_ranges() {
    let attrs = vec![attr(0, 10, "a", 1), attr(20, 30, "b", 2)];
    let ranges = vec![(5, 8), (9, 25), (40, 50)];
    assert_eq!(
        filter_attributions_to_ranges(&attrs, &ranges),
        vec![attr(5, 8, "a", 1), attr(9, 10, "a", 1), attr(20, 25, "b", 2)]
    );
    let lines = vec![LineAttribution::new(1, 10, "a".to_string())];
    assert_eq!(
        filter_line_attributions_to_ranges(&lines, &vec![LineRange::Range(3, 4), LineRange::Single(10), LineRange::Single(11)]),
        vec![LineAttribution::new(3, 4, "a".to_string()), LineAttribution::new(10, 10, "a".to_string())]
    );
}
