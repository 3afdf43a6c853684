use git_ai::authorship::authorship_log::LineRange;
use git_ai::authorship::authorship_log_serialization::{
    AttestationEntry, AuthorshipLog, FileAttestation, PromptRecord,
};
use git_ai::authorship::stats::{
    analyze_authorship_log, calculate_waiting_time, parse_numstat, stats_for_commit_stats,
};
use git_ai::authorship::transcript::{AiTranscript, Message};
use git_ai::authorship::working_log::AgentId;

fn user(ts: Option<&str>) -> Message {
    Message::user("q".to_string(), ts.map(|s| s.to_string()))
}

fn assistant(ts: Option<&str>) -> Message {
    Message::assistant("a".to_string(), ts.map(|s| s.to_string()))
}

#[test]
fn waiting_time_sums_the_gaps_between_question_and_answer() {
    let transcript = AiTranscript {
        messages: vec![
            user(Some("2024-01-01T10:00:00Z")),
            assistant(Some("2024-01-01T10:00:30Z")),
            user(Some("2024-01-01T10:05:00+01:00")),
            assistant(Some("2024-01-01T09:05:12Z")),
            user(None),
            assistant(Some("2024-01-01T11:00:00Z")),
        ],
    };
    assert_eq!(calculate_waiting_time(&transcript), 42);
}

#[test]
fn waiting_time_is_nothing_for_short_or_open_conversations() {
    assert_eq!(calculate_waiting_time(&AiTranscript::new()), 0);
    let asked = AiTranscript {
        messages: vec![
            user(Some("2024-01-01T10:00:00Z")),
            assistant(Some("2024-01-01T10:00:30Z")),
            user(Some("2024-01-01T10:01:00Z")),
        ],
    };
    assert_eq!(calculate_waiting_time(&asked), 0);
    let backwards = AiTranscript {
        messages: vec![user(Some("2024-01-01T10:00:30Z")), assistant(Some("2024-01-01T10:00:00Z"))],
    };
    assert_eq!(calculate_waiting_time(&backwards), 0);
    let garbled = AiTranscript {
        messages: vec![user(Some("yesterday")), assistant(Some("2024-01-01T10:00:00Z"))],
    };
    assert_eq!(calculate_waiting_time(&garbled), 0);
}

fn log_with(overriden_lines: u32) -> AuthorshipLog {
    let mut log = AuthorshipLog::new();
    let mut file = FileAttestation::new("a.rs".to_string());
    file.add_entry(AttestationEntry::new(
        "h1".to_string(),
        vec![LineRange::Range(1, 4), LineRange::Single(9)],
    ));
    file.add_entry(AttestationEntry::new("unknown".to_string(), vec![LineRange::Range(20, 21)]));
    log.attestations.push(file);
    log.metadata.prompts.push((
        "h1".to_string(),
        PromptRecord {
            agent_id: AgentId { tool: "t".to_string(), id: "i".to_string(), model: "m".to_string() },
            human_author: None,
            messages: vec![
                user(Some("2024-01-01T10:00:00Z")),
                assistant(Some("2024-01-01T10:00:07Z")),
            ],
            overriden_lines,
        },
    ));
    log
}

#[test]
fn log_is_counted_by_kind_of_author() {
    assert_eq!(analyze_authorship_log(&log_with(0)).unwrap(), (2, 0, 5, 5, 7));
    assert_eq!(analyze_authorship_log(&log_with(2)).unwrap(), (2, 2, 3, 5, 7));
    assert_eq!(analyze_authorship_log(&log_with(50)).unwrap(), (2, 5, 0, 5, 7));
    assert_eq!(analyze_authorship_log(&AuthorshipLog::new()).unwrap(), (0, 0, 0, 0, 0));
}

#[test]
fn counts_that_have_no_room_fail() {
    let mut log = AuthorshipLog::new();
    let mut file = FileAttestation::new("a.rs".to_string());
    file.add_entry(AttestationEntry::new("x".to_string(), vec![LineRange::Range(0, u32::MAX)]));
    log.attestations.push(file);
    assert!(analyze_authorship_log(&log).is_err());
}

#[test]
fn human_lines_are_what_the_diff_adds_beyond_the_agents() {
    let stats = stats_for_commit_stats(12, 3, Some(&log_with(1))).unwrap();
    assert_eq!(stats.human_additions, 8);
    assert_eq!(stats.mixed_additions, 1);
    assert_eq!(stats.ai_additions, 4);
    assert_eq!(stats.ai_accepted, 5);
    assert_eq!(stats.time_waiting_for_ai, 7);
    assert_eq!((stats.git_diff_added_lines, stats.git_diff_deleted_lines), (12, 3));
    // fewer added lines than lines of agents: the log's own count of human lines
    assert_eq!(stats_for_commit_stats(3, 0, Some(&log_with(0))).unwrap().human_additions, 2);
    let none = stats_for_commit_stats(3, 1, None).unwrap();
    assert_eq!((none.human_additions, none.ai_additions), (3, 0));
}

#[test]
fn numstat_is_summed() {
    let out = "3\t1\tsrc/a.rs\n-\t-\timage.png\n\n10\t0\tb.txt\n5\t-\tc\nnot a line\n7\n";
    assert_eq!(parse_numstat(out).unwrap(), (18, 1));
    assert_eq!(parse_numstat("").unwrap(), (0, 0));
    assert!(parse_numstat("4294967295\t0\ta\n1\t0\tb\n").is_err());
}
