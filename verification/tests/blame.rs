use git_ai::authorship::authorship_log::LineRange;
use git_ai::authorship::authorship_log_serialization::{
    AttestationEntry, AuthorshipLog, FileAttestation,
};
use git_ai::commands::blame::{blame_authors, parse_blame_porcelain, BlameLine};

const FIRST: &str = "1111111111111111111111111111111111111111";
const SECOND: &str = "2222222222222222222222222222222222222222";

fn porcelain() -> String {
    format!(
        "{FIRST} 1 1 2\n\
         author Ada\n\
         author-mail <ada@example.com>\n\
         summary first commit\n\
         filename a.txt\n\
         \tline one\n\
         {FIRST} 2 2\n\
         \tline two\n\
         {SECOND} 1 3 1\n\
         author Agent\n\
         previous {FIRST} a.txt\n\
         filename a.txt\n\
         \t{FIRST} 7 7\n"
    )
}

fn blamed(commit: &str, original_line: u32, final_line: u32) -> BlameLine {
    BlameLine { commit: commit.to_string(), original_line, final_line }
}

fn note(path: &str, hash: &str, ranges: Vec<LineRange>) -> AuthorshipLog {
    let mut log = AuthorshipLog::new();
    let mut file = FileAttestation::new(path.to_string());
    file.add_entry(AttestationEntry::new(hash.to_string(), ranges));
    log.attestations.push(file);
    log
}

#[test]
fn porcelain_output_names_commit_and_lines() {
    assert_eq!(
        parse_blame_porcelain(&porcelain()),
        vec![blamed(FIRST, 1, 1), blamed(FIRST, 2, 2), blamed(SECOND, 1, 3)]
    );
}

#[test]
fn other_lines_of_the_output_open_nothing() {
    assert_eq!(parse_blame_porcelain(""), vec![]);
    assert_eq!(parse_blame_porcelain("author 1 2\nabc 1 2\n"), vec![]);
    assert_eq!(parse_blame_porcelain(&format!("{FIRST} x 2\n{FIRST} 1\n")), vec![]);
    assert_eq!(parse_blame_porcelain(&format!("{}A 1 2\n", &FIRST[1..])), vec![]);
}

#[test]
fn lines_go_to_the_session_that_the_note_of_their_commit_names() {
    let lines = vec![blamed(FIRST, 1, 1), blamed(FIRST, 2, 2), blamed(SECOND, 1, 3)];
    let notes = vec![
        (SECOND.to_string(), note("a.txt", "abc", vec![LineRange::Range(1, 4)])),
        (FIRST.to_string(), note("a.txt", "def", vec![LineRange::Single(2)])),
    ];
    assert_eq!(
        blame_authors(&lines, &notes, "a.txt"),
        vec![(1, "human".to_string()), (2, "def".to_string()), (3, "abc".to_string())]
    );
    // another file of the same commits
    assert_eq!(
        blame_authors(&lines, &notes, "b.txt"),
        vec![(1, "human".to_string()), (2, "human".to_string()), (3, "human".to_string())]
    );
    // a commit without a note
    assert_eq!(
        blame_authors(&lines, &vec![], "a.txt"),
        vec![(1, "human".to_string()), (2, "human".to_string()), (3, "human".to_string())]
    );
}
