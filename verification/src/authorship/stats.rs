//! What an authorship log says of a commit in numbers.

use vstd::prelude::*;

use crate::authorship::authorship_log_serialization::{
    attestation_views, count_lines, file_views, key_index, prompt_views, total_lines,
    AttestationEntryView, AuthorshipLog, FileAttestationView, PromptRecord, PromptRecordView,
};
use crate::authorship::transcript::{AiTranscript, Message};
use crate::error::GitAiError;
use crate::text::{
    chars_of, fields, lines_of_text, parse_u32, part_views, split, text_lines, trimmed, trim,
    u32_value, Separator,
};
use crate::utils::{elapsed_seconds, parse_rfc3339, rfc3339_instant, seconds_between};

verus! {

/// The lines of a commit by kind of author.
#[derive(Debug, Clone, Copy, PartialEq, Eq, Structural)]
pub struct CommitStats {
    /// Lines that a person wrote.
    pub human_additions: u32,
    /// Lines that an agent wrote and a person rewrote.
    pub mixed_additions: u32,
    /// Lines that an agent wrote and nobody touched since.
    pub ai_additions: u32,
    pub ai_accepted: u32,
    /// Seconds spent waiting for an agent to answer.
    pub time_waiting_for_ai: u64,
    pub git_diff_deleted_lines: u32,
    pub git_diff_added_lines: u32,
}

/// The seconds that pass between the message at `i` and the next one, where
/// the first is a message of the user and the second an answer, both carry a
/// time, both times parse, and the answer is the later one; else 0.
pub open spec fn answer_gap(messages: Seq<Message>, i: int) -> int {
    match (messages[i], messages[i + 1]) {
        (
            Message::User { timestamp: Some(asked), .. },
            Message::Assistant { timestamp: Some(answered), .. },
        ) => match (rfc3339_instant(asked@), rfc3339_instant(answered@)) {
            (Some(a), Some(b)) => match elapsed_seconds(a.0, a.1, b.0, b.1) {
                Some(s) if s > 0 => s,
                _ => 0,
            },
            _ => 0,
        },
        _ => 0,
    }
}

/// Whether the message at `i` is a question with a time and the next one an
/// answer with a time.
pub open spec fn answered_at(messages: Seq<Message>, i: int) -> bool {
    messages[i] matches Message::User { timestamp: Some(_), .. } && messages[i
        + 1] matches Message::Assistant { timestamp: Some(_), .. }
}

/// The seconds spent waiting for answers from the message at `i` on: the sum
/// of the gaps between each question and the answer that follows it.
pub open spec fn waiting_from(messages: Seq<Message>, i: int) -> int
    decreases messages.len() - i,
{
    if i < 0 || i >= messages.len() - 1 {
        0
    } else if answered_at(messages, i) {
        answer_gap(messages, i) + waiting_from(messages, i + 2)
    } else {
        waiting_from(messages, i + 1)
    }
}

/// The seconds that a conversation spent waiting for the agent: nothing
/// where it has at most one message or ends with a message of the user; at
/// most the greatest number of 64 bits.
pub open spec fn waiting_time(messages: Seq<Message>) -> int {
    if messages.len() <= 1 || messages.last() is User {
        0
    } else if waiting_from(messages, 0) > u64::MAX {
        u64::MAX as int
    } else {
        waiting_from(messages, 0)
    }
}

/// Computes the seconds that a conversation spent waiting for the agent.
pub fn calculate_waiting_time(transcript: &AiTranscript) -> (r: u64)
    ensures
        r == waiting_time(transcript@),
{
    let messages = transcript.messages();
    let n: usize = messages.len();
    if n <= 1 {
        return 0;
    }
    match &messages[n - 1] {
        Message::User { .. } => {
            return 0;
        },
        _ => {},
    }
    let mut total: u128 = 0;
    let mut i: usize = 0;
    while i < n - 1
        invariant
            i <= n,
            n == messages@.len(),
            n >= 2,
            total + waiting_from(messages@, i as int) == waiting_from(messages@, 0),
            total <= i * 0x8000_0000_0000_0000,
        decreases n - i,
    {
        match (&messages[i], &messages[i + 1]) {
            (
                Message::User { timestamp: Some(asked), .. },
                Message::Assistant { timestamp: Some(answered), .. },
            ) => {
                match (parse_rfc3339(asked.as_str()), parse_rfc3339(answered.as_str())) {
                    (Some(a), Some(b)) => match seconds_between((a.0, a.1), (b.0, b.1)) {
                        Some(s) => {
                            if s > 0 {
                                total = total + s as u128;
                            }
                        },
                        None => {},
                    },
                    _ => {},
                }
                i = i + 2;
            },
            _ => {
                i = i + 1;
            },
        }
    }
    if total > 0xffff_ffff_ffff_ffff {
        0xffff_ffff_ffff_ffff
    } else {
        total as u64
    }
}

/// The lines that one line of `git show --numstat` counts as added and as
/// deleted: its first two fields between tabs, each as far as it is a
/// number. A line that is blank or does not begin with a digit, or has a
/// single field, counts nothing.
pub open spec fn numstat_line(line: Seq<char>) -> (int, int) {
    if trimmed(line).len() == 0 || !('0' <= line[0] <= '9') || fields(line, '\t').len() < 2 {
        (0, 0)
    } else {
        (
            match u32_value(fields(line, '\t')[0]) {
                Some(n) => n as int,
                None => 0,
            },
            match u32_value(fields(line, '\t')[1]) {
                Some(n) => n as int,
                None => 0,
            },
        )
    }
}

/// The lines that all lines together count as added and as deleted.
pub open spec fn numstat_totals(lines: Seq<Seq<char>>) -> (int, int)
    decreases lines.len(),
{
    if lines.len() == 0 {
        (0, 0)
    } else {
        (
            numstat_totals(lines.drop_last()).0 + numstat_line(lines.last()).0,
            numstat_totals(lines.drop_last()).1 + numstat_line(lines.last()).1,
        )
    }
}

proof fn lemma_numstat_grows(lines: Seq<Seq<char>>, i: int)
    requires
        0 <= i <= lines.len(),
    ensures
        0 <= numstat_totals(lines.take(i)).0 <= numstat_totals(lines).0,
        0 <= numstat_totals(lines.take(i)).1 <= numstat_totals(lines).1,
    decreases lines.len(),
{
    if lines.len() > 0 {
        if i < lines.len() {
            lemma_numstat_grows(lines.drop_last(), i);
            assert(lines.drop_last().take(i) =~= lines.take(i));
        } else {
            assert(lines.take(i) =~= lines);
            lemma_numstat_grows(lines.drop_last(), i - 1);
            assert(lines.drop_last().take(i - 1) =~= lines.drop_last());
        }
    } else {
        assert(lines.take(i) =~= lines);
    }
}

/// The lines that a commit adds and deletes, read from what
/// `git show --numstat` prints. Fails where a number has no room in 32 bits.
pub fn parse_numstat(output: &str) -> (r: Result<(u32, u32), GitAiError>)
    ensures
        r matches Err(e) ==> e is Generic,
        ({
            let totals = numstat_totals(text_lines(output@));
            match r {
                Ok(n) => n.0 == totals.0 && n.1 == totals.1,
                Err(_) => totals.0 > u32::MAX || totals.1 > u32::MAX,
            }
        }),
{
    let chars = chars_of(output);
    let lines = lines_of_text(chars.as_slice());
    let ghost all = part_views(lines@);
    let mut added: u64 = 0;
    let mut deleted: u64 = 0;
    let mut i: usize = 0;
    while i < lines.len()
        invariant
            i <= lines@.len(),
            all == part_views(lines@),
            all == text_lines(output@),
            added == numstat_totals(all.take(i as int)).0,
            deleted == numstat_totals(all.take(i as int)).1,
            added <= u32::MAX,
            deleted <= u32::MAX,
        decreases lines@.len() - i,
    {
        proof {
            assert(all.take(i + 1).drop_last() =~= all.take(i as int));
            assert(all.take(i + 1).last() == lines@[i as int]@);
            lemma_numstat_grows(all, i + 1);
        }
        let line = &lines[i];
        let kept = trim(line.as_slice());
        if kept.len() > 0 && '0' <= line[0] && line[0] <= '9' {
            let parts = split(line.as_slice(), Separator::Char('\t'), true, true);
            if parts.len() >= 2 {
                assert(part_views(parts@)[0] == parts@[0]@);
                assert(part_views(parts@)[1] == parts@[1]@);
                match parse_u32(parts[0].as_slice()) {
                    Some(n) => {
                        added = added + n as u64;
                    },
                    None => {},
                }
                match parse_u32(parts[1].as_slice()) {
                    Some(n) => {
                        deleted = deleted + n as u64;
                    },
                    None => {},
                }
            }
        }
        if added > 0xffff_ffff || deleted > 0xffff_ffff {
            return Err(GitAiError::Generic("more lines than the statistics can count".to_owned()));
        }
        i = i + 1;
    }
    assert(all.take(lines@.len() as int) =~= all);
    Ok((added as u32, deleted as u32))
}

/// Sums over an authorship log.
pub struct Totals {
    pub human: int,
    pub mixed: int,
    pub ai: int,
    pub accepted: int,
    pub waiting: int,
}

impl Totals {
    pub open spec fn zero() -> Totals {
        Totals { human: 0, mixed: 0, ai: 0, accepted: 0, waiting: 0 }
    }

    pub open spec fn plus(self, other: Totals) -> Totals {
        Totals {
            human: self.human + other.human,
            mixed: self.mixed + other.mixed,
            ai: self.ai + other.ai,
            accepted: self.accepted + other.accepted,
            waiting: self.waiting + other.waiting,
        }
    }

    /// Whether every sum has room in its field of `CommitStats`.
    pub open spec fn fits(self) -> bool {
        self.human <= u32::MAX && self.mixed <= u32::MAX && self.ai <= u32::MAX && self.accepted
            <= u32::MAX && self.waiting <= u64::MAX
    }
}

/// What one attestation entry adds to the sums. The lines of an entry whose
/// hash has no prompt count as written by a person. Of the lines of an agent,
/// as many as the prompt records as overridden count as mixed, the others as
/// the agent's; all of them count as accepted.
pub open spec fn entry_totals(
    prompts: Seq<(Seq<char>, PromptRecordView)>,
    entry: AttestationEntryView,
) -> Totals {
    let lines = total_lines(entry.line_ranges) as int;
    let at = key_index(prompts, entry.hash);
    if at < 0 {
        Totals { human: lines, ..Totals::zero() }
    } else {
        let record = prompts[at].1;
        let overridden = if record.overriden_lines < lines {
            record.overriden_lines
        } else {
            lines
        };
        Totals {
            human: 0,
            mixed: overridden,
            ai: lines - overridden,
            accepted: lines,
            waiting: waiting_time(record.messages),
        }
    }
}

/// The sums over the entries of one file.
pub open spec fn entries_totals(
    prompts: Seq<(Seq<char>, PromptRecordView)>,
    entries: Seq<AttestationEntryView>,
) -> Totals
    decreases entries.len(),
{
    if entries.len() == 0 {
        Totals::zero()
    } else {
        entries_totals(prompts, entries.drop_last()).plus(entry_totals(prompts, entries.last()))
    }
}

/// The sums over all files.
pub open spec fn files_totals(
    prompts: Seq<(Seq<char>, PromptRecordView)>,
    files: Seq<FileAttestationView>,
) -> Totals
    decreases files.len(),
{
    if files.len() == 0 {
        Totals::zero()
    } else {
        files_totals(prompts, files.drop_last()).plus(
            entries_totals(prompts, files.last().entries),
        )
    }
}

proof fn lemma_key_index_range(prompts: Seq<(Seq<char>, PromptRecordView)>, key: Seq<char>)
    ensures
        -1 <= key_index(prompts, key) < prompts.len(),
    decreases prompts.len(),
{
    if prompts.len() > 0 && prompts.last().0 != key {
        lemma_key_index_range(prompts.drop_last(), key);
    }
}

fn find_record<'a>(prompts: &'a Vec<(String, PromptRecord)>, key: &String) -> (r: Option<
    &'a PromptRecord,
>)
    ensures
        match r {
            Some(record) => key_index(prompt_views(prompts@), key@) >= 0 && prompt_views(
                prompts@,
            )[key_index(prompt_views(prompts@), key@)].1 == record@,
            None => key_index(prompt_views(prompts@), key@) == -1,
        },
{
    let ghost views = prompt_views(prompts@);
    let mut i: usize = prompts.len();
    assert(views.take(i as int) =~= views);
    while i > 0
        invariant
            i <= prompts@.len(),
            views == prompt_views(prompts@),
            key_index(views, key@) == key_index(views.take(i as int), key@),
        decreases i,
    {
        proof {
            assert(views.take(i as int).drop_last() =~= views.take(i - 1));
            assert(views.take(i as int).last() == (prompts@[i - 1].0@, prompts@[i - 1].1@));
        }
        if prompts[i - 1].0 == *key {
            return Some(&prompts[i - 1].1);
        }
        i = i - 1;
    }
    None
}

/// The sums that a step may reach before they are known not to fit.
spec fn bounded(t: Totals) -> bool {
    0 <= t.human <= u32::MAX && 0 <= t.mixed <= u32::MAX && 0 <= t.ai <= u32::MAX && 0
        <= t.accepted <= u32::MAX && 0 <= t.waiting <= u64::MAX
}

proof fn lemma_entry_totals_nonnegative(
    prompts: Seq<(Seq<char>, PromptRecordView)>,
    entry: AttestationEntryView,
)
    requires
        forall|k: int| 0 <= k < prompts.len() ==> (#[trigger] prompts[k]).1.overriden_lines >= 0,
    ensures
        entry_totals(prompts, entry).human >= 0,
        entry_totals(prompts, entry).mixed >= 0,
        entry_totals(prompts, entry).ai >= 0,
        entry_totals(prompts, entry).accepted >= 0,
        entry_totals(prompts, entry).waiting >= 0,
{
    lemma_key_index_range(prompts, entry.hash);
    let at = key_index(prompts, entry.hash);
    if at >= 0 {
        assert(prompts[at].1.overriden_lines >= 0);
        lemma_waiting_nonnegative(prompts[at].1.messages, 0);
    }
}

proof fn lemma_waiting_nonnegative(messages: Seq<Message>, i: int)
    ensures
        waiting_from(messages, i) >= 0,
    decreases messages.len() - i,
{
    if 0 <= i < messages.len() - 1 {
        if answered_at(messages, i) {
            lemma_waiting_nonnegative(messages, i + 2);
        } else {
            lemma_waiting_nonnegative(messages, i + 1);
        }
    }
}

proof fn lemma_entries_totals_grow(
    prompts: Seq<(Seq<char>, PromptRecordView)>,
    entries: Seq<AttestationEntryView>,
    j: int,
)
    requires
        0 <= j <= entries.len(),
        forall|k: int| 0 <= k < prompts.len() ==> (#[trigger] prompts[k]).1.overriden_lines >= 0,
    ensures
        0 <= entries_totals(prompts, entries.take(j)).human <= entries_totals(
            prompts,
            entries,
        ).human,
        0 <= entries_totals(prompts, entries.take(j)).mixed <= entries_totals(
            prompts,
            entries,
        ).mixed,
        0 <= entries_totals(prompts, entries.take(j)).ai <= entries_totals(prompts, entries).ai,
        0 <= entries_totals(prompts, entries.take(j)).accepted <= entries_totals(
            prompts,
            entries,
        ).accepted,
        0 <= entries_totals(prompts, entries.take(j)).waiting <= entries_totals(
            prompts,
            entries,
        ).waiting,
    decreases entries.len(),
{
    if entries.len() > 0 {
        lemma_entry_totals_nonnegative(prompts, entries.last());
        if j < entries.len() {
            lemma_entries_totals_grow(prompts, entries.drop_last(), j);
            assert(entries.drop_last().take(j) =~= entries.take(j));
        } else {
            assert(entries.take(j) =~= entries);
            lemma_entries_totals_grow(prompts, entries.drop_last(), j - 1);
            assert(entries.drop_last().take(j - 1) =~= entries.drop_last());
        }
    } else {
        assert(entries.take(j) =~= entries);
    }
}

proof fn lemma_files_totals_grow(
    prompts: Seq<(Seq<char>, PromptRecordView)>,
    files: Seq<FileAttestationView>,
    i: int,
)
    requires
        0 <= i <= files.len(),
        forall|k: int| 0 <= k < prompts.len() ==> (#[trigger] prompts[k]).1.overriden_lines >= 0,
    ensures
        0 <= files_totals(prompts, files.take(i)).human <= files_totals(prompts, files).human,
        0 <= files_totals(prompts, files.take(i)).mixed <= files_totals(prompts, files).mixed,
        0 <= files_totals(prompts, files.take(i)).ai <= files_totals(prompts, files).ai,
        0 <= files_totals(prompts, files.take(i)).accepted <= files_totals(
            prompts,
            files,
        ).accepted,
        0 <= files_totals(prompts, files.take(i)).waiting <= files_totals(prompts, files).waiting,
    decreases files.len(),
{
    if files.len() > 0 {
        lemma_entries_totals_grow(prompts, files.last().entries, files.last().entries.len() as int);
        assert(files.last().entries.take(files.last().entries.len() as int)
            =~= files.last().entries);
        if i < files.len() {
            lemma_files_totals_grow(prompts, files.drop_last(), i);
            assert(files.drop_last().take(i) =~= files.take(i));
        } else {
            assert(files.take(i) =~= files);
            lemma_files_totals_grow(prompts, files.drop_last(), i - 1);
            assert(files.drop_last().take(i - 1) =~= files.drop_last());
        }
    } else {
        assert(files.take(i) =~= files);
    }
}

/// The numbers of an authorship log: lines of people, mixed lines, lines of
/// agents, accepted lines, and seconds spent waiting. Fails where a number
/// has no room in its field.
pub fn analyze_authorship_log(authorship_log: &AuthorshipLog) -> (r: Result<
    (u32, u32, u32, u32, u64),
    GitAiError,
>)
    ensures
        r matches Err(e) ==> e is Generic,
        ({
            let totals = files_totals(authorship_log@.prompts, authorship_log@.attestations);
            match r {
                Ok(n) => totals.fits() && n.0 == totals.human && n.1 == totals.mixed && n.2
                    == totals.ai && n.3 == totals.accepted && n.4 == totals.waiting,
                Err(_) => !totals.fits(),
            }
        }),
{
    let ghost prompts = authorship_log@.prompts;
    let ghost files = authorship_log@.attestations;
    let limit: u128 = 0xffff_ffff;
    let long_limit: u128 = 0xffff_ffff_ffff_ffff;
    let mut human: u128 = 0;
    let mut mixed: u128 = 0;
    let mut ai: u128 = 0;
    let mut accepted: u128 = 0;
    let mut waiting: u128 = 0;
    proof {
        assert forall|k: int| 0 <= k < prompts.len() implies (#[trigger] prompts[k]).1.overriden_lines
            >= 0 by {
            assert(prompts[k].1 == authorship_log.metadata.prompts@[k].1@);
        }
    }
    let mut i: usize = 0;
    while i < authorship_log.attestations.len()
        invariant
            i <= authorship_log.attestations@.len(),
            prompts == prompt_views(authorship_log.metadata.prompts@),
            files == file_views(authorship_log.attestations@),
            limit == u32::MAX,
            long_limit == u64::MAX,
            forall|k: int|
                0 <= k < prompts.len() ==> (#[trigger] prompts[k]).1.overriden_lines >= 0,
            bounded(files_totals(prompts, files.take(i as int))),
            human == files_totals(prompts, files.take(i as int)).human,
            mixed == files_totals(prompts, files.take(i as int)).mixed,
            ai == files_totals(prompts, files.take(i as int)).ai,
            accepted == files_totals(prompts, files.take(i as int)).accepted,
            waiting == files_totals(prompts, files.take(i as int)).waiting,
        decreases authorship_log.attestations@.len() - i,
    {
        proof {
            assert(files.take(i + 1).drop_last() =~= files.take(i as int));
            assert(files.take(i + 1).last() == authorship_log.attestations@[i as int]@);
            lemma_files_totals_grow(prompts, files, i + 1);
        }
        let entries = &authorship_log.attestations[i].entries;
        let ghost views = attestation_views(entries@);
        let ghost before = files_totals(prompts, files.take(i as int));
        let mut j: usize = 0;
        while j < entries.len()
            invariant
                j <= entries@.len(),
                prompts == prompt_views(authorship_log.metadata.prompts@),
                views == attestation_views(entries@),
                limit == u32::MAX,
                long_limit == u64::MAX,
                forall|k: int|
                    0 <= k < prompts.len() ==> (#[trigger] prompts[k]).1.overriden_lines >= 0,
                i < files.len(),
                files == file_views(authorship_log.attestations@),
                files[i as int].entries == views,
                before == files_totals(prompts, files.take(i as int)),
                bounded(before.plus(entries_totals(prompts, views.take(j as int)))),
                before.plus(entries_totals(prompts, views)).human <= files_totals(
                    prompts,
                    files,
                ).human,
                before.plus(entries_totals(prompts, views)).mixed <= files_totals(
                    prompts,
                    files,
                ).mixed,
                before.plus(entries_totals(prompts, views)).ai <= files_totals(prompts, files).ai,
                before.plus(entries_totals(prompts, views)).accepted <= files_totals(
                    prompts,
                    files,
                ).accepted,
                before.plus(entries_totals(prompts, views)).waiting <= files_totals(
                    prompts,
                    files,
                ).waiting,
                human == before.plus(entries_totals(prompts, views.take(j as int))).human,
                mixed == before.plus(entries_totals(prompts, views.take(j as int))).mixed,
                ai == before.plus(entries_totals(prompts, views.take(j as int))).ai,
                accepted == before.plus(entries_totals(prompts, views.take(j as int))).accepted,
                waiting == before.plus(entries_totals(prompts, views.take(j as int))).waiting,
            decreases entries@.len() - j,
        {
            proof {
                assert(views.take(j + 1).drop_last() =~= views.take(j as int));
                assert(views.take(j + 1).last() == entries@[j as int]@);
                lemma_entries_totals_grow(prompts, views, j + 1);
                lemma_entry_totals_nonnegative(prompts, entries@[j as int]@);
            }
            let lines = count_lines(&entries[j].line_ranges);
            let (h, m, a, c, w): (u128, u128, u128, u128, u128) = match find_record(
                &authorship_log.metadata.prompts,
                &entries[j].hash,
            ) {
                Some(record) => {
                    let overridden: u128 = if (record.overriden_lines as u128) < lines {
                        record.overriden_lines as u128
                    } else {
                        lines
                    };
                    let transcript = AiTranscript { messages: record.messages.clone() };
                    assert(transcript@ =~= record@.messages);
                    (
                        0,
                        overridden,
                        lines - overridden,
                        lines,
                        calculate_waiting_time(&transcript) as u128,
                    )
                },
                None => (lines, 0, 0, 0, 0),
            };
            proof {
                let step = entry_totals(prompts, entries@[j as int]@);
                assert(step == (Totals {
                    human: h as int,
                    mixed: m as int,
                    ai: a as int,
                    accepted: c as int,
                    waiting: w as int,
                }));
                assert(entries_totals(prompts, views.take(j + 1)) == entries_totals(
                    prompts,
                    views.take(j as int),
                ).plus(step));
            }
            if h > limit - human || m > limit - mixed || a > limit - ai || c > limit - accepted
                || w > long_limit - waiting {
                return Err(GitAiError::Generic("more lines than the statistics can count".to_owned()));
            }
            human = human + h;
            mixed = mixed + m;
            ai = ai + a;
            accepted = accepted + c;
            waiting = waiting + w;
            j = j + 1;
        }
        assert(views.take(entries@.len() as int) =~= views);
        i = i + 1;
    }
    assert(files.take(authorship_log.attestations@.len() as int) =~= files);
    Ok((human as u32, mixed as u32, ai as u32, accepted as u32, waiting as u64))
}

/// The lines of a commit that a person wrote: those that the diff counts as
/// added and that are not an agent's. Where the log counts more lines of
/// agents than the diff counts as added, the lines that the log itself gives
/// to people.
pub open spec fn human_lines(added: int, ai: int, attested_human: int) -> int {
    if added >= ai {
        added - ai
    } else {
        attested_human
    }
}

/// The statistics of a commit, given the numbers of lines that its diff adds
/// and deletes, and its authorship log where it has one. Fails where a
/// number of the log has no room in its field.
pub fn stats_for_commit_stats(
    git_diff_added_lines: u32,
    git_diff_deleted_lines: u32,
    authorship_log: Option<&AuthorshipLog>,
) -> (r: Result<CommitStats, GitAiError>)
    ensures
        r matches Err(e) ==> e is Generic,
        ({
            let totals = match authorship_log {
                Some(log) => files_totals(log@.prompts, log@.attestations),
                None => Totals::zero(),
            };
            match r {
                Ok(stats) => totals.fits() && stats == (CommitStats {
                    human_additions: human_lines(
                        git_diff_added_lines as int,
                        totals.ai,
                        totals.human,
                    ) as u32,
                    mixed_additions: totals.mixed as u32,
                    ai_additions: totals.ai as u32,
                    ai_accepted: totals.accepted as u32,
                    time_waiting_for_ai: totals.waiting as u64,
                    git_diff_deleted_lines,
                    git_diff_added_lines,
                }),
                Err(_) => !totals.fits(),
            }
        }),
{
    let (human, mixed, ai, accepted, waiting) = match authorship_log {
        Some(log) => match analyze_authorship_log(log) {
            Ok(numbers) => numbers,
            Err(e) => {
                return Err(e);
            },
        },
        None => (0, 0, 0, 0, 0),
    };
    let human_additions: u32 = if git_diff_added_lines >= ai {
        git_diff_added_lines - ai
    } else {
        human
    };
    Ok(
        CommitStats {
            human_additions,
            mixed_additions: mixed,
            ai_additions: ai,
            ai_accepted: accepted,
            time_waiting_for_ai: waiting,
            git_diff_deleted_lines,
            git_diff_added_lines,
        },
    )
}

} // verus!
