//! Diagnostics of browser connections.
//!
//! Developer tools are hard to reach on some platforms, so the last events of
//! signaling and ICE are kept in memory, from where they can be copied out of
//! the page as one text.

use vstd::prelude::*;
use vstd::string::*;

use crate::text::{
    begins, begins_with, characters, decimal, decimal_string, occurs, occurs_in, split_lines,
};

verus! {

/// Number of diagnostic entries that are kept.
pub const DEBUG_LOG_MAX_ENTRIES: usize = 1024;

/// The last diagnostic entries.
pub struct DebugLog {
    entries: Vec<String>,
}

/// The characters of each text of a sequence.
pub open spec fn texts(strings: Seq<String>) -> Seq<Seq<char>> {
    strings.map_values(|text: String| text@)
}

/// An entry: when something happened, and what.
pub open spec fn entry_text(timestamp: Seq<char>, msg: Seq<char>) -> Seq<char> {
    "["@ + timestamp + "] "@ + msg
}

/// The last entries of a log, as many as are kept.
pub open spec fn last_entries(entries: Seq<Seq<char>>) -> Seq<Seq<char>> {
    if entries.len() <= DEBUG_LOG_MAX_ENTRIES {
        entries
    } else {
        entries.skip(entries.len() - DEBUG_LOG_MAX_ENTRIES)
    }
}

/// The texts of a sequence with a newline between any two.
pub open spec fn joined(entries: Seq<Seq<char>>) -> Seq<char>
    decreases entries.len(),
{
    if entries.len() == 0 {
        Seq::empty()
    } else if entries.len() == 1 {
        entries[0]
    } else {
        joined(entries.drop_last()) + "\n"@ + entries.last()
    }
}

impl DebugLog {
    /// The entries, oldest first.
    pub closed spec fn view(&self) -> Seq<Seq<char>> {
        texts(self.entries@)
    }

    /// No more entries than the log keeps.
    pub closed spec fn wf(&self) -> bool {
        self.entries.len() <= DEBUG_LOG_MAX_ENTRIES
    }

    /// A log without entries.
    pub fn new() -> (log: Self)
        ensures
            log.wf(),
            log@ == Seq::<Seq<char>>::empty(),
    {
        let log = DebugLog { entries: Vec::new() };
        assert(log@ =~= Seq::<Seq<char>>::empty());
        log
    }
}

/// Records what happened and when. If the log is full, the oldest entry goes.
pub fn debug_record(log: &mut DebugLog, timestamp: &str, msg: &str)
    requires
        old(log).wf(),
    ensures
        final(log).wf(),
        final(log)@ == last_entries(old(log)@.push(entry_text(timestamp@, msg@))),
        final(log)@.len() <= DEBUG_LOG_MAX_ENTRIES,
{
    let mut entry = "[".to_owned();
    entry.append(timestamp);
    entry.append("] ");
    entry.append(msg);
    if log.entries.len() >= DEBUG_LOG_MAX_ENTRIES {
        let _ = log.entries.remove(0);
    }
    log.entries.push(entry);
    assert(log@ =~= last_entries(old(log)@.push(entry_text(timestamp@, msg@))));
}

/// The diagnostic log as one text, one entry a line.
pub fn webrtc_debug_snapshot(log: &DebugLog) -> (snapshot: String)
    ensures
        snapshot@ == joined(log@),
{
    let mut snapshot = String::new();
    let mut i: usize = 0;
    proof {
        assert(log@.take(0) =~= Seq::empty());
    }
    while i < log.entries.len()
        invariant
            i <= log.entries.len(),
            snapshot@ == joined(log@.take(i as int)),
        decreases log.entries.len() - i,
    {
        proof {
            let next = log@.take(i as int + 1);
            assert(next.drop_last() =~= log@.take(i as int));
            assert(next.last() == log.entries[i as int]@);
            assert(Seq::<char>::empty() + next.last() =~= next.last());
        }
        if i > 0 {
            snapshot.append("\n");
        }
        snapshot.append(log.entries[i].as_str());
        i = i + 1;
    }
    assert(log@.take(i as int) =~= log@);
    snapshot
}

/// Clears the diagnostic log.
pub fn webrtc_debug_clear(log: &mut DebugLog)
    ensures
        final(log).wf(),
        final(log)@ == Seq::<Seq<char>>::empty(),
{
    log.entries.clear();
    assert(log@ =~= Seq::<Seq<char>>::empty());
}

/// A log after some records, each a timestamp and a message.
pub open spec fn recorded(
    log: Seq<Seq<char>>,
    records: Seq<(Seq<char>, Seq<char>)>,
) -> Seq<Seq<char>>
    decreases records.len(),
{
    if records.len() == 0 {
        log
    } else {
        last_entries(
            recorded(log, records.drop_last()).push(
                entry_text(records.last().0, records.last().1),
            ),
        )
    }
}

/// However much is recorded, the log holds the last entries, as many as are kept,
/// in the order in which they were recorded.
pub proof fn law_log_keeps_last(log: Seq<Seq<char>>, records: Seq<(Seq<char>, Seq<char>)>)
    requires
        log.len() <= DEBUG_LOG_MAX_ENTRIES,
    ensures
        recorded(log, records) == last_entries(
            log + records.map_values(
                |record: (Seq<char>, Seq<char>)| entry_text(record.0, record.1),
            ),
        ),
    decreases records.len(),
{
    let entries = records.map_values(
        |record: (Seq<char>, Seq<char>)| entry_text(record.0, record.1),
    );
    if records.len() == 0 {
        assert(log + entries =~= log);
    } else {
        law_log_keeps_last(log, records.drop_last());
        let before = records.drop_last().map_values(
            |record: (Seq<char>, Seq<char>)| entry_text(record.0, record.1),
        );
        let entry = entry_text(records.last().0, records.last().1);
        assert(log + entries =~= (log + before).push(entry));
        assert(last_entries(last_entries(log + before).push(entry)) =~= last_entries(
            (log + before).push(entry),
        ));
    }
}

/// The kinds of ICE candidates.
#[derive(Clone, Copy, PartialEq, Eq, Structural)]
pub enum CandidateKind {
    /// An address of a local interface.
    Host,
    /// An address seen by a STUN server.
    ServerReflexive,
    /// An address of a TURN server.
    Relay,
    /// An address seen by the peer.
    PeerReflexive,
    /// None of these.
    Unknown,
}

/// What a line of an SDP says of a candidate: `None` if it names none.
pub open spec fn line_candidate(line: Seq<char>) -> Option<CandidateKind> {
    let prefix = "a=candidate:"@;
    if !begins_with(line, prefix) {
        None
    } else {
        let rest = line.skip(prefix.len() as int);
        if occurs_in(rest, " typ host"@) {
            Some(CandidateKind::Host)
        } else if occurs_in(rest, " typ srflx"@) {
            Some(CandidateKind::ServerReflexive)
        } else if occurs_in(rest, " typ relay"@) {
            Some(CandidateKind::Relay)
        } else if occurs_in(rest, " typ prflx"@) {
            Some(CandidateKind::PeerReflexive)
        } else {
            Some(CandidateKind::Unknown)
        }
    }
}

/// How many lines name a candidate of one kind.
pub open spec fn kind_count(lines: Seq<Seq<char>>, kind: CandidateKind) -> nat
    decreases lines.len(),
{
    if lines.len() == 0 {
        0
    } else {
        kind_count(lines.drop_last(), kind) + if line_candidate(lines.last()) == Some(kind) {
            1nat
        } else {
            0nat
        }
    }
}

/// How many lines name a candidate.
pub open spec fn candidate_count(lines: Seq<Seq<char>>) -> nat
    decreases lines.len(),
{
    if lines.len() == 0 {
        0
    } else {
        candidate_count(lines.drop_last()) + if line_candidate(lines.last()) is Some {
            1nat
        } else {
            0nat
        }
    }
}

/// How many candidates an SDP names, by kind.
pub open spec fn candidate_summary(sdp: Seq<char>) -> Seq<char> {
    let lines = split_lines(sdp);
    "host="@ + decimal(kind_count(lines, CandidateKind::Host)) + " srflx="@ + decimal(
        kind_count(lines, CandidateKind::ServerReflexive),
    ) + " relay="@ + decimal(kind_count(lines, CandidateKind::Relay)) + " prflx="@ + decimal(
        kind_count(lines, CandidateKind::PeerReflexive),
    ) + " total="@ + decimal(candidate_count(lines))
}

/// Every candidate counts towards the total and towards exactly one kind.
pub proof fn law_kinds_add_up(lines: Seq<Seq<char>>)
    ensures
        kind_count(lines, CandidateKind::Host) + kind_count(lines, CandidateKind::ServerReflexive)
            + kind_count(lines, CandidateKind::Relay) + kind_count(
            lines,
            CandidateKind::PeerReflexive,
        ) + kind_count(lines, CandidateKind::Unknown) == candidate_count(lines),
    decreases lines.len(),
{
    if lines.len() > 0 {
        law_kinds_add_up(lines.drop_last());
    }
}

/// What a line of an SDP says of a candidate.
fn read_line(line: &Vec<char>) -> (kind: Option<CandidateKind>)
    ensures
        kind == line_candidate(line@),
{
    let prefix = characters("a=candidate:");
    if !begins(line, &prefix) {
        return None;
    }
    let at = prefix.len();
    if occurs(line, &characters(" typ host"), at) {
        Some(CandidateKind::Host)
    } else if occurs(line, &characters(" typ srflx"), at) {
        Some(CandidateKind::ServerReflexive)
    } else if occurs(line, &characters(" typ relay"), at) {
        Some(CandidateKind::Relay)
    } else if occurs(line, &characters(" typ prflx"), at) {
        Some(CandidateKind::PeerReflexive)
    } else {
        Some(CandidateKind::Unknown)
    }
}

spec fn line_views(lines: Seq<Vec<char>>) -> Seq<Seq<char>> {
    lines.map_values(|line: Vec<char>| line@)
}

/// The lines of a text.
fn lines_of(text: &Vec<char>) -> (lines: Vec<Vec<char>>)
    ensures
        line_views(lines@) == split_lines(text@),
{
    let mut lines: Vec<Vec<char>> = Vec::new();
    let mut line: Vec<char> = Vec::new();
    let mut i: usize = 0;
    proof {
        assert(text@.take(0) =~= Seq::empty());
        assert(line_views(lines@).push(line@) =~= seq![Seq::<char>::empty()]);
    }
    while i < text.len()
        invariant
            i <= text.len(),
            line_views(lines@).push(line@) == split_lines(text@.take(i as int)),
        decreases text.len() - i,
    {
        let ghost before = line_views(lines@);
        let ghost partial = line@;
        proof {
            assert(text@.take(i as int + 1).drop_last() =~= text@.take(i as int));
            assert(before.push(partial).drop_last() =~= before);
        }
        let c = text[i];
        if c == '\n' {
            lines.push(line);
            line = Vec::new();
            assert(line_views(lines@) =~= before.push(partial));
            assert(line@ =~= Seq::<char>::empty());
        } else {
            line.push(c);
        }
        i = i + 1;
    }
    let ghost before = line_views(lines@);
    let ghost last = line@;
    lines.push(line);
    proof {
        assert(text@.take(i as int) =~= text@);
        assert(line_views(lines@) =~= before.push(last));
    }
    lines
}

/// Counts the candidate lines of an SDP by kind, and puts the counts into words
/// like `host=1 srflx=1 relay=0 prflx=0 total=2`.
pub fn summarize_sdp_candidates(sdp: &str) -> (summary: String)
    ensures
        summary@ == candidate_summary(sdp@),
{
    let lines = lines_of(&characters(sdp));
    let ghost views = line_views(lines@);
    let mut host: usize = 0;
    let mut srflx: usize = 0;
    let mut relay: usize = 0;
    let mut prflx: usize = 0;
    let mut total: usize = 0;
    let mut i: usize = 0;
    assert(views.take(0) =~= Seq::empty());
    while i < lines.len()
        invariant
            i <= lines.len(),
            views == line_views(lines@),
            host == kind_count(views.take(i as int), CandidateKind::Host),
            srflx == kind_count(views.take(i as int), CandidateKind::ServerReflexive),
            relay == kind_count(views.take(i as int), CandidateKind::Relay),
            prflx == kind_count(views.take(i as int), CandidateKind::PeerReflexive),
            total == candidate_count(views.take(i as int)),
            host <= i,
            srflx <= i,
            relay <= i,
            prflx <= i,
            total <= i,
        decreases lines.len() - i,
    {
        proof {
            let next = views.take(i as int + 1);
            assert(next.drop_last() =~= views.take(i as int));
            assert(next.last() == lines[i as int]@);
        }
        match read_line(&lines[i]) {
            Some(kind) => {
                total = total + 1;
                match kind {
                    CandidateKind::Host => {
                        host = host + 1;
                    },
                    CandidateKind::ServerReflexive => {
                        srflx = srflx + 1;
                    },
                    CandidateKind::Relay => {
                        relay = relay + 1;
                    },
                    CandidateKind::PeerReflexive => {
                        prflx = prflx + 1;
                    },
                    CandidateKind::Unknown => {},
                }
            },
            None => {},
        }
        i = i + 1;
    }
    assert(views.take(i as int) =~= views);
    let mut summary = "host=".to_owned();
    summary.append(decimal_string(host).as_str());
    summary.append(" srflx=");
    summary.append(decimal_string(srflx).as_str());
    summary.append(" relay=");
    summary.append(decimal_string(relay).as_str());
    summary.append(" prflx=");
    summary.append(decimal_string(prflx).as_str());
    summary.append(" total=");
    summary.append(decimal_string(total).as_str());
    summary
}

/// What is recorded is the last entry, with its time in brackets in front. As long as
/// there is room all earlier entries stay; in a log of 1024 entries the oldest goes, and
/// only that one.
pub proof fn law_record_is_last(log: Seq<Seq<char>>, timestamp: Seq<char>, msg: Seq<char>)
    requires
        log.len() <= 1024,
    ensures
        ({
            let after = last_entries(log.push(entry_text(timestamp, msg)));
            &&& after.last() == seq!['['] + timestamp + seq![']', ' '] + msg
            &&& after.drop_last() == if log.len() < 1024 {
                log
            } else {
                log.drop_first()
            }
        }),
{
    reveal_strlit("[");
    reveal_strlit("] ");
    let after = last_entries(log.push(entry_text(timestamp, msg)));
    assert(after.last() =~= seq!['['] + timestamp + seq![']', ' '] + msg);
    assert(after.drop_last() =~= if log.len() < 1024 {
        log
    } else {
        log.drop_first()
    });
}

proof fn lemma_lines_of_line(line: Seq<char>)
    requires
        forall|i: int| 0 <= i < line.len() ==> #[trigger] line[i] != '\n',
    ensures
        split_lines(line) == seq![line],
    decreases line.len(),
{
    if line.len() == 0 {
        assert(line =~= Seq::empty());
        assert(split_lines(line) =~= seq![line]);
    } else {
        let front = line.drop_last();
        assert forall|i: int| 0 <= i < front.len() implies #[trigger] front[i] != '\n' by {
            assert(front[i] == line[i]);
        }
        lemma_lines_of_line(front);
        assert(line[line.len() - 1] != '\n');
        assert(line =~= front.push(line.last()));
        assert(split_lines(line) =~= seq![line]);
    }
}

proof fn lemma_lines_then_line(text: Seq<char>, line: Seq<char>)
    requires
        forall|i: int| 0 <= i < line.len() ==> #[trigger] line[i] != '\n',
    ensures
        split_lines(text.push('\n') + line) == split_lines(text).push(line),
    decreases line.len(),
{
    let whole = text.push('\n') + line;
    if line.len() == 0 {
        assert(whole =~= text.push('\n'));
        assert(whole.drop_last() =~= text);
        assert(line =~= Seq::empty());
        assert(split_lines(whole) =~= split_lines(text).push(line));
    } else {
        let front = line.drop_last();
        assert forall|i: int| 0 <= i < front.len() implies #[trigger] front[i] != '\n' by {
            assert(front[i] == line[i]);
        }
        lemma_lines_then_line(text, front);
        assert(whole.drop_last() =~= text.push('\n') + front);
        assert(line[line.len() - 1] != '\n');
        assert(line =~= front.push(line.last()));
        assert(split_lines(whole) =~= split_lines(text).push(line));
    }
}

/// A snapshot has one line for each entry, in order, if no entry holds a newline.
pub proof fn law_snapshot_has_line_per_entry(entries: Seq<Seq<char>>)
    requires
        entries.len() > 0,
        forall|i: int, j: int|
            0 <= i < entries.len() && 0 <= j < entries[i].len() ==> #[trigger] entries[i][j]
                != '\n',
    ensures
        split_lines(joined(entries)) == entries,
    decreases entries.len(),
{
    reveal_strlit("\n");
    let last = entries[entries.len() - 1];
    if entries.len() == 1 {
        lemma_lines_of_line(last);
        assert(seq![last] =~= entries);
    } else {
        let fewer = entries.drop_last();
        assert forall|i: int, j: int|
            0 <= i < fewer.len() && 0 <= j < fewer[i].len() implies #[trigger] fewer[i][j]
            != '\n' by {
            assert(entries[i][j] != '\n');
        }
        law_snapshot_has_line_per_entry(fewer);
        lemma_lines_then_line(joined(fewer), last);
        assert(joined(entries) =~= joined(fewer).push('\n') + last);
        assert(fewer.push(last) =~= entries);
    }
}

/// A line names a candidate exactly if it begins with `a=candidate:`, and its kind is the
/// first of the four that is named after that.
pub proof fn law_line_names_kind(rest: Seq<char>, line: Seq<char>)
    ensures
        line_candidate(line) is Some <==> begins_with(line, "a=candidate:"@),
        ({
            let kind = line_candidate("a=candidate:"@ + rest);
            let host = occurs_in(rest, " typ host"@);
            let srflx = occurs_in(rest, " typ srflx"@);
            let relay = occurs_in(rest, " typ relay"@);
            let prflx = occurs_in(rest, " typ prflx"@);
            &&& kind == Some(CandidateKind::Host) <==> host
            &&& kind == Some(CandidateKind::ServerReflexive) <==> !host && srflx
            &&& kind == Some(CandidateKind::Relay) <==> !host && !srflx && relay
            &&& kind == Some(CandidateKind::PeerReflexive) <==> !host && !srflx && !relay && prflx
            &&& kind == Some(CandidateKind::Unknown) <==> !host && !srflx && !relay && !prflx
        }),
{
    let prefix = "a=candidate:"@;
    let whole = prefix + rest;
    assert(whole.take(prefix.len() as int) =~= prefix);
    assert(whole.skip(prefix.len() as int) =~= rest);
}

proof fn lemma_counts_filtered(lines: Seq<Seq<char>>, kind: CandidateKind)
    ensures
        kind_count(lines, kind) == lines.filter(
            |line: Seq<char>| line_candidate(line) == Some(kind),
        ).len(),
        candidate_count(lines) == lines.filter(
            |line: Seq<char>| begins_with(line, "a=candidate:"@),
        ).len(),
    decreases lines.len(),
{
    reveal(Seq::filter);
    if lines.len() > 0 {
        lemma_counts_filtered(lines.drop_last(), kind);
        law_line_names_kind(Seq::empty(), lines.last());
    }
}

/// The summary tells how many lines of an SDP name a candidate of each kind, and how many
/// name one at all, as numbers in decimal.
pub proof fn law_summary_counts_lines(sdp: Seq<char>)
    ensures
        ({
            let lines = split_lines(sdp);
            let host = lines.filter(
                |line: Seq<char>| line_candidate(line) == Some(CandidateKind::Host),
            );
            let srflx = lines.filter(
                |line: Seq<char>| line_candidate(line) == Some(CandidateKind::ServerReflexive),
            );
            let relay = lines.filter(
                |line: Seq<char>| line_candidate(line) == Some(CandidateKind::Relay),
            );
            let prflx = lines.filter(
                |line: Seq<char>| line_candidate(line) == Some(CandidateKind::PeerReflexive),
            );
            let all = lines.filter(|line: Seq<char>| begins_with(line, "a=candidate:"@));
            candidate_summary(sdp) == "host="@ + decimal(host.len()) + " srflx="@ + decimal(
                srflx.len(),
            ) + " relay="@ + decimal(relay.len()) + " prflx="@ + decimal(prflx.len()) + " total="@
                + decimal(all.len())
        }),
{
    let lines = split_lines(sdp);
    lemma_counts_filtered(lines, CandidateKind::Host);
    lemma_counts_filtered(lines, CandidateKind::ServerReflexive);
    lemma_counts_filtered(lines, CandidateKind::Relay);
    lemma_counts_filtered(lines, CandidateKind::PeerReflexive);
}

/// A message that is recorded is the last entry, behind its time in brackets; the entries
/// before it stay, but for the oldest of a full log. A log that is cleared has none.
pub proof fn law_log_calls(
    log: &mut DebugLog,
    timestamp: &str,
    msg: &str,
    other: &mut DebugLog,
)
    requires
        call_ensures(debug_record, (log, timestamp, msg), ()),
        old(log)@.len() <= 1024,
        call_ensures(webrtc_debug_clear, (other,), ()),
    ensures
        final(log)@.last() == seq!['['] + timestamp@ + seq![']', ' '] + msg@,
        final(log)@.drop_last() == if old(log)@.len() < 1024 {
            old(log)@
        } else {
            old(log)@.drop_first()
        },
        final(other)@.len() == 0,
{
    law_record_is_last(old(log)@, timestamp@, msg@);
}

/// The lines of a snapshot are the entries of the log, if none of those holds a line break.
pub proof fn law_snapshot_call(log: &DebugLog, snapshot: String)
    requires
        call_ensures(webrtc_debug_snapshot, (log,), snapshot),
        log@.len() > 0,
        forall|i: int, j: int|
            0 <= i < log@.len() && 0 <= j < log@[i].len() ==> #[trigger] log@[i][j] != '\n',
    ensures
        split_lines(snapshot@) == log@,
{
    law_snapshot_has_line_per_entry(log@);
}

/// A summary counts the lines that name a candidate, by the kind of the candidate and in
/// all.
pub proof fn law_summary_call(sdp: &str, summary: String)
    requires
        call_ensures(summarize_sdp_candidates, (sdp,), summary),
    ensures
        ({
            let lines = split_lines(sdp@);
            let host = lines.filter(
                |line: Seq<char>| line_candidate(line) == Some(CandidateKind::Host),
            );
            let srflx = lines.filter(
                |line: Seq<char>| line_candidate(line) == Some(CandidateKind::ServerReflexive),
            );
            let relay = lines.filter(
                |line: Seq<char>| line_candidate(line) == Some(CandidateKind::Relay),
            );
            let prflx = lines.filter(
                |line: Seq<char>| line_candidate(line) == Some(CandidateKind::PeerReflexive),
            );
            let all = lines.filter(|line: Seq<char>| begins_with(line, "a=candidate:"@));
            summary@ == "host="@ + decimal(host.len()) + " srflx="@ + decimal(srflx.len())
                + " relay="@ + decimal(relay.len()) + " prflx="@ + decimal(prflx.len())
                + " total="@ + decimal(all.len())
        }),
{
    law_summary_counts_lines(sdp@);
}

} // verus!
