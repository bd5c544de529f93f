use vstd::prelude::*;
use crate::codec::{
    encodable, fields_len, lemma_backward_step_bounds, lemma_forward_step_bounds, record_bytes,
    records_bytes, views,
};
use crate::consumers::{
    after_end, after_message, day_log_views, identity, line_text, DayLog, DayLogView,
    FChatLogConsumer, HTMLConsumer, StdoutConsumer,
};
use crate::error::Error;
use crate::message::{LogMessage, MessageView};
use crate::reader::{
    backward_messages, forward_messages, lemma_round_trip, ForwardReader, ReadItem, ReverseReader,
};

verus! {

/// The messages of a log in the chosen direction, and whether the walk
/// ended on a corrupt record.
pub open spec fn walk(buf: Seq<u8>, reverse: bool, check: bool) -> (Seq<MessageView>, bool) {
    if reverse {
        backward_messages(buf, buf.len() as int, check)
    } else {
        forward_messages(buf, 0, check)
    }
}

/// Each message knows the size of its record on disk.
pub open spec fn sizes_recorded(ms: Seq<LogMessage>) -> bool {
    forall|i: int| 0 <= i < ms.len() ==> #[trigger] ms[i].encoded_size == fields_len(ms[i]@) + 2
}

/// Decodes a whole log, oldest first or newest first, up to its end or its
/// first corrupt record.
pub fn read_all(buf: Vec<u8>, reverse: bool, check: bool) -> (r: (Vec<LogMessage>, bool))
    ensures
        views(r.0@) == walk(buf@, reverse, check).0,
        r.1 == walk(buf@, reverse, check).1,
        !reverse || check ==> sizes_recorded(r.0@),
{
    let ghost b = buf@;
    let mut out: Vec<LogMessage> = Vec::new();
    if reverse {
        let mut reader = ReverseReader::new(buf, check);
        let mut corrupt = false;
        loop
            invariant_except_break
                check ==> sizes_recorded(out@),
                reader.wf(),
                reader.buf@ == b,
                reader.check == check,
                !reader.done,
                !corrupt,
                views(out@) + backward_messages(b, reader.pos as int, check).0 == walk(
                    b,
                    reverse,
                    check,
                ).0,
                backward_messages(b, reader.pos as int, check).1 == walk(b, reverse, check).1,
            ensures
                views(out@) == walk(b, reverse, check).0,
                check ==> sizes_recorded(out@),
                corrupt == walk(b, reverse, check).1,
            decreases reader.pos,
        {
            proof {
                lemma_backward_step_bounds(b, reader.pos as int, check);
            }
            let ghost pos = reader.pos as int;
            match reader.next() {
                Some(ReadItem::Message(m)) => {
                    proof {
                        assert(views(out@.push(m)) =~= views(out@).push(m@));
                        assert(views(out@).push(m@) + backward_messages(b, reader.pos as int, check).0
                            =~= views(out@) + backward_messages(b, pos, check).0);
                    }
                    out.push(m);
                },
                Some(ReadItem::Corrupt) => {
                    corrupt = true;
                    proof {
                        assert(views(out@) + Seq::<MessageView>::empty() =~= views(out@));
                    }
                    break;
                },
                None => {
                    proof {
                        assert(views(out@) + Seq::<MessageView>::empty() =~= views(out@));
                    }
                    break;
                },
            }
        }
        (out, corrupt)
    } else {
        let mut reader = ForwardReader::new(buf, check);
        let mut corrupt = false;
        loop
            invariant_except_break
                sizes_recorded(out@),
                reader.wf(),
                reader.buf@ == b,
                reader.check == check,
                !reader.done,
                !corrupt,
                views(out@) + forward_messages(b, reader.pos as int, check).0 == walk(
                    b,
                    reverse,
                    check,
                ).0,
                forward_messages(b, reader.pos as int, check).1 == walk(b, reverse, check).1,
            ensures
                views(out@) == walk(b, reverse, check).0,
                sizes_recorded(out@),
                corrupt == walk(b, reverse, check).1,
            decreases b.len() - reader.pos,
        {
            proof {
                lemma_forward_step_bounds(b, reader.pos as int, check);
            }
            let ghost pos = reader.pos as int;
            match reader.next() {
                Some(ReadItem::Message(m)) => {
                    proof {
                        assert(views(out@.push(m)) =~= views(out@).push(m@));
                        assert(views(out@).push(m@) + forward_messages(b, reader.pos as int, check).0
                            =~= views(out@) + forward_messages(b, pos, check).0);
                    }
                    out.push(m);
                },
                Some(ReadItem::Corrupt) => {
                    corrupt = true;
                    proof {
                        assert(views(out@) + Seq::<MessageView>::empty() =~= views(out@));
                    }
                    break;
                },
                None => {
                    proof {
                        assert(views(out@) + Seq::<MessageView>::empty() =~= views(out@));
                    }
                    break;
                },
            }
        }
        (out, corrupt)
    }
}

/// What one log file produced.
pub struct FileReport {
    /// Whether its walk ended on a corrupt record.
    pub failed: bool,
    /// Lines to print, in order.
    pub lines: Vec<String>,
    /// Finished day logs to render and write, in order.
    pub logs: Vec<DayLog>,
}

/// The text of each string.
pub open spec fn texts(v: Seq<String>) -> Seq<Seq<char>> {
    v.map_values(|l: String| l@)
}

/// The lines that printing messages gives: one per message, in order.
pub open spec fn walk_lines(ms: Seq<MessageView>, log_name: Seq<char>, character: Seq<char>) -> Seq<
    Seq<char>,
> {
    ms.map_values(|m: MessageView| line_text(m, log_name, character))
}

/// The open day logs after a group's messages and then the end of its walk,
/// and every day log finished on the way, in order.
#[verifier::opaque]
pub open spec fn after_walk(
    logs: Seq<DayLogView>,
    character: Seq<char>,
    log_name: Seq<char>,
    ms: Seq<MessageView>,
) -> (Seq<DayLogView>, Seq<DayLogView>)
    decreases ms.len(),
{
    if ms.len() == 0 {
        after_end(logs, character, log_name)
    } else {
        let s = after_message(logs, character, log_name, ms[0]);
        let r = after_walk(s.0, character, log_name, ms.drop_first());
        (r.0, s.1 + r.1)
    }
}

proof fn lemma_after_walk_end(logs: Seq<DayLogView>, character: Seq<char>, log_name: Seq<char>)
    ensures
        after_walk(logs, character, log_name, Seq::empty()) == after_end(logs, character, log_name),
{
    reveal(after_walk);
}

proof fn lemma_after_walk_step(
    logs: Seq<DayLogView>,
    character: Seq<char>,
    log_name: Seq<char>,
    m: MessageView,
    rest: Seq<MessageView>,
)
    ensures
        ({
            let s = after_message(logs, character, log_name, m);
            let r = after_walk(s.0, character, log_name, rest);
            after_walk(logs, character, log_name, seq![m] + rest) == (r.0, s.1 + r.1)
        }),
{
    reveal(after_walk);
    assert((seq![m] + rest).drop_first() =~= rest);
    assert((seq![m] + rest)[0] == m);
}

/// The messages of `v` in the order in which `pop` hands them out.
fn into_queue(v: Vec<LogMessage>) -> (q: Vec<LogMessage>)
    ensures
        views(q@).reverse() == views(v@),
{
    let ghost all = views(v@);
    let mut pending = v;
    let mut q: Vec<LogMessage> = Vec::new();
    while pending.len() > 0
        invariant
            all == views(pending@) + views(q@).reverse(),
        decreases pending@.len(),
    {
        let ghost before = pending@;
        match pending.pop() {
            Some(m) => {
                proof {
                    assert(views(q@.push(m)).reverse() =~= seq![m@] + views(q@).reverse());
                    assert(views(before) =~= views(pending@).push(m@));
                }
                q.push(m);
            },
            None => {},
        }
    }
    assert(views(pending@) =~= Seq::<MessageView>::empty());
    assert(all =~= views(q@).reverse());
    q
}

/// Decodes one log file and prints each of its messages, in the order of
/// the walk.
pub fn run_stdout_file(
    consumer: &mut StdoutConsumer,
    buf: Vec<u8>,
    reverse: bool,
    check: bool,
    log_name: &str,
    character_name: Option<&str>,
) -> (rep: FileReport)
    ensures
        rep.failed == walk(buf@, reverse, check).1,
        texts(rep.lines@) == walk_lines(
            walk(buf@, reverse, check).0,
            log_name@,
            identity(character_name),
        ),
        rep.logs@.len() == 0,
{
    let ghost ch = identity(character_name);
    let (msgs, corrupt) = read_all(buf, reverse, check);
    let ghost all = views(msgs@);
    let mut queue = into_queue(msgs);
    let mut lines: Vec<String> = Vec::new();
    let ghost mut done: Seq<MessageView> = Seq::empty();
    while queue.len() > 0
        invariant
            all == done + views(queue@).reverse(),
            ch == identity(character_name),
            texts(lines@) == walk_lines(done, log_name@, ch),
        decreases queue@.len(),
    {
        let ghost before = queue@;
        match queue.pop() {
            Some(m) => {
                proof {
                    assert(views(before).reverse() =~= seq![m@] + views(queue@).reverse());
                }
                let ghost mv = m@;
                let mut c = consumer.consume(Some(ReadItem::Message(m)), log_name, character_name);
                let ghost old_lines = lines@;
                let ghost cl = c.lines@;
                assert(cl.len() == 1);
                assert(cl[0]@ == line_text(mv, log_name@, ch));
                lines.append(&mut c.lines);
                proof {
                    assert(lines@ =~= old_lines + cl);
                    assert(texts(cl) =~= seq![line_text(mv, log_name@, ch)]);
                    assert(texts(lines@) =~= texts(old_lines) + seq![line_text(mv, log_name@, ch)]);
                    assert(walk_lines(done.push(mv), log_name@, ch) =~= walk_lines(done, log_name@, ch)
                        + seq![line_text(mv, log_name@, ch)]);
                    assert(all =~= done.push(mv) + views(queue@).reverse());
                    done = done.push(mv);
                }
            },
            None => {},
        }
    }
    proof {
        assert(views(queue@).reverse() =~= Seq::<MessageView>::empty());
        assert(done =~= all);
    }
    let last = if corrupt {
        Some(ReadItem::Corrupt)
    } else {
        None
    };
    let _ = consumer.consume(last, log_name, character_name);
    FileReport { failed: corrupt, lines, logs: Vec::new() }
}

/// Decodes one log file and groups its messages into day logs; the day logs
/// that the walk finishes are handed back in order.
pub fn run_html_file(
    consumer: &mut HTMLConsumer,
    buf: Vec<u8>,
    reverse: bool,
    check: bool,
    log_name: &str,
    character_name: Option<&str>,
) -> (rep: FileReport)
    requires
        old(consumer).configured,
    ensures
        rep.failed == walk(buf@, reverse, check).1,
        rep.lines@.len() == 0,
        ({
            let w = after_walk(
                day_log_views(old(consumer).logs@),
                identity(character_name),
                log_name@,
                walk(buf@, reverse, check).0,
            );
            day_log_views(final(consumer).logs@) == w.0 && day_log_views(rep.logs@) == w.1
        }),
        final(consumer).configured,
        final(consumer).save_location == old(consumer).save_location,
        old(consumer).wf() ==> final(consumer).wf(),
{
    let ghost ch = identity(character_name);
    let ghost start = day_log_views(consumer.logs@);
    let ghost was_wf = consumer.wf();
    let (msgs, corrupt) = read_all(buf, reverse, check);
    let ghost all = views(msgs@);
    let mut queue = into_queue(msgs);
    let mut logs: Vec<DayLog> = Vec::new();
    let ghost mut done: Seq<MessageView> = Seq::empty();
    while queue.len() > 0
        invariant
            all == done + views(queue@).reverse(),
            ch == identity(character_name),
            consumer.configured,
            consumer.save_location == old(consumer).save_location,
            was_wf ==> consumer.wf(),
            ({
                let rest = after_walk(day_log_views(consumer.logs@), ch, log_name@, views(queue@).reverse());
                let whole = after_walk(start, ch, log_name@, all);
                whole.0 == rest.0 && whole.1 == day_log_views(logs@) + rest.1
            }),
        decreases queue@.len(),
    {
        let ghost before = queue@;
        let ghost cur = day_log_views(consumer.logs@);
        match queue.pop() {
            Some(m) => {
                let ghost mv = m@;
                proof {
                    assert(views(before).reverse() =~= seq![mv] + views(queue@).reverse());
                    lemma_after_walk_step(cur, ch, log_name@, mv, views(queue@).reverse());
                }
                let mut c = consumer.consume(Some(ReadItem::Message(m)), log_name, character_name);
                let ghost old_logs = logs@;
                let ghost cl = c.logs@;
                logs.append(&mut c.logs);
                proof {
                    assert(logs@ =~= old_logs + cl);
                    assert(day_log_views(logs@) =~= day_log_views(old_logs) + day_log_views(cl));
                    let s1 = after_message(cur, ch, log_name@, mv);
                    let rest = after_walk(s1.0, ch, log_name@, views(queue@).reverse());
                    assert(day_log_views(old_logs) + (s1.1 + rest.1) =~= day_log_views(logs@) + rest.1);
                    assert(all =~= done.push(mv) + views(queue@).reverse());
                    done = done.push(mv);
                }
            },
            None => {},
        }
    }
    proof {
        assert(views(queue@).reverse() =~= Seq::<MessageView>::empty());
    }
    let last = if corrupt {
        Some(ReadItem::Corrupt)
    } else {
        None
    };
    let ghost cur = day_log_views(consumer.logs@);
    let ghost old_logs = logs@;
    proof {
        lemma_after_walk_end(cur, ch, log_name@);
    }
    let mut c = consumer.consume(last, log_name, character_name);
    let ghost cl = c.logs@;
    logs.append(&mut c.logs);
    proof {
        assert(logs@ =~= old_logs + cl);
        assert(day_log_views(logs@) =~= day_log_views(old_logs) + day_log_views(cl));
    }
    FileReport { failed: corrupt, lines: Vec::new(), logs }
}

/// How the pipeline of one file ended.
#[derive(Clone, Copy, Debug, PartialEq, Eq, Structural)]
pub enum FileOutcome {
    Succeeded,
    /// A corrupt record, or a file or consumer error.
    Failed,
    /// The worker that ran it ended abnormally.
    Faulted,
}

/// The outcome of a file's pipeline: failed where it could not be read or
/// written, or its walk met a corrupt record.
pub fn file_outcome(r: &Result<FileReport, Error>) -> (o: FileOutcome)
    ensures
        o == (if r matches Ok(rep) && !rep.failed {
            FileOutcome::Succeeded
        } else {
            FileOutcome::Failed
        }),
{
    match r {
        Ok(rep) => if rep.failed {
            FileOutcome::Failed
        } else {
            FileOutcome::Succeeded
        },
        Err(_) => FileOutcome::Failed,
    }
}

/// How a whole run ended.
#[derive(Clone, Copy, Debug, PartialEq, Eq, Structural)]
pub enum RunStatus {
    Success,
    /// No input file was found.
    NoInput,
    /// At least one file failed; no worker ended abnormally.
    FilesFailed,
    /// At least one worker ended abnormally.
    WorkerFault,
}

/// The status of a run from the outcomes of all of its files.
pub open spec fn status_of(outcomes: Seq<FileOutcome>) -> RunStatus {
    if outcomes.len() == 0 {
        RunStatus::NoInput
    } else if exists|i: int| 0 <= i < outcomes.len() && outcomes[i] == FileOutcome::Faulted {
        RunStatus::WorkerFault
    } else if exists|i: int| 0 <= i < outcomes.len() && outcomes[i] == FileOutcome::Failed {
        RunStatus::FilesFailed
    } else {
        RunStatus::Success
    }
}

/// Reduces the outcomes of all files, once every file was attempted.
pub fn run_status(outcomes: &Vec<FileOutcome>) -> (r: RunStatus)
    ensures
        r == status_of(outcomes@),
{
    if outcomes.len() == 0 {
        return RunStatus::NoInput;
    }
    let mut faulted = false;
    let mut failed = false;
    let mut i: usize = 0;
    while i < outcomes.len()
        invariant
            i <= outcomes@.len(),
            faulted == exists|j: int| 0 <= j < i && outcomes@[j] == FileOutcome::Faulted,
            failed == exists|j: int| 0 <= j < i && outcomes@[j] == FileOutcome::Failed,
        decreases outcomes@.len() - i,
    {
        if outcomes[i] == FileOutcome::Faulted {
            faulted = true;
        } else if outcomes[i] == FileOutcome::Failed {
            failed = true;
        }
        i += 1;
    }
    if faulted {
        RunStatus::WorkerFault
    } else if failed {
        RunStatus::FilesFailed
    } else {
        RunStatus::Success
    }
}

/// The process exit status of a run: distinct for each way it can end.
pub fn exit_code(s: RunStatus) -> (r: u8)
    ensures
        r == 0 <==> s == RunStatus::Success,
        r == 1 <==> s == RunStatus::FilesFailed,
        r == 2 <==> s == RunStatus::NoInput,
        r == 3 <==> s == RunStatus::WorkerFault,
{
    match s {
        RunStatus::Success => 0,
        RunStatus::FilesFailed => 1,
        RunStatus::NoInput => 2,
        RunStatus::WorkerFault => 3,
    }
}

/// A log whose last record was cut short is read up to that record and then
/// reported corrupt, while intact logs are read to their end: with files one
/// and three intact and file two cut short, only file two fails, and the run
/// ends as a partial failure.
pub proof fn lemma_failure_isolation(
    ms1: Seq<MessageView>,
    ms2: Seq<MessageView>,
    cut: MessageView,
    k: int,
    ms3: Seq<MessageView>,
    check: bool,
)
    requires
        forall|i: int| 0 <= i < ms1.len() ==> encodable(#[trigger] ms1[i]),
        forall|i: int| 0 <= i < ms2.len() ==> encodable(#[trigger] ms2[i]),
        forall|i: int| 0 <= i < ms3.len() ==> encodable(#[trigger] ms3[i]),
        encodable(cut),
        0 < k < record_bytes(cut).len(),
    ensures
        walk(records_bytes(ms1), false, check) == (ms1, false),
        walk(records_bytes(ms2) + record_bytes(cut).take(k), false, check) == (ms2, true),
        walk(records_bytes(ms3), false, check) == (ms3, false),
        status_of(seq![FileOutcome::Succeeded, FileOutcome::Failed, FileOutcome::Succeeded])
            == RunStatus::FilesFailed,
{
    lemma_round_trip(ms1, check);
    lemma_round_trip(ms3, check);
    let t = record_bytes(cut).take(k);
    let buf = records_bytes(ms2) + t;
    crate::reader::lemma_forward_prefix(Seq::empty(), ms2, t, check);
    assert(Seq::<u8>::empty() + records_bytes(ms2) + t =~= buf);
    crate::codec::lemma_forward_truncated(records_bytes(ms2), cut, k, check);
    assert(ms2 + Seq::<MessageView>::empty() =~= ms2);
    let o = seq![FileOutcome::Succeeded, FileOutcome::Failed, FileOutcome::Succeeded];
    assert(o[1] == FileOutcome::Failed);
    assert(!exists|i: int| 0 <= i < o.len() && o[i] == FileOutcome::Faulted) by {
        assert(forall|i: int| 0 <= i < o.len() ==> o[i] != FileOutcome::Faulted);
    }
}

/// Printing a log made of encoded messages prints one line per message:
/// in the order they were written when reading forward, in the reverse
/// order when reading backward, and nothing is reported corrupt.
pub proof fn lemma_printed_lines(
    ms: Seq<MessageView>,
    check: bool,
    log_name: Seq<char>,
    character: Seq<char>,
)
    requires
        forall|i: int| 0 <= i < ms.len() ==> encodable(#[trigger] ms[i]),
    ensures
        ({
            let buf = records_bytes(ms);
            &&& walk_lines(walk(buf, false, check).0, log_name, character) == walk_lines(
                ms,
                log_name,
                character,
            )
            &&& walk_lines(walk(buf, true, check).0, log_name, character) == walk_lines(
                ms,
                log_name,
                character,
            ).reverse()
            &&& !walk(buf, false, check).1
            &&& !walk(buf, true, check).1
        }),
{
    lemma_round_trip(ms, check);
    crate::reader::lemma_direction_symmetry(ms, check);
    assert(walk_lines(ms.reverse(), log_name, character) =~= walk_lines(ms, log_name, character).reverse());
}

} // verus!
