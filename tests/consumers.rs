use fchat3_log_reader::codec::encode_messages;
use fchat3_log_reader::consumers::{
    format_line, log_path, FChatLogConsumer, HTMLConsumer, LogConsumer, StdoutConsumer,
};
use fchat3_log_reader::error::Error;
use fchat3_log_reader::message::{LogMessage, MessageKind};
use fchat3_log_reader::pipeline::{
    exit_code, file_outcome, run_html_file, run_status, run_stdout_file, FileOutcome, RunStatus,
};
use fchat3_log_reader::reader::ReadItem;
use fchat3_log_reader::render::breakline;

fn msg(timestamp: u32, kind: MessageKind, sender: &str, body: &str) -> LogMessage {
    LogMessage { timestamp, kind, sender: sender.to_string(), body: body.to_string(), encoded_size: 0 }
}

#[test]
fn stdout_lines_by_kind() {
    let cases = [
        (MessageKind::Message, "Bob: Hi"),
        (MessageKind::Action, "Bob waves"),
        (MessageKind::Ad, "[AD] Bob: Hi"),
        (MessageKind::Roll, "[ROLL] Bob Hi"),
        (MessageKind::Warn, "[!WARN!] Bob: Hi"),
        (MessageKind::Event, "[!EVENT!] Bob: Hi"),
    ];
    for (kind, tail) in cases {
        let body = if kind == MessageKind::Action { " waves" } else { "Hi" };
        let line = format_line(&msg(1_000_000_000, kind, "Bob", body), "Alice", "Me");
        assert_eq!(line, format!("[Me] [Alice] [2001-09-09 01:46:40] {}", tail));
    }
}

#[test]
fn stdout_consumer_stops_at_end() {
    let mut c = StdoutConsumer::new();
    let r = c.consume(Some(ReadItem::Message(msg(0, MessageKind::Message, "A", "b"))), "log", None);
    assert!(r.proceed && !r.corrupt);
    assert_eq!(r.lines, vec!["[Unknown] [log] [1970-01-01 00:00:00] A: b".to_string()]);
    let r = c.consume(None, "log", None);
    assert!(!r.proceed && !r.corrupt && r.lines.is_empty());
    let r = c.consume(Some(ReadItem::Corrupt), "log", Some("X"));
    assert!(!r.proceed && r.corrupt);
}

#[test]
fn html_consumer_starts_unconfigured() {
    let c = HTMLConsumer::new();
    assert!(!c.configured);
    assert!(c.save_location.is_none());
    assert!(c.logs.is_empty());
}

#[test]
fn configure_checks_location() {
    let mut c = HTMLConsumer::new();
    assert!(c.configure("out".to_string(), false, false).is_err());
    assert!(c.configure("out".to_string(), true, false).is_err());
    assert!(!c.configured);
    assert!(c.configure("out".to_string(), true, true).is_ok());
    assert!(c.configured);
    assert_eq!(c.save_location, Some("out".to_string()));
}

fn configured() -> HTMLConsumer {
    let mut c = HTMLConsumer::new();
    c.configure("out".to_string(), true, true).unwrap();
    c
}

const D1: u32 = 1_000_000_000;
const D2: u32 = 1_000_000_000 + 86_400;

#[test]
fn date_boundary_flush() {
    let mut c = configured();
    let mut written = Vec::new();
    for m in [
        msg(D1, MessageKind::Message, "A", "one"),
        msg(D1 + 60, MessageKind::Action, "B", " two"),
        msg(D2, MessageKind::Roll, "C", "three"),
    ] {
        let mut r = c.consume(Some(ReadItem::Message(m)), "Room", Some("Me"));
        assert!(r.proceed);
        written.append(&mut r.logs);
    }
    assert_eq!(written.len(), 1);
    let mut r = c.consume(None, "Room", Some("Me"));
    assert!(!r.proceed);
    written.append(&mut r.logs);
    assert_eq!(written.len(), 2);
    assert!(c.logs.is_empty());

    let first = &written[0];
    assert_eq!(first.date, "2001-09-09");
    assert_eq!(log_path(first), "Me/Room/2001-09-09.html");
    assert_eq!(first.entries.len(), 2);
    assert_eq!(first.entries[0].message_body, "one");
    assert_eq!(first.entries[0].message_body_class_hints, "message");
    assert_eq!(first.entries[0].datetime, "2001-09-09 01:46:40");
    assert_eq!(first.entries[1].message_body, " two");
    assert_eq!(first.entries[1].sender_name, "B");
    assert_eq!(first.entries[1].message_body_class_hints, "action");

    let second = &written[1];
    assert_eq!(second.date, "2001-09-10");
    assert_eq!(log_path(second), "Me/Room/2001-09-10.html");
    assert_eq!(second.entries.len(), 1);
    assert_eq!(second.entries[0].message_body, "three");
    assert_eq!(second.entries[0].message_body_class_hints, "roll");
}

#[test]
fn groups_are_kept_apart() {
    let mut c = configured();
    c.consume(Some(ReadItem::Message(msg(D1, MessageKind::Message, "A", "x"))), "R1", Some("Me"))
        ;
    c.consume(Some(ReadItem::Message(msg(D2, MessageKind::Message, "A", "y"))), "R2", Some("Me"))
        ;
    assert_eq!(c.logs.len(), 2);
    let r = c.consume(None, "R1", Some("Me"));
    assert_eq!(r.logs.len(), 1);
    assert_eq!(r.logs[0].log_name, "R1");
    assert_eq!(c.logs.len(), 1);
    let r = c.consume(Some(ReadItem::Corrupt), "R2", Some("Me"));
    assert!(r.corrupt && !r.proceed);
    assert_eq!(r.logs.len(), 1);
    assert_eq!(r.logs[0].entries[0].message_body, "y");
}

#[test]
fn end_without_messages_writes_nothing() {
    let mut c = configured();
    let r = c.consume(None, "R", None);
    assert!(r.logs.is_empty() && !r.proceed);
}

#[test]
fn breakline_escapes_and_marks_breaks() {
    assert_eq!(breakline("a<b>\r\nc\nd\re"), "a&lt;b&gt;</br>c</br>d</br>e");
    assert_eq!(breakline("\"&'`="), "&quot;&amp;&#x27;&#x60;&#x3D;");
    assert_eq!(breakline("\n\r"), "</br></br>");
    assert_eq!(breakline(""), "");
}

fn day_logs(buf: Vec<u8>) -> Vec<(String, Vec<String>)> {
    let mut c = configured();
    let rep = run_html_file(&mut c, buf, false, true, "Room", Some("Me"));
    rep.logs
        .iter()
        .map(|l| (log_path(l), l.entries.iter().map(|e| e.message_body.clone()).collect()))
        .collect()
}

#[test]
fn rerun_gives_same_logs() {
    let ms = vec![
        msg(D1, MessageKind::Message, "A", "one"),
        msg(D1 + 1, MessageKind::Message, "A", "two"),
        msg(D2, MessageKind::Message, "A", "three"),
    ];
    let b = encode_messages(&ms);
    let first = day_logs(b.clone());
    let second = day_logs(b);
    assert_eq!(first, second);
    assert_eq!(first.len(), 2);
    assert_eq!(first[0].1, vec!["one".to_string(), "two".to_string()]);
}

#[test]
fn reverse_run_groups_newest_first() {
    let ms = vec![
        msg(D1, MessageKind::Message, "A", "one"),
        msg(D2, MessageKind::Message, "A", "two"),
    ];
    let b = encode_messages(&ms);
    let mut c = configured();
    let rep = run_html_file(&mut c, b, true, true, "Room", None);
    assert!(!rep.failed);
    assert_eq!(rep.logs.len(), 2);
    assert_eq!(rep.logs[0].entries[0].message_body, "two");
    assert_eq!(log_path(&rep.logs[1]), "Unknown/Room/2001-09-09.html");
}

#[test]
fn failure_isolation() {
    let ms = vec![
        msg(D1, MessageKind::Message, "A", "one"),
        msg(D1 + 1, MessageKind::Message, "A", "two"),
    ];
    let good = encode_messages(&ms);
    let mut cut = good.clone();
    cut.truncate(good.len() - 4);
    let mut outcomes = Vec::new();
    let mut printed = 0;
    for buf in [good.clone(), cut, good] {
        let mut c = StdoutConsumer::new();
        let rep = run_stdout_file(&mut c, buf, false, true, "Room", None);
        printed += rep.lines.len();
        outcomes.push(file_outcome(&Ok(rep)));
    }
    assert_eq!(outcomes, vec![FileOutcome::Succeeded, FileOutcome::Failed, FileOutcome::Succeeded]);
    assert_eq!(printed, 5);
    assert_eq!(run_status(&outcomes), RunStatus::FilesFailed);
    assert_eq!(exit_code(run_status(&outcomes)), 1);
}

#[test]
fn run_status_cases() {
    assert_eq!(run_status(&vec![]), RunStatus::NoInput);
    assert_eq!(run_status(&vec![FileOutcome::Succeeded]), RunStatus::Success);
    assert_eq!(
        run_status(&vec![FileOutcome::Failed, FileOutcome::Faulted]),
        RunStatus::WorkerFault
    );
    assert_eq!(exit_code(RunStatus::Success), 0);
    assert_eq!(exit_code(RunStatus::NoInput), 2);
    assert_eq!(exit_code(RunStatus::WorkerFault), 3);
}

#[test]
fn io_error_fails_the_file() {
    let r = Err(Error::IOError("disk full".to_string()));
    assert_eq!(file_outcome(&r), FileOutcome::Failed);
    let b = encode_messages(&vec![msg(D1, MessageKind::Message, "A", "one")]);
    let mut c = StdoutConsumer::new();
    let rep = run_stdout_file(&mut c, b, false, true, "Room", Some("Me"));
    assert_eq!(rep.lines, vec!["[Me] [Room] [2001-09-09 01:46:40] A: one".to_string()]);
    assert_eq!(file_outcome(&Ok(rep)), FileOutcome::Succeeded);
}
