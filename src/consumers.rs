use vstd::prelude::*;
use vstd::string::StringExecFns;
use crate::message::{LogMessage, MessageKind, MessageView};
use crate::reader::ReadItem;
use crate::render::{date_label, date_text, datetime_label, datetime_text, day_of};

verus! {

/// Builds a consumer in its initial state.
pub trait LogConsumer: Sized {
    fn new() -> Self;
}

/// What consuming one item asks of the caller.
pub struct Consumed {
    /// Whether the caller should hand over the next item.
    pub proceed: bool,
    /// Whether the item was a corrupt record.
    pub corrupt: bool,
    /// Lines to print, in order.
    pub lines: Vec<String>,
    /// Finished day logs to render and write, in order.
    pub logs: Vec<DayLog>,
}

/// A sink for the items of one log walk.
pub trait FChatLogConsumer {
    /// Whether the consumer may be handed items.
    spec fn ready(&self) -> bool;

    /// Takes the next item (`None` at the end of the walk) of the log
    /// `log_name` of `character_name`.
    fn consume(&mut self, result: Option<ReadItem>, log_name: &str, character_name: Option<&str>) -> (r: Consumed)
        requires
            old(self).ready(),
        ensures
            final(self).ready(),
    ;
}

/// The message an item carries, if it carries one.
pub open spec fn item_message(item: Option<ReadItem>) -> Option<MessageView> {
    match item {
        Some(ReadItem::Message(m)) => Some(m@),
        _ => None,
    }
}

/// The identity a log is filed under.
pub open spec fn identity(character_name: Option<&str>) -> Seq<char> {
    match character_name {
        Some(c) => c@,
        None => "Unknown"@,
    }
}

fn identity_of(character_name: Option<&str>) -> (r: String)
    ensures
        r@ == identity(character_name),
{
    match character_name {
        Some(c) => String::from_str(c),
        None => String::from_str("Unknown"),
    }
}

/// The printed line of a message.
pub open spec fn line_text(m: MessageView, log_name: Seq<char>, character: Seq<char>) -> Seq<char> {
    let head = "["@ + character + "] ["@ + log_name + "] ["@ + datetime_text(m.timestamp as int)
        + "] "@;
    head + match m.kind {
        MessageKind::Message => m.sender + ": "@ + m.body,
        MessageKind::Action => m.sender + m.body,
        MessageKind::Ad => "[AD] "@ + m.sender + ": "@ + m.body,
        MessageKind::Roll => "[ROLL] "@ + m.sender + " "@ + m.body,
        MessageKind::Warn => "[!WARN!] "@ + m.sender + ": "@ + m.body,
        MessageKind::Event => "[!EVENT!] "@ + m.sender + ": "@ + m.body,
    }
}

/// Formats the line that prints a message.
pub fn format_line(m: &LogMessage, log_name: &str, character: &str) -> (r: String)
    ensures
        r@ == line_text(m@, log_name@, character@),
{
    let mut line = String::new();
    line.append("[");
    line.append(character);
    line.append("] [");
    line.append(log_name);
    line.append("] [");
    let stamp = datetime_label(m.timestamp);
    line.append(stamp.as_str());
    line.append("] ");
    let ghost head = line@;
    let sender = m.sender.as_str();
    let body = m.body.as_str();
    match m.kind {
        MessageKind::Message => {
            line.append(sender);
            line.append(": ");
            line.append(body);
        },
        MessageKind::Action => {
            line.append(sender);
            line.append(body);
        },
        MessageKind::Ad => {
            line.append("[AD] ");
            line.append(sender);
            line.append(": ");
            line.append(body);
        },
        MessageKind::Roll => {
            line.append("[ROLL] ");
            line.append(sender);
            line.append(" ");
            line.append(body);
        },
        MessageKind::Warn => {
            line.append("[!WARN!] ");
            line.append(sender);
            line.append(": ");
            line.append(body);
        },
        MessageKind::Event => {
            line.append("[!EVENT!] ");
            line.append(sender);
            line.append(": ");
            line.append(body);
        },
    }
    assert(line@ =~= line_text(m@, log_name@, character@));
    line
}

/// Prints each message as one line, the moment it arrives.
pub struct StdoutConsumer {}

impl LogConsumer for StdoutConsumer {
    fn new() -> (r: Self)
        ensures
            r == (StdoutConsumer {  }),
    {
        StdoutConsumer {  }
    }
}

impl FChatLogConsumer for StdoutConsumer {
    open spec fn ready(&self) -> bool {
        true
    }

    fn consume(&mut self, result: Option<ReadItem>, log_name: &str, character_name: Option<&str>) -> (c: Consumed)
        ensures
            c.proceed == (result matches Some(ReadItem::Message(_)))
                && c.corrupt == (result matches Some(ReadItem::Corrupt)) && c.logs@.len() == 0
                && match result {
                Some(ReadItem::Message(m)) => c.lines@.len() == 1 && c.lines@[0]@ == line_text(
                    m@,
                    log_name@,
                    identity(character_name),
                ),
                _ => c.lines@.len() == 0,
            },
    {
        let corrupt = matches!(result, Some(ReadItem::Corrupt));
        let mut lines: Vec<String> = Vec::new();
        let proceed = match result {
            Some(ReadItem::Message(m)) => {
                let character = identity_of(character_name);
                lines.push(format_line(&m, log_name, character.as_str()));
                true
            },
            _ => false,
        };
        Consumed { proceed, corrupt, lines, logs: Vec::new() }
    }
}

/// One rendered entry of a day log.
pub struct LogEntry {
    pub datetime: String,
    pub sender_name: String,
    /// The class that styles the entry: the message's kind, in lower case.
    pub message_body_class_hints: String,
    pub message_body: String,
}

pub struct EntryView {
    pub datetime: Seq<char>,
    pub sender_name: Seq<char>,
    pub message_body_class_hints: Seq<char>,
    pub message_body: Seq<char>,
}

impl View for LogEntry {
    type V = EntryView;

    open spec fn view(&self) -> EntryView {
        EntryView {
            datetime: self.datetime@,
            sender_name: self.sender_name@,
            message_body_class_hints: self.message_body_class_hints@,
            message_body: self.message_body@,
        }
    }
}

/// The messages of one log of one identity on one UTC calendar date.
pub struct DayLog {
    pub character_name: String,
    pub log_name: String,
    /// The day since the Unix epoch that every entry falls on.
    pub day: u32,
    /// That day written `YYYY-MM-DD`.
    pub date: String,
    pub entries: Vec<LogEntry>,
}

pub struct DayLogView {
    pub character_name: Seq<char>,
    pub log_name: Seq<char>,
    pub day: int,
    pub date: Seq<char>,
    pub entries: Seq<EntryView>,
}

impl View for DayLog {
    type V = DayLogView;

    open spec fn view(&self) -> DayLogView {
        DayLogView {
            character_name: self.character_name@,
            log_name: self.log_name@,
            day: self.day as int,
            date: self.date@,
            entries: self.entries@.map_values(|e: LogEntry| e@),
        }
    }
}

pub open spec fn day_log_views(logs: Seq<DayLog>) -> Seq<DayLogView> {
    logs.map_values(|d: DayLog| d@)
}

/// The class hint of a kind.
pub open spec fn kind_hint(k: MessageKind) -> Seq<char> {
    match k {
        MessageKind::Message => "message"@,
        MessageKind::Action => "action"@,
        MessageKind::Ad => "ad"@,
        MessageKind::Roll => "roll"@,
        MessageKind::Warn => "warn"@,
        MessageKind::Event => "event"@,
    }
}

/// The entry that a message becomes.
pub open spec fn entry_of(m: MessageView) -> EntryView {
    EntryView {
        datetime: datetime_text(m.timestamp as int),
        sender_name: m.sender,
        message_body_class_hints: kind_hint(m.kind),
        message_body: m.body,
    }
}

/// A day log opened by its first message.
pub open spec fn fresh_log(character: Seq<char>, log_name: Seq<char>, m: MessageView) -> DayLogView {
    DayLogView {
        character_name: character,
        log_name: log_name,
        day: day_of(m.timestamp as int),
        date: date_text(m.timestamp as int),
        entries: seq![entry_of(m)],
    }
}

pub open spec fn is_group(g: DayLogView, character: Seq<char>, log_name: Seq<char>) -> bool {
    g.character_name == character && g.log_name == log_name
}

/// At most one open day log per identity and log name.
#[verifier::opaque]
pub open spec fn groups_unique(logs: Seq<DayLogView>) -> bool {
    forall|i: int, j: int|
        0 <= i < logs.len() && 0 <= j < logs.len() && i != j ==> !is_group(
            #[trigger] logs[i],
            #[trigger] logs[j].character_name,
            logs[j].log_name,
        )
}

/// A day log's date is the date of its day.
pub open spec fn dated(g: DayLogView) -> bool {
    exists|t: int| 0 <= t < 0x1_0000_0000 && g.day == day_of(t) && g.date == #[trigger] date_text(t)
}

/// Every open day log is dated by its day.
pub open spec fn logs_dated(logs: Seq<DayLogView>) -> bool {
    forall|i: int| 0 <= i < logs.len() ==> dated(#[trigger] logs[i])
}

proof fn lemma_fresh_dated(character: Seq<char>, log_name: Seq<char>, m: MessageView)
    ensures
        dated(fresh_log(character, log_name, m)),
{
    let t = m.timestamp as int;
    assert(date_text(t) == fresh_log(character, log_name, m).date);
}

pub open spec fn has_group(logs: Seq<DayLogView>, character: Seq<char>, log_name: Seq<char>) -> bool {
    exists|i: int| 0 <= i < logs.len() && #[trigger] is_group(logs[i], character, log_name)
}

/// The first open day log of a group.
pub open spec fn group_index(logs: Seq<DayLogView>, character: Seq<char>, log_name: Seq<char>) -> int {
    choose|i: int|
        0 <= i < logs.len() && #[trigger] is_group(logs[i], character, log_name) && forall|j: int|
            0 <= j < i ==> !#[trigger] is_group(logs[j], character, log_name)
}

/// Where a group has an open day log, its first one is found.
pub proof fn lemma_group_index(logs: Seq<DayLogView>, character: Seq<char>, log_name: Seq<char>)
    requires
        has_group(logs, character, log_name),
    ensures
        ({
            let i = group_index(logs, character, log_name);
            &&& 0 <= i < logs.len()
            &&& is_group(logs[i], character, log_name)
            &&& forall|j: int| 0 <= j < i ==> !#[trigger] is_group(logs[j], character, log_name)
        }),
{
    let k = choose|k: int| 0 <= k < logs.len() && #[trigger] is_group(logs[k], character, log_name);
    lemma_first_group(logs, character, log_name, k);
}

proof fn lemma_first_group(logs: Seq<DayLogView>, character: Seq<char>, log_name: Seq<char>, k: int)
    requires
        0 <= k < logs.len(),
        is_group(logs[k], character, log_name),
    ensures
        exists|i: int|
            0 <= i < logs.len() && #[trigger] is_group(logs[i], character, log_name) && forall|j: int|
                0 <= j < i ==> !#[trigger] is_group(logs[j], character, log_name),
    decreases k,
{
    if exists|j: int| 0 <= j < k && #[trigger] is_group(logs[j], character, log_name) {
        let j = choose|j: int| 0 <= j < k && #[trigger] is_group(logs[j], character, log_name);
        lemma_first_group(logs, character, log_name, j);
    } else {
        assert(forall|j: int| 0 <= j < k ==> !#[trigger] is_group(logs[j], character, log_name));
    }
}

/// The open day logs after a message of a group, and the day logs that it
/// finishes: a message on the group's day joins its log; one on another day
/// finishes that log and opens a new one; the first message of a group opens one.
pub open spec fn after_message(
    logs: Seq<DayLogView>,
    character: Seq<char>,
    log_name: Seq<char>,
    m: MessageView,
) -> (Seq<DayLogView>, Seq<DayLogView>) {
    if has_group(logs, character, log_name) {
        let i = group_index(logs, character, log_name);
        let g = logs[i];
        if g.day == day_of(m.timestamp as int) {
            (logs.update(i, DayLogView { entries: g.entries.push(entry_of(m)), ..g }), seq![])
        } else {
            (logs.update(i, fresh_log(character, log_name, m)), seq![g])
        }
    } else {
        (logs.push(fresh_log(character, log_name, m)), seq![])
    }
}

/// The open day logs after a group's walk ends, and the day log that this
/// finishes if it holds any entry.
pub open spec fn after_end(logs: Seq<DayLogView>, character: Seq<char>, log_name: Seq<char>) -> (
    Seq<DayLogView>,
    Seq<DayLogView>,
) {
    if has_group(logs, character, log_name) {
        let i = group_index(logs, character, log_name);
        let g = logs[i];
        (logs.remove(i), if g.entries.len() > 0 {
            seq![g]
        } else {
            seq![]
        })
    } else {
        (logs, seq![])
    }
}

/// One step of the date-partitioned consumer.
pub open spec fn after_item(
    logs: Seq<DayLogView>,
    character: Seq<char>,
    log_name: Seq<char>,
    item: Option<MessageView>,
) -> (Seq<DayLogView>, Seq<DayLogView>) {
    match item {
        Some(m) => after_message(logs, character, log_name, m),
        None => after_end(logs, character, log_name),
    }
}

fn kind_hint_of(k: MessageKind) -> (r: String)
    ensures
        r@ == kind_hint(k),
{
    match k {
        MessageKind::Message => String::from_str("message"),
        MessageKind::Action => String::from_str("action"),
        MessageKind::Ad => String::from_str("ad"),
        MessageKind::Roll => String::from_str("roll"),
        MessageKind::Warn => String::from_str("warn"),
        MessageKind::Event => String::from_str("event"),
    }
}

fn entry_from(m: LogMessage) -> (r: LogEntry)
    ensures
        r@ == entry_of(m@),
{
    LogEntry {
        datetime: datetime_label(m.timestamp),
        sender_name: m.sender,
        message_body_class_hints: kind_hint_of(m.kind),
        message_body: m.body,
    }
}

fn open_log(character: &String, log_name: &String, m: LogMessage) -> (r: DayLog)
    ensures
        r@ == fresh_log(character@, log_name@, m@),
{
    let day = m.timestamp / 86400;
    let date = date_label(m.timestamp);
    let mut entries: Vec<LogEntry> = Vec::new();
    entries.push(entry_from(m));
    let r = DayLog { character_name: character.clone(), log_name: log_name.clone(), day, date, entries };
    assert(r@.entries =~= seq![entry_of(m@)]);
    r
}

/// The path of a day log's file under the output root:
/// `<identity>/<log name>/<date>.html`.
pub fn log_path(log: &DayLog) -> (r: String)
    ensures
        r@ == log.character_name@ + "/"@ + log.log_name@ + "/"@ + log.date@ + ".html"@,
{
    let mut p = String::new();
    p.append(log.character_name.as_str());
    p.append("/");
    p.append(log.log_name.as_str());
    p.append("/");
    p.append(log.date.as_str());
    p.append(".html");
    assert(p@ =~= log.character_name@ + "/"@ + log.log_name@ + "/"@ + log.date@ + ".html"@);
    p
}

/// Groups messages into one log per identity, log name and UTC calendar
/// date, and hands each log over once its day is over.
pub struct HTMLConsumer {
    pub logs: Vec<DayLog>,
    pub configured: bool,
    pub save_location: Option<String>,
}

impl LogConsumer for HTMLConsumer {
    fn new() -> (r: Self)
        ensures
            !r.configured,
            r.save_location is None,
            r.logs@.len() == 0,
            r.wf(),
    {
        proof {
            reveal(groups_unique);
        }
        HTMLConsumer { logs: Vec::new(), configured: false, save_location: None }
    }
}

impl HTMLConsumer {
    /// One open day log per group, each dated by its day.
    pub open spec fn wf(&self) -> bool {
        groups_unique(day_log_views(self.logs@)) && logs_dated(day_log_views(self.logs@))
    }

    /// Binds the output root. It must name an existing directory.
    pub fn configure(&mut self, save_location: String, location_exists: bool, location_is_dir: bool) -> (r: Result<(), ()>)
        ensures
            r is Ok <==> location_exists && location_is_dir,
            r is Ok ==> final(self).configured && final(self).save_location == Some(save_location),
            r is Err ==> *final(self) == *old(self),
            final(self).logs == old(self).logs,
    {
        if !location_exists || !location_is_dir {
            return Err(());
        }
        self.save_location = Some(save_location);
        self.configured = true;
        Ok(())
    }

    fn find_group(&self, character: &String, log_name: &String) -> (r: Option<usize>)
        ensures
            match r {
                Some(i) => i < self.logs@.len() && has_group(day_log_views(self.logs@), character@, log_name@)
                    && i == group_index(day_log_views(self.logs@), character@, log_name@),
                None => !has_group(day_log_views(self.logs@), character@, log_name@),
            },
    {
        let ghost vs = day_log_views(self.logs@);
        let mut i: usize = 0;
        while i < self.logs.len()
            invariant
                i <= self.logs@.len(),
                vs == day_log_views(self.logs@),
                forall|j: int| 0 <= j < i ==> !#[trigger] is_group(vs[j], character@, log_name@),
            decreases self.logs@.len() - i,
        {
            if self.logs[i].character_name == *character && self.logs[i].log_name == *log_name {
                proof {
                    assert(vs[i as int] == self.logs@[i as int]@);
                    assert(is_group(vs[i as int], character@, log_name@));
                    let k = group_index(vs, character@, log_name@);
                    if k < i as int {
                        assert(!is_group(vs[k], character@, log_name@));
                    }
                    if k > i as int {
                        assert(!is_group(vs[i as int], character@, log_name@));
                    }
                }
                return Some(i);
            }
            assert(vs[i as int] == self.logs@[i as int]@);
            i += 1;
        }
        None
    }
}

impl HTMLConsumer {
    fn add_message(&mut self, m: LogMessage, character: &String, log: &String) -> (out: Vec<DayLog>)
        ensures
            final(self).configured == old(self).configured,
            final(self).save_location == old(self).save_location,
            (day_log_views(final(self).logs@), day_log_views(out@)) == after_message(
                day_log_views(old(self).logs@),
                character@,
                log@,
                m@,
            ),
            old(self).wf() ==> final(self).wf(),
    {
        let found = self.find_group(character, log);
        let mut out: Vec<DayLog> = Vec::new();
        let ghost old_logs = self.logs@;
        let ghost vs = day_log_views(self.logs@);
        let ghost mv = m@;
        match found {
            Some(i) => {
                let mut g = self.logs.remove(i);
                let ghost gv = g@;
                if g.day == m.timestamp / 86400 {
                    g.entries.push(entry_from(m));
                    self.logs.insert(i, g);
                    proof {
                        assert(g@.entries =~= gv.entries.push(entry_of(mv)));
                        assert(day_log_views(self.logs@) =~= vs.update(
                            i as int,
                            DayLogView { entries: gv.entries.push(entry_of(mv)), ..gv },
                        ));
                    }
                } else {
                    let fresh = open_log(character, log, m);
                    self.logs.insert(i, fresh);
                    out.push(g);
                    proof {
                        assert(day_log_views(self.logs@) =~= vs.update(
                            i as int,
                            fresh_log(character@, log@, mv),
                        ));
                        assert(day_log_views(out@) =~= seq![gv]);
                    }
                }
                proof {
                    lemma_fresh_dated(character@, log@, mv);
                    let ws = day_log_views(self.logs@);
                    if logs_dated(vs) {
                        assert forall|j: int| 0 <= j < ws.len() implies dated(#[trigger] ws[j]) by {
                            if j != i as int {
                                assert(ws[j] == vs[j]);
                            } else {
                                assert(dated(vs[j]));
                            }
                        }
                    }
                    lemma_group_index(vs, character@, log@);
                    assert(vs[i as int] == old_logs[i as int]@);
                    assert(self.logs@ =~= old_logs.update(i as int, self.logs@[i as int]));
                    self.lemma_update_keeps_unique(old_logs, i as int);
                    assert(day_log_views(out@) =~= after_message(vs, character@, log@, mv).1);
                }
            },
            None => {
                let fresh = open_log(character, log, m);
                self.logs.push(fresh);
                proof {
                    assert(day_log_views(self.logs@) =~= vs.push(fresh_log(character@, log@, mv)));
                    assert(day_log_views(out@) =~= Seq::<DayLogView>::empty());
                    lemma_push_keeps_unique(vs, fresh_log(character@, log@, mv));
                    lemma_fresh_dated(character@, log@, mv);
                    let ws = day_log_views(self.logs@);
                    if logs_dated(vs) {
                        assert forall|j: int| 0 <= j < ws.len() implies dated(#[trigger] ws[j]) by {
                            if j < vs.len() {
                                assert(ws[j] == vs[j]);
                            }
                        }
                    }
                }
            },
        }
        out
    }

    fn end_group(&mut self, character: &String, log: &String) -> (out: Vec<DayLog>)
        ensures
            final(self).configured == old(self).configured,
            final(self).save_location == old(self).save_location,
            (day_log_views(final(self).logs@), day_log_views(out@)) == after_end(
                day_log_views(old(self).logs@),
                character@,
                log@,
            ),
            old(self).wf() ==> final(self).wf(),
    {
        let found = self.find_group(character, log);
        let mut out: Vec<DayLog> = Vec::new();
        let ghost vs = day_log_views(self.logs@);
        match found {
            Some(i) => {
                let g = self.logs.remove(i);
                let ghost gv = g@;
                if g.entries.len() > 0 {
                    out.push(g);
                }
                proof {
                    assert(day_log_views(self.logs@) =~= vs.remove(i as int));
                    if gv.entries.len() > 0 {
                        assert(day_log_views(out@) =~= seq![gv]);
                    } else {
                        assert(day_log_views(out@) =~= Seq::<DayLogView>::empty());
                    }
                    lemma_remove_keeps_unique(vs, i as int);
                    let ws = day_log_views(self.logs@);
                    if logs_dated(vs) {
                        assert forall|j: int| 0 <= j < ws.len() implies dated(#[trigger] ws[j]) by {
                            if j < i {
                                assert(ws[j] == vs[j]);
                            } else {
                                assert(ws[j] == vs[j + 1]);
                            }
                        }
                    }
                }
            },
            None => {
                proof {
                    assert(day_log_views(out@) =~= Seq::<DayLogView>::empty());
                }
            },
        }
        out
    }
}

proof fn lemma_push_keeps_unique(vs: Seq<DayLogView>, g: DayLogView)
    requires
        !has_group(vs, g.character_name, g.log_name),
    ensures
        groups_unique(vs) ==> groups_unique(vs.push(g)),
{
        reveal(groups_unique);
    let ws = vs.push(g);
    let n = vs.len() as int;
    assert forall|a: int, b: int|
        0 <= a < n + 1 && 0 <= b < n + 1 && a != b && groups_unique(vs) implies !is_group(
        #[trigger] ws[a],
        #[trigger] ws[b].character_name,
        ws[b].log_name,
    ) by {
        if a < n && b < n {
            assert(!is_group(vs[a], vs[b].character_name, vs[b].log_name));
        } else if a < n {
            assert(!is_group(vs[a], g.character_name, g.log_name));
        } else {
            assert(!is_group(vs[b], g.character_name, g.log_name));
        }
    }
}

proof fn lemma_remove_keeps_unique(vs: Seq<DayLogView>, i: int)
    requires
        0 <= i < vs.len(),
    ensures
        groups_unique(vs) ==> groups_unique(vs.remove(i)),
{
        reveal(groups_unique);
    let ws = vs.remove(i);
    assert forall|a: int, b: int|
        0 <= a < ws.len() && 0 <= b < ws.len() && a != b && groups_unique(vs) implies !is_group(
        #[trigger] ws[a],
        #[trigger] ws[b].character_name,
        ws[b].log_name,
    ) by {
        let a2 = if a < i {
            a
        } else {
            a + 1
        };
        let b2 = if b < i {
            b
        } else {
            b + 1
        };
        assert(!is_group(vs[a2], vs[b2].character_name, vs[b2].log_name));
    }
}

impl FChatLogConsumer for HTMLConsumer {
    open spec fn ready(&self) -> bool {
        self.configured
    }

    fn consume(&mut self, result: Option<ReadItem>, log_name: &str, character_name: Option<&str>) -> (c: Consumed)
        ensures
            final(self).configured == old(self).configured,
            final(self).save_location == old(self).save_location,
            ({
                let step = after_item(
                    day_log_views(old(self).logs@),
                    identity(character_name),
                    log_name@,
                    item_message(result),
                );
                &&& day_log_views(final(self).logs@) == step.0
                &&& day_log_views(c.logs@) == step.1
            }),
            c.proceed == (result matches Some(ReadItem::Message(_))),
            c.corrupt == (result matches Some(ReadItem::Corrupt)),
            c.lines@.len() == 0,
            old(self).wf() ==> final(self).wf(),
    {
        let corrupt = matches!(result, Some(ReadItem::Corrupt));
        let character = identity_of(character_name);
        let log = String::from_str(log_name);
        match result {
            Some(ReadItem::Message(m)) => {
                let logs = self.add_message(m, &character, &log);
                Consumed { proceed: true, corrupt: false, lines: Vec::new(), logs }
            },
            _ => {
                let logs = self.end_group(&character, &log);
                Consumed { proceed: false, corrupt, lines: Vec::new(), logs }
            },
        }
    }
}

impl HTMLConsumer {
    proof fn lemma_update_keeps_unique(&self, old_logs: Seq<DayLog>, i: int)
        requires
            0 <= i < old_logs.len(),
            self.logs@ == old_logs.update(i, self.logs@[i]),
            self.logs@[i].character_name@ == old_logs[i].character_name@,
            self.logs@[i].log_name@ == old_logs[i].log_name@,
        ensures
            groups_unique(day_log_views(old_logs)) ==> groups_unique(day_log_views(self.logs@)),
    {
        reveal(groups_unique);
        let vs = day_log_views(old_logs);
        let ws = day_log_views(self.logs@);
        assert forall|a: int, b: int|
            0 <= a < ws.len() && 0 <= b < ws.len() && a != b && groups_unique(vs) implies !is_group(
            #[trigger] ws[a],
            #[trigger] ws[b].character_name,
            ws[b].log_name,
        ) by {
            assert(!is_group(vs[a], vs[b].character_name, vs[b].log_name));
        }
    }
}

/// Three messages of one group, the first two on one UTC date and the third
/// on another, consumed while other groups may have open logs but this one
/// has none, and followed by the end of the walk: exactly two day logs are
/// finished, the first holding the first two entries in order, the second
/// the third entry; the second message finishes nothing, the third finishes
/// the first log, and afterwards the open logs are those of the other groups.
pub proof fn lemma_date_boundary_flush(
    logs: Seq<DayLogView>,
    character: Seq<char>,
    log_name: Seq<char>,
    m1: MessageView,
    m2: MessageView,
    m3: MessageView,
)
    requires
        !has_group(logs, character, log_name),
        day_of(m1.timestamp as int) == day_of(m2.timestamp as int),
        day_of(m3.timestamp as int) != day_of(m1.timestamp as int),
    ensures
        ({
            let s1 = after_item(logs, character, log_name, Some(m1));
            let s2 = after_item(s1.0, character, log_name, Some(m2));
            let s3 = after_item(s2.0, character, log_name, Some(m3));
            let s4 = after_item(s3.0, character, log_name, None);
            let first = DayLogView {
                character_name: character,
                log_name: log_name,
                day: day_of(m1.timestamp as int),
                date: date_text(m1.timestamp as int),
                entries: seq![entry_of(m1), entry_of(m2)],
            };
            &&& s1.1.len() == 0
            &&& s2.1.len() == 0
            &&& s3.1 == seq![first]
            &&& s4.1 == seq![fresh_log(character, log_name, m3)]
            &&& s4.0 == logs
        }),
{
    let n = logs.len() as int;
    let s1 = after_item(logs, character, log_name, Some(m1));
    let g1 = fresh_log(character, log_name, m1);
    assert(s1.0 == logs.push(g1));
    lemma_last_group(logs, character, log_name, g1);
    let s2 = after_item(s1.0, character, log_name, Some(m2));
    let g2 = DayLogView { entries: g1.entries.push(entry_of(m2)), ..g1 };
    assert(s2.0 =~= logs.push(g2));
    lemma_last_group(logs, character, log_name, g2);
    let s3 = after_item(s2.0, character, log_name, Some(m3));
    let g3 = fresh_log(character, log_name, m3);
    assert(s3.0 =~= logs.push(g3));
    lemma_last_group(logs, character, log_name, g3);
    let s4 = after_item(s3.0, character, log_name, None);
    assert(s4.0 =~= logs);
    assert(g2.entries =~= seq![entry_of(m1), entry_of(m2)]);
}

/// A group's log pushed after logs of other groups is the group's first log.
proof fn lemma_last_group(
    logs: Seq<DayLogView>,
    character: Seq<char>,
    log_name: Seq<char>,
    g: DayLogView,
)
    requires
        !has_group(logs, character, log_name),
        is_group(g, character, log_name),
    ensures
        has_group(logs.push(g), character, log_name),
        group_index(logs.push(g), character, log_name) == logs.len(),
{
    let ws = logs.push(g);
    assert(is_group(ws[logs.len() as int], character, log_name));
    lemma_group_index(ws, character, log_name);
    let i = group_index(ws, character, log_name);
    if i < logs.len() {
        assert(ws[i] == logs[i]);
    }
}

} // verus!
