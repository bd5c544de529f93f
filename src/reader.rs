use vstd::prelude::*;
use crate::codec::{
    backward_step, decode_backward, decode_forward, encodable, fields_len,
    forward_step, le16, le32, lemma_backward_step_bounds, lemma_forward_record,
    lemma_forward_step_bounds, record_bytes, records_bytes, u16_le, Decoded, Step,
};
use crate::message::{LogMessage, MessageView};

verus! {

/// What a reader yields: a message, or the corrupt record that ends the walk.
#[derive(Debug)]
pub enum ReadItem {
    Message(LogMessage),
    Corrupt,
}

/// The messages met walking forward from `pos`, and whether the walk ended
/// on a corrupt record rather than at the end of the source.
pub open spec fn forward_messages(buf: Seq<u8>, pos: int, check: bool) -> (Seq<MessageView>, bool)
    decreases buf.len() - pos,
{
    match forward_step(buf, pos, check) {
        Step::Record(m, next) => if pos < next <= buf.len() {
            let rest = forward_messages(buf, next, check);
            (seq![m] + rest.0, rest.1)
        } else {
            (Seq::empty(), true)
        },
        Step::Corrupt => (Seq::empty(), true),
        Step::End => (Seq::empty(), false),
    }
}

/// The messages met walking backward from `pos`, newest first, and whether
/// the walk ended on a corrupt record rather than at position 0.
pub open spec fn backward_messages(buf: Seq<u8>, pos: int, check: bool) -> (
    Seq<MessageView>,
    bool,
)
    decreases pos,
{
    match backward_step(buf, pos, check) {
        Step::Record(m, start) => if 0 <= start < pos {
            let rest = backward_messages(buf, start, check);
            (seq![m] + rest.0, rest.1)
        } else {
            (Seq::empty(), true)
        },
        Step::Corrupt => (Seq::empty(), true),
        Step::End => (Seq::empty(), false),
    }
}

/// Walks a log from its first record to its last.
pub struct ForwardReader {
    pub buf: Vec<u8>,
    pub pos: usize,
    pub check: bool,
    pub done: bool,
}

/// Walks a log from its last record to its first, by the trailing lengths.
pub struct ReverseReader {
    pub buf: Vec<u8>,
    pub pos: usize,
    pub check: bool,
    pub done: bool,
}

impl ForwardReader {
    pub open spec fn wf(&self) -> bool {
        self.pos <= self.buf@.len()
    }

    /// A reader at the start of `buf`; `check` enforces the length invariant.
    pub fn new(buf: Vec<u8>, check: bool) -> (r: ForwardReader)
        ensures
            r.wf(),
            r.buf == buf,
            r.pos == 0,
            r.check == check,
            !r.done,
    {
        ForwardReader { buf, pos: 0, check, done: false }
    }

    /// The next item; `None` once the end is reached or a corrupt record was met.
    pub fn next(&mut self) -> (r: Option<ReadItem>)
        requires
            old(self).wf(),
        ensures
            final(self).wf(),
            final(self).buf == old(self).buf,
            final(self).check == old(self).check,
            old(self).done ==> r is None && *final(self) == *old(self),
            !old(self).done ==> match forward_step(old(self).buf@, old(self).pos as int, old(self).check) {
                Step::End => r is None && final(self).done,
                Step::Corrupt => r == Some(ReadItem::Corrupt) && final(self).done,
                Step::Record(m, next) => match r {
                    Some(ReadItem::Message(lm)) => lm@ == m && final(self).pos == next
                        && lm.encoded_size == next - old(self).pos && lm.encoded_size == fields_len(m)
                        + 2 && !final(self).done,
                    _ => false,
                },
            },
    {
        if self.done {
            return None;
        }
        proof {
            lemma_forward_step_bounds(self.buf@, self.pos as int, self.check);
        }
        match decode_forward(self.buf.as_slice(), self.pos, self.check) {
            Decoded::Record(m, next) => {
                self.pos = next;
                Some(ReadItem::Message(m))
            },
            Decoded::Corrupt => {
                self.done = true;
                Some(ReadItem::Corrupt)
            },
            Decoded::End => {
                self.done = true;
                None
            },
        }
    }
}

impl ReverseReader {
    pub open spec fn wf(&self) -> bool {
        self.pos <= self.buf@.len()
    }

    /// A reader at the end of `buf`; `check` enforces the length invariant.
    pub fn new(buf: Vec<u8>, check: bool) -> (r: ReverseReader)
        ensures
            r.wf(),
            r.buf == buf,
            r.pos == buf@.len(),
            r.check == check,
            !r.done,
    {
        let pos = buf.len();
        ReverseReader { buf, pos, check, done: false }
    }

    /// The next item, newest first; `None` once position 0 is reached or a
    /// corrupt record was met.
    pub fn next(&mut self) -> (r: Option<ReadItem>)
        requires
            old(self).wf(),
        ensures
            final(self).wf(),
            final(self).buf == old(self).buf,
            final(self).check == old(self).check,
            old(self).done ==> r is None && *final(self) == *old(self),
            !old(self).done ==> match backward_step(old(self).buf@, old(self).pos as int, old(self).check) {
                Step::End => r is None && final(self).done,
                Step::Corrupt => r == Some(ReadItem::Corrupt) && final(self).done,
                Step::Record(m, start) => match r {
                    Some(ReadItem::Message(lm)) => lm@ == m && final(self).pos == start
                        && lm.encoded_size == old(self).pos - start && (old(self).check
                        ==> lm.encoded_size == fields_len(m) + 2) && !final(self).done,
                    _ => false,
                },
            },
    {
        if self.done {
            return None;
        }
        proof {
            lemma_backward_step_bounds(self.buf@, self.pos as int, self.check);
        }
        match decode_backward(self.buf.as_slice(), self.pos, self.check) {
            Decoded::Record(m, start) => {
                self.pos = start;
                Some(ReadItem::Message(m))
            },
            Decoded::Corrupt => {
                self.done = true;
                Some(ReadItem::Corrupt)
            },
            Decoded::End => {
                self.done = true;
                None
            },
        }
    }
}

proof fn lemma_records_first(ms: Seq<MessageView>)
    requires
        ms.len() > 0,
    ensures
        records_bytes(ms) == record_bytes(ms[0]) + records_bytes(ms.drop_first()),
    decreases ms.len(),
{
    if ms.len() == 1 {
        assert(ms.drop_last() =~= Seq::<MessageView>::empty());
        assert(ms.drop_first() =~= Seq::<MessageView>::empty());
        assert(records_bytes(ms) =~= record_bytes(ms[0]) + records_bytes(ms.drop_first()));
    } else {
        lemma_records_first(ms.drop_last());
        assert(ms.drop_last().drop_first() =~= ms.drop_first().drop_last());
        assert(ms.drop_last()[0] == ms[0]);
        assert(ms.drop_first().last() == ms.last());
        assert(records_bytes(ms) =~= record_bytes(ms[0]) + records_bytes(ms.drop_first()));
    }
}

/// Records that stand after `p` are decoded in order, and the walk goes on
/// past them.
pub(crate) proof fn lemma_forward_prefix(p: Seq<u8>, ms: Seq<MessageView>, s: Seq<u8>, check: bool)
    requires
        forall|i: int| 0 <= i < ms.len() ==> encodable(#[trigger] ms[i]),
    ensures
        ({
            let buf = p + records_bytes(ms) + s;
            let rest = forward_messages(buf, (p.len() + records_bytes(ms).len()) as int, check);
            forward_messages(buf, p.len() as int, check) == (ms + rest.0, rest.1)
        }),
    decreases ms.len(),
{
    let buf = p + records_bytes(ms) + s;
    if ms.len() == 0 {
        assert(ms + forward_messages(buf, p.len() as int, check).0 =~= forward_messages(
            buf,
            p.len() as int,
            check,
        ).0);
    } else {
        lemma_records_first(ms);
        let m = ms[0];
        let rest = ms.drop_first();
        assert(encodable(m));
        assert(buf =~= p + record_bytes(m) + (records_bytes(rest) + s));
        lemma_forward_record(p, m, records_bytes(rest) + s, check);
        lemma_forward_step_bounds(buf, p.len() as int, check);
        let p2 = p + record_bytes(m);
        assert(buf =~= p2 + records_bytes(rest) + s);
        assert forall|i: int| 0 <= i < rest.len() implies encodable(#[trigger] rest[i]) by {
            assert(rest[i] == ms[i + 1]);
        }
        lemma_forward_prefix(p2, rest, s, check);
        let tail = forward_messages(buf, (p2.len() + records_bytes(rest).len()) as int, check);
        assert(p2.len() + records_bytes(rest).len() == p.len() + records_bytes(ms).len());
        assert(seq![m] + (rest + tail.0) =~= ms + tail.0);
    }
}

proof fn lemma_backward_all(ms: Seq<MessageView>, s: Seq<u8>, check: bool)
    requires
        forall|i: int| 0 <= i < ms.len() ==> encodable(#[trigger] ms[i]),
    ensures
        backward_messages(records_bytes(ms) + s, records_bytes(ms).len() as int, check) == (
            ms.reverse(),
            false,
        ),
    decreases ms.len(),
{
    let buf = records_bytes(ms) + s;
    let pos = records_bytes(ms).len() as int;
    if ms.len() == 0 {
        assert(pos == 0);
        lemma_backward_step_bounds(buf, pos, check);
        assert(ms.reverse() =~= Seq::<MessageView>::empty());
    } else {
        let init = ms.drop_last();
        let m = ms.last();
        let pre = records_bytes(init);
        assert(encodable(m));
        lemma_forward_record(pre, m, s, check);
        let rec = record_bytes(m);
        assert(buf =~= pre + rec + s);
        let fl = fields_len(m);
        assert(rec.subrange(rec.len() - 2, rec.len() as int) =~= u16_le(fl));
        assert(buf[pos - 2] == rec[rec.len() - 2]);
        assert(buf[pos - 1] == rec[rec.len() - 1]);
        assert(le16(buf, pos - 2) == fl);
        reveal(backward_step);
        assert(backward_step(buf, pos, check) == Step::Record(m, pre.len() as int));
        assert forall|i: int| 0 <= i < init.len() implies encodable(#[trigger] init[i]) by {
            assert(init[i] == ms[i]);
        }
        lemma_backward_all(init, rec + s, check);
        assert(pre + (rec + s) =~= buf);
        assert(seq![m] + init.reverse() =~= ms.reverse());
    }
}

/// Encoding messages and decoding the result forward gives back the same
/// messages, field for field, with no corrupt record.
pub proof fn lemma_round_trip(ms: Seq<MessageView>, check: bool)
    requires
        forall|i: int| 0 <= i < ms.len() ==> encodable(#[trigger] ms[i]),
    ensures
        forward_messages(records_bytes(ms), 0, check) == (ms, false),
{
    let buf = records_bytes(ms);
    lemma_forward_prefix(Seq::empty(), ms, Seq::empty(), check);
    assert(Seq::<u8>::empty() + records_bytes(ms) + Seq::<u8>::empty() =~= buf);
    lemma_forward_step_bounds(buf, buf.len() as int, check);
    assert(ms + Seq::<MessageView>::empty() =~= ms);
}

/// Decoding a valid log backward from its end gives exactly the messages of
/// the forward walk, in reverse order.
pub proof fn lemma_direction_symmetry(ms: Seq<MessageView>, check: bool)
    requires
        forall|i: int| 0 <= i < ms.len() ==> encodable(#[trigger] ms[i]),
    ensures
        ({
            let buf = records_bytes(ms);
            let fwd = forward_messages(buf, 0, check);
            let bwd = backward_messages(buf, buf.len() as int, check);
            !fwd.1 && !bwd.1 && bwd.0 == fwd.0.reverse()
        }),
{
    lemma_round_trip(ms, check);
    lemma_backward_all(ms, Seq::empty(), check);
    assert(records_bytes(ms) + Seq::<u8>::empty() =~= records_bytes(ms));
}

/// A record whose trailing length field no longer equals the length of its
/// fields is refused when the check is on, in both directions (backward, where
/// the field now points before the record's start); with the check off it
/// decodes forward to the message its fields hold.
pub proof fn lemma_length_mismatch(m: MessageView, v: int)
    requires
        encodable(m),
        0 <= v < 65536,
        v != fields_len(m),
    ensures
        ({
            let buf = record_bytes(m).subrange(0, fields_len(m)) + u16_le(v);
            &&& forward_step(buf, 0, true) == Step::Corrupt
            &&& forward_step(buf, 0, false) == Step::Record(m, buf.len() as int)
            &&& v > fields_len(m) ==> backward_step(buf, buf.len() as int, true) == Step::Corrupt
        }),
{
    reveal(forward_step);
    reveal(backward_step);
    let rec = record_bytes(m);
    let fl = fields_len(m);
    let good = rec.subrange(0, fl);
    let buf = good + u16_le(v);
    lemma_forward_record(Seq::empty(), m, Seq::empty(), false);
    assert(Seq::<u8>::empty() + rec + Seq::<u8>::empty() =~= rec);
    assert(buf.len() == rec.len());
    assert forall|i: int| 0 <= i < fl implies buf[i] == rec[i] by {}
    assert(buf.subrange(6, 6 + buf[5] as int) =~= rec.subrange(6, 6 + rec[5] as int));
    let sl = rec[5] as int;
    let tl = le16(rec, 6 + sl);
    assert(le16(buf, 6 + sl) == tl);
    assert(buf.subrange(8 + sl, 8 + sl + tl) =~= rec.subrange(8 + sl, 8 + sl + tl));
    assert(le32(buf, 0) == le32(rec, 0));
    assert(le16(buf, fl) == v);
}

} // verus!
