use vstd::prelude::*;
use vstd::utf8::*;
use crate::message::{kind_code, kind_of_code, LogMessage, MessageKind, MessageView};

verus! {

broadcast use group_utf8_lib;

/// A little-endian 16-bit value at `i`.
pub open spec fn le16(b: Seq<u8>, i: int) -> int {
    b[i] as int + 256 * (b[i + 1] as int)
}

/// A little-endian 32-bit value at `i`.
pub open spec fn le32(b: Seq<u8>, i: int) -> int {
    b[i] as int + 256 * (b[i + 1] as int) + 65536 * (b[i + 2] as int) + 16777216 * (b[i + 3] as int)
}

/// The two little-endian bytes of `v`.
pub open spec fn u16_le(v: int) -> Seq<u8> {
    seq![(v % 256) as u8, (v / 256) as u8]
}

/// The four little-endian bytes of `v`.
pub open spec fn u32_le(v: int) -> Seq<u8> {
    seq![(v % 256) as u8, ((v / 256) % 256) as u8, ((v / 65536) % 256) as u8, (v / 16777216) as u8]
}

pub open spec fn sender_bytes(m: MessageView) -> Seq<u8> {
    encode_utf8(m.sender)
}

pub open spec fn body_bytes(m: MessageView) -> Seq<u8> {
    encode_utf8(m.body)
}

/// The value of a record's trailing length field: the bytes of every field before it.
pub open spec fn fields_len(m: MessageView) -> int {
    8 + sender_bytes(m).len() as int + body_bytes(m).len() as int
}

/// A message fits the record layout: its sender in an 8-bit length, its
/// whole record in a 16-bit one.
pub open spec fn encodable(m: MessageView) -> bool {
    sender_bytes(m).len() <= 255 && fields_len(m) <= 65535
}

/// The record of one message on disk.
pub open spec fn record_bytes(m: MessageView) -> Seq<u8> {
    u32_le(m.timestamp as int) + seq![kind_code(m.kind)] + seq![sender_bytes(m).len() as u8]
        + sender_bytes(m) + u16_le(body_bytes(m).len() as int) + body_bytes(m) + u16_le(
        fields_len(m),
    )
}

/// A log file holding the records of `ms`, oldest first.
pub open spec fn records_bytes(ms: Seq<MessageView>) -> Seq<u8>
    decreases ms.len(),
{
    if ms.len() == 0 {
        Seq::empty()
    } else {
        records_bytes(ms.drop_last()) + record_bytes(ms.last())
    }
}

/// What one decoding step finds.
pub enum Step {
    /// The position is the end of the source: a record boundary.
    End,
    /// A short record, a length that does not add up, an unknown kind or
    /// text that is not UTF-8.
    Corrupt,
    /// A message, and the position on the far side of its record.
    Record(MessageView, int),
}

/// Decoding the record that starts at `pos`. With `check`, its trailing
/// length must equal the length of its fields.
#[verifier::opaque]
pub open spec fn forward_step(buf: Seq<u8>, pos: int, check: bool) -> Step {
    if pos == buf.len() {
        Step::End
    } else if buf.len() < pos + 6 {
        Step::Corrupt
    } else {
        let sl = buf[pos + 5] as int;
        if buf.len() < pos + 8 + sl {
            Step::Corrupt
        } else {
            let tl = le16(buf, pos + 6 + sl);
            if buf.len() < pos + 10 + sl + tl {
                Step::Corrupt
            } else {
                let rl = le16(buf, pos + 8 + sl + tl);
                let sb = buf.subrange(pos + 6, pos + 6 + sl);
                let tb = buf.subrange(pos + 8 + sl, pos + 8 + sl + tl);
                if check && rl != 8 + sl + tl {
                    Step::Corrupt
                } else if kind_of_code(buf[pos + 4]) is None {
                    Step::Corrupt
                } else if !valid_utf8(sb) || !valid_utf8(tb) {
                    Step::Corrupt
                } else {
                    Step::Record(
                        MessageView {
                            timestamp: le32(buf, pos) as u32,
                            kind: kind_of_code(buf[pos + 4]).unwrap(),
                            sender: decode_utf8(sb),
                            body: decode_utf8(tb),
                        },
                        pos + 10 + sl + tl,
                    )
                }
            }
        }
    }
}

/// What a decoding function hands back.
#[derive(Debug)]
pub enum Decoded {
    End,
    Corrupt,
    /// The message and the position where the cursor is left.
    Record(LogMessage, usize),
}

/// `d` is what `s` describes, for a record met at `pos`.
pub open spec fn decoded_as(d: Decoded, s: Step, pos: int) -> bool {
    match s {
        Step::End => d is End,
        Step::Corrupt => d is Corrupt,
        Step::Record(m, next) => match d {
            Decoded::Record(lm, p) => lm@ == m && p == next && lm.encoded_size == (if next
                > pos {
                next - pos
            } else {
                pos - next
            }),
            _ => false,
        },
    }
}

fn read_u16(buf: &[u8], i: usize) -> (r: u16)
    requires
        i + 2 <= buf@.len(),
    ensures
        r == le16(buf@, i as int),
{
    buf[i] as u16 + 256 * (buf[i + 1] as u16)
}

fn read_u32(buf: &[u8], i: usize) -> (r: u32)
    requires
        i + 4 <= buf@.len(),
    ensures
        r == le32(buf@, i as int),
{
    buf[i] as u32 + 256 * (buf[i + 1] as u32) + 65536 * (buf[i + 2] as u32) + 16777216 * (
    buf[i + 3] as u32)
}

fn copy_range(buf: &[u8], from: usize, to: usize) -> (r: Vec<u8>)
    requires
        from <= to <= buf@.len(),
    ensures
        r@ == buf@.subrange(from as int, to as int),
{
    let mut r: Vec<u8> = Vec::new();
    let mut i: usize = from;
    while i < to
        invariant
            from <= i <= to <= buf@.len(),
            r@ == buf@.subrange(from as int, i as int),
        decreases to - i,
    {
        r.push(buf[i]);
        i += 1;
    }
    r
}

/// Relies on String::from_utf8: it succeeds exactly on valid UTF-8, and the
/// string it returns holds those bytes.
#[verifier::external_body]
fn string_from_utf8(v: Vec<u8>) -> (r: Option<String>)
    ensures
        r.is_some() == valid_utf8(v@),
        r.is_some() ==> encode_utf8(r.unwrap()@) == v@,
{
    String::from_utf8(v).ok()
}

/// Decodes the record that starts at `pos`.
pub fn decode_forward(buf: &[u8], pos: usize, check: bool) -> (r: Decoded)
    requires
        pos <= buf@.len(),
    ensures
        decoded_as(r, forward_step(buf@, pos as int, check), pos as int),
{
    reveal(forward_step);
    let len = buf.len();
    if pos == len {
        return Decoded::End;
    }
    if len - pos < 6 {
        return Decoded::Corrupt;
    }
    let sl = buf[pos + 5] as usize;
    if len - pos < 8 + sl {
        return Decoded::Corrupt;
    }
    let tl = read_u16(buf, pos + 6 + sl) as usize;
    if len - pos < 10 + sl + tl {
        return Decoded::Corrupt;
    }
    let rl = read_u16(buf, pos + 8 + sl + tl) as usize;
    if check && rl != 8 + sl + tl {
        return Decoded::Corrupt;
    }
    let kind = match MessageKind::from_code(buf[pos + 4]) {
        Some(k) => k,
        None => {
            return Decoded::Corrupt;
        },
    };
    let sender = match string_from_utf8(copy_range(buf, pos + 6, pos + 6 + sl)) {
        Some(s) => s,
        None => {
            return Decoded::Corrupt;
        },
    };
    let body = match string_from_utf8(copy_range(buf, pos + 8 + sl, pos + 8 + sl + tl)) {
        Some(s) => s,
        None => {
            return Decoded::Corrupt;
        },
    };
    let timestamp = read_u32(buf, pos);
    let size = 10 + sl + tl;
    Decoded::Record(LogMessage { timestamp, kind, sender, body, encoded_size: size }, pos + size)
}

/// Decoding the record that ends at `pos`: its trailing length leads back
/// to its start. With `check`, decoding from that start must end at `pos`.
#[verifier::opaque]
pub open spec fn backward_step(buf: Seq<u8>, pos: int, check: bool) -> Step {
    if pos == 0 {
        Step::End
    } else if pos < 2 {
        Step::Corrupt
    } else {
        let rl = le16(buf, pos - 2);
        if pos < rl + 2 {
            Step::Corrupt
        } else {
            let start = pos - 2 - rl;
            match forward_step(buf, start, check) {
                Step::Record(m, next) => if check && next != pos {
                    Step::Corrupt
                } else {
                    Step::Record(m, start)
                },
                _ => Step::Corrupt,
            }
        }
    }
}

/// Decodes the record that ends at `pos`, and leaves the cursor at its start.
pub fn decode_backward(buf: &[u8], pos: usize, check: bool) -> (r: Decoded)
    requires
        pos <= buf@.len(),
    ensures
        decoded_as(r, backward_step(buf@, pos as int, check), pos as int),
{
    reveal(backward_step);
    if pos == 0 {
        return Decoded::End;
    }
    if pos < 2 {
        return Decoded::Corrupt;
    }
    let rl = read_u16(buf, pos - 2) as usize;
    if pos < rl + 2 {
        return Decoded::Corrupt;
    }
    let start = pos - 2 - rl;
    match decode_forward(buf, start, check) {
        Decoded::Record(mut m, next) => {
            if check && next != pos {
                Decoded::Corrupt
            } else {
                m.encoded_size = rl + 2;
                Decoded::Record(m, start)
            }
        },
        _ => Decoded::Corrupt,
    }
}

fn push_u16(out: &mut Vec<u8>, v: u16)
    ensures
        final(out)@ == old(out)@ + u16_le(v as int),
{
    out.push((v % 256) as u8);
    out.push((v / 256) as u8);
}

fn push_bytes(out: &mut Vec<u8>, b: &[u8])
    ensures
        final(out)@ == old(out)@ + b@,
{
    let ghost start = out@;
    let mut i: usize = 0;
    while i < b.len()
        invariant
            i <= b@.len(),
            out@ == start + b@.subrange(0, i as int),
        decreases b@.len() - i,
    {
        out.push(b[i]);
        i += 1;
        assert(out@ =~= start + b@.subrange(0, i as int));
    }
    assert(b@.subrange(0, b@.len() as int) =~= b@);
}

/// Appends the record of `m` to `out`.
pub fn encode_record(m: &LogMessage, out: &mut Vec<u8>)
    requires
        encodable(m@),
    ensures
        final(out)@ == old(out)@ + record_bytes(m@),
{
    let ghost start = out@;
    let s = m.sender.as_str().as_bytes();
    let t = m.body.as_str().as_bytes();
    let ts = m.timestamp;
    out.push((ts % 256) as u8);
    out.push(((ts / 256) % 256) as u8);
    out.push(((ts / 65536) % 256) as u8);
    out.push((ts / 16777216) as u8);
    out.push(m.kind.code());
    out.push(s.len() as u8);
    push_bytes(out, s);
    push_u16(out, t.len() as u16);
    push_bytes(out, t);
    push_u16(out, (8 + s.len() + t.len()) as u16);
    assert(out@ =~= start + record_bytes(m@));
}

/// The views of a list of messages.
pub open spec fn views(ms: Seq<LogMessage>) -> Seq<MessageView> {
    ms.map_values(|m: LogMessage| m@)
}

/// Encodes `ms` as a log file, oldest first.
pub fn encode_messages(ms: &Vec<LogMessage>) -> (r: Vec<u8>)
    requires
        forall|i: int| 0 <= i < ms@.len() ==> encodable(#[trigger] ms@[i]@),
    ensures
        r@ == records_bytes(views(ms@)),
{
    let mut out: Vec<u8> = Vec::new();
    let mut i: usize = 0;
    while i < ms.len()
        invariant
            i <= ms@.len(),
            forall|j: int| 0 <= j < ms@.len() ==> encodable(#[trigger] ms@[j]@),
            out@ == records_bytes(views(ms@).take(i as int)),
        decreases ms@.len() - i,
    {
        encode_record(&ms[i], &mut out);
        proof {
            let vs = views(ms@).take(i + 1);
            assert(vs.drop_last() =~= views(ms@).take(i as int));
        }
        i += 1;
    }
    assert(views(ms@).take(ms@.len() as int) =~= views(ms@));
    out
}

proof fn lemma_u16_round(v: int)
    requires
        0 <= v < 65536,
    ensures
        le16(u16_le(v), 0) == v,
{
}

proof fn lemma_u32_round(v: int)
    requires
        0 <= v < 0x1_0000_0000,
    ensures
        le32(u32_le(v), 0) == v,
{
}

/// One encoded record, wherever it stands, decodes to its message.
pub proof fn lemma_forward_record(p: Seq<u8>, m: MessageView, s: Seq<u8>, check: bool)
    requires
        encodable(m),
    ensures
        forward_step(p + record_bytes(m) + s, p.len() as int, check) == Step::Record(
            m,
            p.len() + fields_len(m) + 2,
        ),
        record_bytes(m).len() == fields_len(m) + 2,
{
    reveal(forward_step);
    let rec = record_bytes(m);
    let buf = p + rec + s;
    let pos = p.len() as int;
    let sb = sender_bytes(m);
    let tb = body_bytes(m);
    let sl = sb.len() as int;
    let tl = tb.len() as int;
    assert(rec.len() == 10 + sl + tl);
    assert forall|i: int| 0 <= i < rec.len() implies buf[pos + i] == rec[i] by {}
    lemma_u32_round(m.timestamp as int);
    lemma_u16_round(tl);
    lemma_u16_round(8 + sl + tl);
    let ts4 = u32_le(m.timestamp as int);
    assert(rec.subrange(0, 4) =~= ts4);
    assert(buf[pos + 5] == sl as u8);
    assert(le16(buf, pos + 6 + sl) == le16(u16_le(tl), 0));
    assert(le16(buf, pos + 8 + sl + tl) == le16(u16_le(8 + sl + tl), 0));
    assert(le32(buf, pos) == le32(ts4, 0));
    assert(buf.subrange(pos + 6, pos + 6 + sl) =~= sb);
    assert(buf.subrange(pos + 8 + sl, pos + 8 + sl + tl) =~= tb);
    assert(kind_of_code(kind_code(m.kind)) == Some(m.kind));
}

/// A forward step at the end of the source finds the end; a record it finds
/// lies past `pos` and within the source.
pub proof fn lemma_forward_step_bounds(buf: Seq<u8>, pos: int, check: bool)
    requires
        0 <= pos <= buf.len(),
    ensures
        pos == buf.len() ==> forward_step(buf, pos, check) == Step::End,
        forward_step(buf, pos, check) matches Step::Record(m, next) ==> pos < next <= buf.len()
            && next == pos + fields_len(m) + 2,
{
    reveal(forward_step);
}

/// A backward step at position 0 finds the end; a record it finds starts
/// before `pos`, at or after 0.
pub proof fn lemma_backward_step_bounds(buf: Seq<u8>, pos: int, check: bool)
    requires
        0 <= pos <= buf.len(),
    ensures
        pos == 0 ==> backward_step(buf, pos, check) == Step::End,
        backward_step(buf, pos, check) matches Step::Record(_, start) ==> 0 <= start < pos,
        check ==> (backward_step(buf, pos, check) matches Step::Record(m, start) ==> pos == start
            + fields_len(m) + 2),
{
    reveal(backward_step);
    if pos >= 2 {
        let rl = le16(buf, pos - 2);
        if pos >= rl + 2 {
            lemma_forward_step_bounds(buf, pos - 2 - rl, check);
        }
    }
}

/// A record cut short, with nothing after it, is corrupt.
pub proof fn lemma_forward_truncated(p: Seq<u8>, m: MessageView, k: int, check: bool)
    requires
        encodable(m),
        0 < k < record_bytes(m).len(),
    ensures
        forward_step(p + record_bytes(m).take(k), p.len() as int, check) == Step::Corrupt,
{
    let rec = record_bytes(m);
    let buf = p + rec.take(k);
    let pos = p.len() as int;
    let sl = sender_bytes(m).len() as int;
    let tl = body_bytes(m).len() as int;
    assert(rec.len() == 10 + sl + tl);
    assert(buf.len() == pos + k);
    if k < 6 {
        assert(forward_step(buf, pos, check) == Step::Corrupt) by {
            reveal(forward_step);
        }
    } else {
        assert(buf[pos + 5] == rec[5]);
        assert(rec[5] == sl as u8);
        assert(buf[pos + 5] as int == sl);
        if k < 8 + sl {
            assert(forward_step(buf, pos, check) == Step::Corrupt) by {
                reveal(forward_step);
            }
        } else {
            lemma_u16_round(tl);
            assert(rec.subrange(6 + sl, 8 + sl) =~= u16_le(tl));
            assert(buf[pos + 6 + sl] == rec[6 + sl]);
            assert(buf[pos + 7 + sl] == rec[7 + sl]);
            assert(le16(buf, pos + 6 + sl) == tl);
            assert(forward_step(buf, pos, check) == Step::Corrupt) by {
                reveal(forward_step);
            }
        }
    }
}

} // verus!
