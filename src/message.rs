use vstd::prelude::*;

verus! {

/// How a message is rendered. All kinds share one encoding on disk.
#[derive(Clone, Copy, Debug, PartialEq, Eq, Structural)]
pub enum MessageKind {
    Message,
    Action,
    Ad,
    Roll,
    Warn,
    Event,
}

/// The byte that stands for a kind on disk.
pub open spec fn kind_code(k: MessageKind) -> u8 {
    match k {
        MessageKind::Message => 0,
        MessageKind::Action => 1,
        MessageKind::Ad => 2,
        MessageKind::Roll => 3,
        MessageKind::Warn => 4,
        MessageKind::Event => 5,
    }
}

/// The kind a byte stands for, if any.
pub open spec fn kind_of_code(c: u8) -> Option<MessageKind> {
    if c == 0 {
        Some(MessageKind::Message)
    } else if c == 1 {
        Some(MessageKind::Action)
    } else if c == 2 {
        Some(MessageKind::Ad)
    } else if c == 3 {
        Some(MessageKind::Roll)
    } else if c == 4 {
        Some(MessageKind::Warn)
    } else if c == 5 {
        Some(MessageKind::Event)
    } else {
        None
    }
}

impl MessageKind {
    pub fn code(&self) -> (r: u8)
        ensures
            r == kind_code(*self),
            kind_of_code(r) == Some(*self),
    {
        match self {
            MessageKind::Message => 0,
            MessageKind::Action => 1,
            MessageKind::Ad => 2,
            MessageKind::Roll => 3,
            MessageKind::Warn => 4,
            MessageKind::Event => 5,
        }
    }

    pub fn from_code(c: u8) -> (r: Option<MessageKind>)
        ensures
            r == kind_of_code(c),
    {
        if c == 0 {
            Some(MessageKind::Message)
        } else if c == 1 {
            Some(MessageKind::Action)
        } else if c == 2 {
            Some(MessageKind::Ad)
        } else if c == 3 {
            Some(MessageKind::Roll)
        } else if c == 4 {
            Some(MessageKind::Warn)
        } else if c == 5 {
            Some(MessageKind::Event)
        } else {
            None
        }
    }
}

/// A decoded message as a mathematical value.
pub struct MessageView {
    pub timestamp: u32,
    pub kind: MessageKind,
    pub sender: Seq<char>,
    pub body: Seq<char>,
}

/// One decoded chat event.
#[derive(Debug)]
pub struct LogMessage {
    /// Seconds since the Unix epoch, UTC.
    pub timestamp: u32,
    pub kind: MessageKind,
    pub sender: String,
    pub body: String,
    /// Bytes that the record takes on disk, its trailing length field included.
    pub encoded_size: usize,
}

impl View for LogMessage {
    type V = MessageView;

    open spec fn view(&self) -> MessageView {
        MessageView {
            timestamp: self.timestamp,
            kind: self.kind,
            sender: self.sender@,
            body: self.body@,
        }
    }
}

} // verus!
