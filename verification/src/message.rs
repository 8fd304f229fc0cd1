use vstd::prelude::*;

verus! {

/// Ternary priority for message ordering.
#[derive(Debug, Clone, Copy, PartialEq, Eq, Structural, PartialOrd, Ord)]
pub enum TernaryPriority {
    /// Low priority, negative signal.
    Negative,
    /// Normal priority, neutral.
    Neutral,
    /// High priority, positive signal.
    Positive,
}

/// Rank of a priority: the higher the rank, the sooner a priority channel
/// hands the message out.
pub open spec fn rank(p: TernaryPriority) -> int {
    match p {
        TernaryPriority::Negative => -1,
        TernaryPriority::Neutral => 0,
        TernaryPriority::Positive => 1,
    }
}

impl TernaryPriority {
    /// The ternary value of the priority: -1, 0 or +1.
    pub fn value(self) -> (r: i8)
        ensures
            r == rank(self),
    {
        match self {
            TernaryPriority::Negative => -1,
            TernaryPriority::Neutral => 0,
            TernaryPriority::Positive => 1,
        }
    }
}

/// A message payload with metadata.
#[derive(Debug, Clone)]
pub struct Message {
    pub id: u64,
    pub sender: String,
    pub recipient: String,
    pub payload: Vec<u8>,
    pub priority: TernaryPriority,
}

/// Abstract value of a message: its fields, with strings and payload taken
/// by their contents.
pub struct MessageView {
    pub id: u64,
    pub sender: Seq<char>,
    pub recipient: Seq<char>,
    pub payload: Seq<u8>,
    pub priority: TernaryPriority,
}

impl View for Message {
    type V = MessageView;

    open spec fn view(&self) -> MessageView {
        MessageView {
            id: self.id,
            sender: self.sender@,
            recipient: self.recipient@,
            payload: self.payload@,
            priority: self.priority,
        }
    }
}

impl Message {
    pub fn new(id: u64, sender: &str, recipient: &str, payload: Vec<u8>, priority: TernaryPriority) -> (m: Self)
        ensures
            m.id == id,
            m.sender@ == sender@,
            m.recipient@ == recipient@,
            m.payload == payload,
            m.priority == priority,
    {
        Message { id, sender: sender.to_string(), recipient: recipient.to_string(), payload, priority }
    }

    /// A copy of the message with the same contents.
    pub fn duplicate(&self) -> (m: Self)
        ensures
            m@ == self@,
    {
        Message {
            id: self.id,
            sender: self.sender.clone(),
            recipient: self.recipient.clone(),
            payload: self.payload.clone(),
            priority: self.priority,
        }
    }
}

} // verus!
