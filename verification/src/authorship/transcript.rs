//! The conversation that led to a piece of AI-written code.

use vstd::prelude::*;

verus! {

/// One message of a conversation, with the time it was written where known.
#[derive(Debug, PartialEq, Eq)]
pub enum Message {
    User { text: String, timestamp: Option<String> },
    Assistant { text: String, timestamp: Option<String> },
}

impl Clone for Message {
    fn clone(&self) -> (r: Self)
        ensures
            r == *self,
    {
        match self {
            Message::User { text, timestamp } => Message::User {
                text: text.clone(),
                timestamp: timestamp.clone(),
            },
            Message::Assistant { text, timestamp } => Message::Assistant {
                text: text.clone(),
                timestamp: timestamp.clone(),
            },
        }
    }
}

impl Message {
    pub fn user(text: String, timestamp: Option<String>) -> (r: Self)
        ensures
            r == (Message::User { text, timestamp }),
    {
        Message::User { text, timestamp }
    }

    pub fn assistant(text: String, timestamp: Option<String>) -> (r: Self)
        ensures
            r == (Message::Assistant { text, timestamp }),
    {
        Message::Assistant { text, timestamp }
    }
}

/// The messages of a conversation, oldest first.
#[derive(Debug, PartialEq, Eq)]
pub struct AiTranscript {
    pub messages: Vec<Message>,
}

impl View for AiTranscript {
    type V = Seq<Message>;

    open spec fn view(&self) -> Seq<Message> {
        self.messages@
    }
}

impl Clone for AiTranscript {
    fn clone(&self) -> (r: Self)
        ensures
            r@ == self@,
    {
        let messages = self.messages.clone();
        assert(messages@ =~= self.messages@);
        AiTranscript { messages }
    }
}

impl AiTranscript {
    /// A conversation without messages.
    pub fn new() -> (r: Self)
        ensures
            r@ == Seq::<Message>::empty(),
    {
        AiTranscript { messages: Vec::new() }
    }

    pub fn messages(&self) -> (r: &Vec<Message>)
        ensures
            r@ == self@,
    {
        &self.messages
    }
}

/// What an optional transcript holds.
pub open spec fn transcript_view(t: Option<AiTranscript>) -> Option<Seq<Message>> {
    match t {
        Some(t) => Some(t@),
        None => None,
    }
}

/// A copy of an optional transcript.
pub fn clone_transcript(t: &Option<AiTranscript>) -> (r: Option<AiTranscript>)
    ensures
        transcript_view(r) == transcript_view(*t),
{
    match t {
        Some(t) => Some(t.clone()),
        None => None,
    }
}

} // verus!
