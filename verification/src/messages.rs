//! Chat messages and the transcript that fact extraction reads.

use vstd::prelude::*;
use vstd::string::StringExecFns;
use crate::text::string_views;

verus! {

/// Who spoke.
#[derive(Debug, Clone, Copy, PartialEq, Eq)]
pub enum Role {
    System,
    User,
    Assistant,
}

/// One message of a conversation.
#[derive(Debug, PartialEq, Eq)]
pub struct Message {
    pub role: Role,
    pub content: String,
}

/// The mathematical content of a [`Message`].
pub struct MessageView {
    pub role: Role,
    pub content: Seq<char>,
}

impl View for Message {
    type V = MessageView;

    open spec fn view(&self) -> MessageView {
        MessageView { role: self.role, content: self.content@ }
    }
}

impl Clone for Message {
    fn clone(&self) -> (out: Message)
        ensures
            out@ == self@,
    {
        Message { role: self.role, content: self.content.clone() }
    }
}

impl Message {
    /// A message of the system.
    pub fn system(content: &str) -> (m: Message)
        ensures
            m@ == (MessageView { role: Role::System, content: content@ }),
    {
        Message { role: Role::System, content: content.to_owned() }
    }

    /// A message of the user.
    pub fn user(content: &str) -> (m: Message)
        ensures
            m@ == (MessageView { role: Role::User, content: content@ }),
    {
        Message { role: Role::User, content: content.to_owned() }
    }

    /// A message of the assistant.
    pub fn assistant(content: &str) -> (m: Message)
        ensures
            m@ == (MessageView { role: Role::Assistant, content: content@ }),
    {
        Message { role: Role::Assistant, content: content.to_owned() }
    }
}

/// The contents of a list of messages.
pub open spec fn message_views(messages: Seq<Message>) -> Seq<MessageView> {
    messages.map_values(|m: Message| m@)
}

/// What a caller hands in: one text, taken as said by the user, or a
/// conversation.
#[derive(Debug, Clone, PartialEq, Eq)]
pub enum Messages {
    Text(String),
    List(Vec<Message>),
}

/// The conversation that an input stands for.
pub open spec fn conversation(input: Messages) -> Seq<MessageView> {
    match input {
        Messages::Text(text) => seq![MessageView { role: Role::User, content: text@ }],
        Messages::List(list) => message_views(list@),
    }
}

impl Messages {
    /// A single text, taken as said by the user.
    pub fn from_text(text: &str) -> (input: Messages)
        ensures
            conversation(input) == seq![MessageView { role: Role::User, content: text@ }],
    {
        Messages::Text(text.to_owned())
    }

    /// The conversation that this input stands for.
    pub fn into_messages(self) -> (list: Vec<Message>)
        ensures
            message_views(list@) == conversation(self),
    {
        match self {
            Messages::Text(text) => {
                let mut list: Vec<Message> = Vec::new();
                list.push(Message { role: Role::User, content: text });
                assert(message_views(list@) =~= conversation(self));
                list
            },
            Messages::List(list) => list,
        }
    }
}

impl vstd::std_specs::convert::FromSpecImpl<String> for Messages {
    open spec fn obeys_from_spec() -> bool {
        true
    }

    open spec fn from_spec(text: String) -> Messages {
        Messages::Text(text)
    }
}

impl vstd::std_specs::convert::FromSpecImpl<Vec<Message>> for Messages {
    open spec fn obeys_from_spec() -> bool {
        true
    }

    open spec fn from_spec(list: Vec<Message>) -> Messages {
        Messages::List(list)
    }
}

impl From<String> for Messages {
    fn from(text: String) -> (input: Messages)
        ensures
            input == Messages::Text(text),
    {
        Messages::Text(text)
    }
}

impl From<Vec<Message>> for Messages {
    fn from(list: Vec<Message>) -> (input: Messages)
        ensures
            input == Messages::List(list),
    {
        Messages::List(list)
    }
}

/// A message that the system did not write.
pub open spec fn is_spoken() -> spec_fn(MessageView) -> bool {
    |m: MessageView| m.role != Role::System
}

/// The text of a message.
pub open spec fn content_of() -> spec_fn(MessageView) -> Seq<char> {
    |m: MessageView| m.content
}

/// The texts of the messages that the system did not write, in order.
pub open spec fn spoken(messages: Seq<MessageView>) -> Seq<Seq<char>> {
    messages.filter(is_spoken()).map_values(content_of())
}

/// The name of a role as a transcript shows it.
pub open spec fn role_name(role: Role) -> Seq<char> {
    match role {
        Role::System => "System"@,
        Role::User => "User"@,
        Role::Assistant => "Assistant"@,
    }
}

/// The line of a message in a transcript: the role, a colon and a space,
/// the content.
pub open spec fn line_of(message: MessageView) -> Seq<char> {
    role_name(message.role) + ": "@ + message.content
}

/// The transcript of a conversation: the lines of its messages, a line
/// feed between two of them.
pub open spec fn transcript(messages: Seq<MessageView>) -> Seq<char>
    decreases messages.len(),
{
    if messages.len() == 0 {
        Seq::empty()
    } else if messages.len() == 1 {
        line_of(messages[0])
    } else {
        transcript(messages.drop_last()) + "\n"@ + line_of(messages.last())
    }
}

/// The name of a role as a transcript shows it.
pub fn role_label(role: Role) -> (name: &'static str)
    ensures
        name@ == role_name(role),
{
    match role {
        Role::System => "System",
        Role::User => "User",
        Role::Assistant => "Assistant",
    }
}

/// Writes the conversation down as one text.
pub fn write_transcript(messages: &Vec<Message>) -> (out: String)
    ensures
        out@ == transcript(message_views(messages@)),
{
    let ghost all = message_views(messages@);
    let mut out = String::new();
    let n: usize = messages.len();
    let mut i: usize = 0;
    assert(all.take(0) =~= Seq::<MessageView>::empty());
    while i < n
        invariant
            n == messages@.len(),
            i <= n,
            all == message_views(messages@),
            out@ == transcript(all.take(i as int)),
        decreases n - i,
    {
        let ghost before = out@;
        if i > 0 {
            out.append("\n");
        }
        out.append(role_label(messages[i].role));
        out.append(": ");
        out.append(messages[i].content.as_str());
        proof {
            let head = all.take(i + 1);
            assert(head.drop_last() =~= all.take(i as int));
            assert(head.last() == all[i as int]);
            if i == 0 {
                assert(out@ =~= line_of(all[0]));
            } else {
                assert(out@ =~= before + "\n"@ + line_of(all[i as int]));
            }
        }
        i = i + 1;
    }
    assert(all.take(n as int) =~= all);
    out
}

/// The texts of the messages that the system did not write, in order.
pub fn spoken_texts(messages: &Vec<Message>) -> (texts: Vec<String>)
    ensures
        string_views(texts@) == spoken(message_views(messages@)),
{
    let ghost all = message_views(messages@);
    let mut texts: Vec<String> = Vec::new();
    let n: usize = messages.len();
    let mut i: usize = 0;
    proof {
        reveal(Seq::filter);
        assert(all.take(0) =~= Seq::<MessageView>::empty());
        assert(string_views(texts@) =~= spoken(all.take(0)));
    }
    while i < n
        invariant
            n == messages@.len(),
            i <= n,
            all == message_views(messages@),
            string_views(texts@) == spoken(all.take(i as int)),
        decreases n - i,
    {
        let ghost before = string_views(texts@);
        proof {
            reveal(Seq::filter);
            assert(all.take(i + 1).drop_last() =~= all.take(i as int));
            assert(all.take(i + 1).last() == all[i as int]);
        }
        match messages[i].role {
            Role::System => {
                assert(spoken(all.take(i + 1)) =~= spoken(all.take(i as int)));
            },
            _ => {
                texts.push(messages[i].content.clone());
                assert(string_views(texts@) =~= before.push(all[i as int].content));
                assert(spoken(all.take(i + 1)) =~= spoken(all.take(i as int)).push(
                    all[i as int].content,
                ));
            },
        }
        i = i + 1;
    }
    assert(all.take(n as int) =~= all);
    texts
}

} // verus!
