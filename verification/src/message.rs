use vstd::prelude::*;

verus! {

/// One turn in a conversation.
///
/// `content` is text in a lightweight markup dialect; `role` is an opaque
/// label such as "user" or "assistant", not validated against any fixed set.
#[derive(Debug)]
pub struct Message {
    pub role: String,
    pub content: String,
}

/// The mathematical value of a [`Message`]: both fields as character
/// sequences.
pub struct MessageView {
    pub role: Seq<char>,
    pub content: Seq<char>,
}

impl View for Message {
    type V = MessageView;

    open spec fn view(&self) -> MessageView {
        MessageView { role: self.role@, content: self.content@ }
    }
}

/// The views of a sequence of messages, in order.
pub open spec fn views(msgs: Seq<Message>) -> Seq<MessageView> {
    msgs.map_values(|m: Message| m@)
}

} // verus!
