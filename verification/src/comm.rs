//! A message bus between agents: one inbox per recipient, delivered in the
//! order the messages were sent.
use std::collections::HashMap;
use vstd::prelude::*;

verus! {

broadcast use vstd::std_specs::hash::group_hash_axioms;

/// A message between agents.
#[derive(Debug, Clone)]
pub struct AgentMessage {
    pub from: u64,
    pub to: u64,
    pub tag: String,
    pub payload: String,
}

/// What a message says, with its text fields taken as character sequences.
pub struct MessageView {
    pub from: u64,
    pub to: u64,
    pub tag: Seq<char>,
    pub payload: Seq<char>,
}

impl View for AgentMessage {
    type V = MessageView;

    open spec fn view(&self) -> MessageView {
        MessageView { from: self.from, to: self.to, tag: self.tag@, payload: self.payload@ }
    }
}

/// The inboxes of a bus: for each agent id with pending messages, those
/// messages in the order they were sent.
pub type Inboxes = Map<u64, Seq<MessageView>>;

/// The pending messages of `id` (empty when it has no inbox).
pub open spec fn queue_of(inboxes: Inboxes, id: u64) -> Seq<MessageView> {
    if inboxes.contains_key(id) {
        inboxes[id]
    } else {
        Seq::empty()
    }
}

/// The inboxes after `msg` is appended to the inbox of its recipient.
pub open spec fn sent(inboxes: Inboxes, msg: MessageView) -> Inboxes {
    inboxes.insert(msg.to, queue_of(inboxes, msg.to).push(msg))
}

/// The message that a broadcast from `from` sends to `to`.
pub open spec fn broadcast_message(from: u64, to: u64, tag: Seq<char>, payload: Seq<char>) -> MessageView {
    MessageView { from, to, tag, payload }
}

/// The inboxes after a broadcast from `from` to `recipients`, in order,
/// skipping every recipient equal to the sender.
pub open spec fn broadcast_to(
    inboxes: Inboxes,
    from: u64,
    tag: Seq<char>,
    payload: Seq<char>,
    recipients: Seq<u64>,
) -> Inboxes
    decreases recipients.len(),
{
    if recipients.len() == 0 {
        inboxes
    } else {
        let before = broadcast_to(inboxes, from, tag, payload, recipients.drop_last());
        let to = recipients.last();
        if to != from {
            sent(before, broadcast_message(from, to, tag, payload))
        } else {
            before
        }
    }
}

/// How many times `id` occurs in `ids`.
pub open spec fn occurrences(ids: Seq<u64>, id: u64) -> nat
    decreases ids.len(),
{
    if ids.len() == 0 {
        0
    } else {
        occurrences(ids.drop_last(), id) + if ids.last() == id { 1nat } else { 0nat }
    }
}

/// Message bus for inter-agent communication.
#[derive(Debug, Clone)]
pub struct AgentCommunication {
    inbox: HashMap<u64, Vec<AgentMessage>>,
}

pub open spec fn messages_view(v: Seq<AgentMessage>) -> Seq<MessageView> {
    v.map_values(|m: AgentMessage| m@)
}

impl View for AgentCommunication {
    type V = Inboxes;

    closed spec fn view(&self) -> Inboxes {
        self.inbox@.map_values(|v: Vec<AgentMessage>| messages_view(v@))
    }
}

impl AgentCommunication {
    /// A bus with no pending messages.
    pub fn new() -> (bus: Self)
        ensures
            bus@ == Inboxes::empty(),
    {
        let bus = AgentCommunication { inbox: HashMap::new() };
        assert(bus@ =~= Inboxes::empty());
        bus
    }

    /// Send a message. The message is pushed to the recipient's inbox.
    pub fn send(&mut self, msg: AgentMessage)
        ensures
            final(self)@ == sent(old(self)@, msg@),
    {
        let ghost start = self@;
        let to = msg.to;
        let mut queue = match self.inbox.remove(&to) {
            Some(q) => q,
            None => Vec::new(),
        };
        assert(messages_view(queue@) =~= queue_of(start, to));
        queue.push(msg);
        assert(messages_view(queue@) =~= queue_of(start, to).push(msg@));
        self.inbox.insert(to, queue);
        assert(self@ =~= sent(start, msg@));
    }

    /// Receive all pending messages for `agent_id`, removing them from the inbox.
    pub fn receive(&mut self, agent_id: u64) -> (msgs: Vec<AgentMessage>)
        ensures
            messages_view(msgs@) == queue_of(old(self)@, agent_id),
            final(self)@ == old(self)@.remove(agent_id),
    {
        let ghost start = self@;
        let msgs = match self.inbox.remove(&agent_id) {
            Some(q) => q,
            None => Vec::new(),
        };
        assert(messages_view(msgs@) =~= queue_of(start, agent_id));
        assert(self@ =~= start.remove(agent_id));
        msgs
    }

    /// Peek at pending message count for an agent without consuming them.
    pub fn pending(&self, agent_id: u64) -> (n: usize)
        ensures
            n == queue_of(self@, agent_id).len(),
    {
        match self.inbox.get(&agent_id) {
            Some(q) => q.len(),
            None => 0,
        }
    }

    /// Broadcast a message from `from_id` to every recipient in turn, except
    /// the sender itself.
    pub fn broadcast(&mut self, from_id: u64, tag: &str, payload: &str, recipients: &[u64])
        ensures
            final(self)@ == broadcast_to(old(self)@, from_id, tag@, payload@, recipients@),
    {
        let ghost start = self@;
        let mut i: usize = 0;
        while i < recipients.len()
            invariant
                i <= recipients@.len(),
                self@ == broadcast_to(start, from_id, tag@, payload@, recipients@.take(i as int)),
            decreases recipients@.len() - i,
        {
            let to = recipients[i];
            assert(recipients@.take(i + 1).drop_last() =~= recipients@.take(i as int));
            if to != from_id {
                let msg = AgentMessage {
                    from: from_id,
                    to,
                    tag: tag.to_owned(),
                    payload: payload.to_owned(),
                };
                assert(msg@ == broadcast_message(from_id, to, tag@, payload@));
                self.send(msg);
            }
            i = i + 1;
        }
        assert(recipients@.take(recipients@.len() as int) =~= recipients@);
    }
}

impl Default for AgentCommunication {
    fn default() -> (bus: Self)
        ensures
            bus@ == Inboxes::empty(),
    {
        Self::new()
    }
}

/// Sending appends the message to the end of its recipient's inbox and leaves
/// every other inbox as it was.
pub proof fn lemma_send_appends(inboxes: Inboxes, msg: MessageView, other: u64)
    ensures
        queue_of(sent(inboxes, msg), msg.to) == queue_of(inboxes, msg.to).push(msg),
        queue_of(sent(inboxes, msg), msg.to).len() == queue_of(inboxes, msg.to).len() + 1,
        other != msg.to ==> queue_of(sent(inboxes, msg), other) == queue_of(inboxes, other),
{
}

/// Receiving empties the inbox of that agent and leaves every other inbox
/// as it was.
pub proof fn lemma_receive_drains(inboxes: Inboxes, id: u64, other: u64)
    ensures
        queue_of(inboxes.remove(id), id) == Seq::<MessageView>::empty(),
        other != id ==> queue_of(inboxes.remove(id), other) == queue_of(inboxes, other),
{
}

/// A message sent to an agent with an empty inbox is exactly what that agent
/// receives next.
pub proof fn lemma_receive_gets_what_was_sent(inboxes: Inboxes, msg: MessageView)
    requires
        queue_of(inboxes, msg.to).len() == 0,
    ensures
        queue_of(sent(inboxes, msg), msg.to) == seq![msg],
{
    assert(queue_of(inboxes, msg.to).push(msg) =~= seq![msg]);
}

/// After a broadcast, each agent other than the sender has one more message
/// per time it is listed among the recipients, each from the sender, to that
/// agent, with exactly the broadcast's tag and payload; the sender's own
/// inbox is untouched.
pub proof fn lemma_broadcast_delivery(
    inboxes: Inboxes,
    from: u64,
    tag: Seq<char>,
    payload: Seq<char>,
    recipients: Seq<u64>,
    id: u64,
)
    ensures
        queue_of(broadcast_to(inboxes, from, tag, payload, recipients), id) == queue_of(inboxes, id)
            + Seq::new(
            if id == from { 0nat } else { occurrences(recipients, id) },
            |i: int| MessageView { from, to: id, tag, payload },
        ),
    decreases recipients.len(),
{
    let n = if id == from { 0nat } else { occurrences(recipients, id) };
    let msgs = Seq::new(n, |i: int| MessageView { from, to: id, tag, payload });
    if recipients.len() == 0 {
        assert(queue_of(inboxes, id) + msgs =~= queue_of(inboxes, id));
    } else {
        let rest = recipients.drop_last();
        lemma_broadcast_delivery(inboxes, from, tag, payload, rest, id);
        let before = broadcast_to(inboxes, from, tag, payload, rest);
        let n0 = if id == from { 0nat } else { occurrences(rest, id) };
        let msgs0 = Seq::new(n0, |i: int| MessageView { from, to: id, tag, payload });
        let to = recipients.last();
        if to != from && to == id {
            assert(msgs =~= msgs0.push(MessageView { from, to: id, tag, payload }));
            assert(queue_of(inboxes, id) + msgs =~= (queue_of(inboxes, id) + msgs0).push(
                MessageView { from, to: id, tag, payload },
            ));
        } else {
            assert(msgs =~= msgs0);
        }
    }
}

/// A broadcast never delivers anything to its sender.
pub proof fn lemma_broadcast_skips_sender(
    inboxes: Inboxes,
    from: u64,
    tag: Seq<char>,
    payload: Seq<char>,
    recipients: Seq<u64>,
)
    ensures
        queue_of(broadcast_to(inboxes, from, tag, payload, recipients), from) == queue_of(inboxes, from),
{
    lemma_broadcast_delivery(inboxes, from, tag, payload, recipients, from);
    assert(queue_of(inboxes, from) + Seq::new(0nat, |i: int| MessageView { from, to: from, tag, payload })
        =~= queue_of(inboxes, from));
}

} // verus!
