//! The engine of the client: the phases of the connection, the frames it
//! queues for sending, and what it does with what the server sends.
//!
//! The engine decides and records; it neither reads nor writes a socket.
//! Whoever runs it hands it the events and the frames that arrive, takes
//! the queued frames in their order and sends them.

use vstd::prelude::*;
use vstd::string::StringExecFns;
use crate::error::{Error, ErrorView};
use crate::message_type::{wire_code, Type};
use crate::messages::{record_layout, write_record, Record, RecordView};
use crate::registry::{
    announced, after_reset, declared, has_id, id_of, name_of_id, superseded, type_clash, type_of_id,
    unannounced, Announced, Registry,
};
use crate::seqs::{clone_strings, lemma_filter_all, lemma_filter_push, lemma_filter_remove};
use crate::subscription::{
    covering, ended, has_number, outlives, patterns_view, Subscription, SubscriptionHandle,
    SubscriptionOptions, SubscriptionView, Subscriptions,
};
use crate::topic::{properties_view, Property, PropertyView, Topic, TopicView};
use crate::value::{fits, value_fits, Value, ValueView};

verus! {

/// The phases of a connection.
#[derive(Debug, Clone, Copy, PartialEq, Eq, Structural, Hash)]
pub enum ConnectionState {
    Disconnected,
    Connecting,
    Connected,
    Closing,
}

/// What can happen to a connection.
#[derive(Debug, Clone, Copy, PartialEq, Eq, Structural, Hash)]
pub enum Event {
    /// The caller asks to connect.
    Connect,
    /// The handshake with the server succeeded.
    HandshakeOk,
    /// The handshake did not succeed within the deadline.
    Timeout,
    /// The server closed the connection.
    PeerClosed,
    /// The transport failed.
    TransportError,
    /// Nothing more of the queue will be sent.
    DrainComplete,
    /// The caller asks to close.
    Close,
}

/// What the one who runs the engine is to do after an event.
#[derive(Debug, Clone, Copy, PartialEq, Eq, Structural, Hash)]
pub enum Action {
    /// Nothing: the event does not count in this phase.
    Nothing,
    /// Open the transport and start the deadline.
    OpenTransport,
    /// Start reading and writing, and send what is queued.
    StartLoops,
    /// Fail the connect that is under way.
    FailConnect,
    /// Accept nothing more, send what is queued as far as possible, and
    /// fail what waits for a reply.
    Drain,
    /// Stop: the connection is over.
    Finish,
}

/// The phase after `event` in phase `state`, and what is to be done. An
/// event that does not count in a phase changes nothing.
pub open spec fn transition(state: ConnectionState, event: Event) -> (ConnectionState, Action) {
    match (state, event) {
        (ConnectionState::Disconnected, Event::Connect) => (
            ConnectionState::Connecting,
            Action::OpenTransport,
        ),
        (ConnectionState::Connecting, Event::HandshakeOk) => (
            ConnectionState::Connected,
            Action::StartLoops,
        ),
        (ConnectionState::Connecting, Event::Timeout) => (
            ConnectionState::Disconnected,
            Action::FailConnect,
        ),
        (ConnectionState::Connecting, Event::Close) => (
            ConnectionState::Disconnected,
            Action::FailConnect,
        ),
        (ConnectionState::Connected, Event::PeerClosed) => (ConnectionState::Closing, Action::Drain),
        (ConnectionState::Connected, Event::TransportError) => (
            ConnectionState::Closing,
            Action::Drain,
        ),
        (ConnectionState::Connected, Event::Close) => (ConnectionState::Closing, Action::Drain),
        (ConnectionState::Closing, Event::DrainComplete) => (
            ConnectionState::Disconnected,
            Action::Finish,
        ),
        _ => (state, Action::Nothing),
    }
}

/// The phase after `event` in phase `state`, and what is to be done.
pub fn step(state: ConnectionState, event: Event) -> (r: (ConnectionState, Action))
    ensures
        r == transition(state, event),
{
    match state {
        ConnectionState::Disconnected => match event {
            Event::Connect => (ConnectionState::Connecting, Action::OpenTransport),
            _ => (state, Action::Nothing),
        },
        ConnectionState::Connecting => match event {
            Event::HandshakeOk => (ConnectionState::Connected, Action::StartLoops),
            Event::Timeout => (ConnectionState::Disconnected, Action::FailConnect),
            Event::Close => (ConnectionState::Disconnected, Action::FailConnect),
            _ => (state, Action::Nothing),
        },
        ConnectionState::Connected => match event {
            Event::PeerClosed => (ConnectionState::Closing, Action::Drain),
            Event::TransportError => (ConnectionState::Closing, Action::Drain),
            Event::Close => (ConnectionState::Closing, Action::Drain),
            _ => (state, Action::Nothing),
        },
        ConnectionState::Closing => match event {
            Event::DrainComplete => (ConnectionState::Disconnected, Action::Finish),
            _ => (state, Action::Nothing),
        },
    }
}

/// The phases follow one another in one circle: a phase changes only to
/// the next one, but for a connect that fails, which leads back; and what
/// is to be done is nothing exactly where the phase stays.
pub proof fn lemma_phases_in_order(state: ConnectionState, event: Event)
    ensures
        ({
            let next = transition(state, event).0;
            next == state || match state {
                ConnectionState::Disconnected => next == ConnectionState::Connecting,
                ConnectionState::Connecting => next == ConnectionState::Connected || next
                    == ConnectionState::Disconnected,
                ConnectionState::Connected => next == ConnectionState::Closing,
                ConnectionState::Closing => next == ConnectionState::Disconnected,
            }
        }),
        transition(state, event).1 == Action::Nothing <==> transition(state, event).0 == state,
{
}

/// A frame queued for sending.
#[derive(Debug, Clone, PartialEq, Eq)]
pub enum Outbound {
    /// The control message that declares a topic.
    Publish { name: String, ty: Type },
    /// The control message that takes up a subscription.
    Subscribe { id: u64, patterns: Vec<String>, options: SubscriptionOptions },
    /// The control message that ends a subscription.
    Unsubscribe { id: u64 },
    /// The control message that changes properties of a topic.
    SetProperties { name: String, properties: Vec<Property> },
    /// A binary frame of one record for the topic numbered `topic_id`.
    Data { topic_id: u64, bytes: Vec<u8> },
}

/// What an [`Outbound`] holds.
pub enum OutboundView {
    Publish { name: Seq<char>, ty: Type },
    Subscribe { id: u64, patterns: Seq<Seq<char>>, options: SubscriptionOptions },
    Unsubscribe { id: u64 },
    SetProperties { name: Seq<char>, properties: Seq<PropertyView> },
    Data { topic_id: u64, bytes: Seq<u8> },
}

impl View for Outbound {
    type V = OutboundView;

    open spec fn view(&self) -> OutboundView {
        match self {
            Outbound::Publish { name, ty } => OutboundView::Publish { name: name@, ty: *ty },
            Outbound::Subscribe { id, patterns, options } => OutboundView::Subscribe {
                id: *id,
                patterns: patterns_view(patterns@),
                options: *options,
            },
            Outbound::Unsubscribe { id } => OutboundView::Unsubscribe { id: *id },
            Outbound::SetProperties { name, properties } => OutboundView::SetProperties {
                name: name@,
                properties: properties_view(properties@),
            },
            Outbound::Data { topic_id, bytes } => OutboundView::Data {
                topic_id: *topic_id,
                bytes: bytes@,
            },
        }
    }
}

/// A value that waits for the server to number its topic.
#[derive(Debug, Clone, PartialEq, Eq)]
pub struct Pending {
    pub name: String,
    pub value: Value,
    pub timestamp: u64,
}

/// What a [`Pending`] holds.
pub struct PendingView {
    pub name: Seq<char>,
    pub value: ValueView,
    pub timestamp: u64,
}

impl View for Pending {
    type V = PendingView;

    open spec fn view(&self) -> PendingView {
        PendingView { name: self.name@, value: self.value@, timestamp: self.timestamp }
    }
}

/// The engine of one client.
pub struct Client {
    state: ConnectionState,
    registry: Registry,
    subscriptions: Subscriptions,
    outbound: Vec<Outbound>,
    pending: Vec<Pending>,
    capacity: usize,
}

/// What stands in the way of a subscription: a connection that is not up,
/// no pattern, or a full queue.
pub open spec fn subscribe_refusal(
    state: ConnectionState,
    patterns: Seq<Seq<char>>,
    queued: nat,
    capacity: nat,
) -> Option<ErrorView> {
    if state != ConnectionState::Connected {
        Some(ErrorView::Closed)
    } else if patterns.len() == 0 {
        Some(ErrorView::InvalidMessageType("a subscription needs a pattern"@))
    } else if queued >= capacity {
        Some(ErrorView::Io("outbound queue is full"@))
    } else {
        None
    }
}

/// Whether a subscription with the number `id` is in force among `subs`.
pub open spec fn in_force(subs: Seq<SubscriptionView>, id: u64) -> bool {
    exists|i: int| 0 <= i < subs.len() && (#[trigger] subs[i]).id == id && !subs[i].released
}

/// What stands in the way of ending the subscription numbered `id`: a
/// connection that is not up, no such subscription in force, or a full
/// queue.
pub open spec fn unsubscribe_refusal(
    state: ConnectionState,
    subs: Seq<SubscriptionView>,
    id: u64,
    queued: nat,
    capacity: nat,
) -> Option<ErrorView> {
    if state != ConnectionState::Connected {
        Some(ErrorView::Closed)
    } else if !in_force(subs, id) {
        Some(ErrorView::InvalidMessageType("no such subscription"@))
    } else if queued >= capacity {
        Some(ErrorView::Io("outbound queue is full"@))
    } else {
        None
    }
}

/// To whom a record goes: the subscriptions in force that cover the name
/// of its topic. A record for a number that no topic has, or of a type
/// with another code than its topic's, goes to nobody and is reported.
pub open spec fn routing(
    topics: Map<Seq<char>, TopicView>,
    subs: Seq<SubscriptionView>,
    topic_id: u64,
    ty: Type,
) -> Result<Seq<u64>, ErrorView> {
    match type_of_id(topics, topic_id) {
        None => Err(ErrorView::InvalidMessageType("record for an unknown topic"@)),
        Some(t) => if wire_code(t) != wire_code(ty) {
            Err(ErrorView::InvalidMessageType("record of another type than its topic"@))
        } else {
            Ok(covering(subs, name_of_id(topics, topic_id)))
        },
    }
}

/// Whether the client has declared the topic `name`.
pub open spec fn was_declared(topics: Map<Seq<char>, TopicView>, name: Seq<char>) -> bool {
    topics.dom().contains(name) && topics[name].declared
}

/// How many places a publish of `name` takes: one for the value, and one
/// more for the declaration where the client has not declared the topic.
pub open spec fn places_needed(topics: Map<Seq<char>, TopicView>, name: Seq<char>) -> nat {
    if was_declared(topics, name) {
        1
    } else {
        2
    }
}

/// What stands in the way of a publish: a connection that is not up, an
/// empty name, a value that does not fit the type, a topic recorded under
/// another type, or a queue without room.
pub open spec fn publish_refusal(
    state: ConnectionState,
    topics: Map<Seq<char>, TopicView>,
    name: Seq<char>,
    ty: Type,
    value: ValueView,
    queued: nat,
    capacity: nat,
) -> Option<ErrorView> {
    if state != ConnectionState::Connected {
        Some(ErrorView::Closed)
    } else if name.len() == 0 {
        Some(ErrorView::InvalidMessageString(name))
    } else if !fits(ty, value) {
        Some(ErrorView::InvalidMessageType("value does not fit the type"@))
    } else if type_clash(topics, name, ty) {
        Some(ErrorView::InvalidMessageType("topic is declared with another type"@))
    } else if queued + places_needed(topics, name) > capacity {
        Some(ErrorView::Io("outbound queue is full"@))
    } else {
        None
    }
}

/// The binary frame that carries `value` for the topic numbered `id`.
pub open spec fn data_frame(id: u64, timestamp: u64, ty: Type, value: ValueView) -> OutboundView {
    OutboundView::Data {
        topic_id: id,
        bytes: record_layout(RecordView { topic_id: id, timestamp, ty, value }),
    }
}

/// The frames that a publish queues: the declaration, where the client has
/// not declared the topic, and then the value, where the topic has a
/// number.
pub open spec fn publish_frames(
    topics: Map<Seq<char>, TopicView>,
    name: Seq<char>,
    ty: Type,
    value: ValueView,
    timestamp: u64,
) -> Seq<OutboundView> {
    let declaration = if was_declared(topics, name) {
        Seq::<OutboundView>::empty()
    } else {
        seq![OutboundView::Publish { name, ty }]
    };
    match id_of(topics, name) {
        Some(id) => declaration.push(data_frame(id, timestamp, ty, value)),
        None => declaration,
    }
}

/// The values that wait after a publish: one more where the topic has no
/// number yet.
pub open spec fn publish_waiting(
    waiting: Seq<PendingView>,
    topics: Map<Seq<char>, TopicView>,
    name: Seq<char>,
    value: ValueView,
    timestamp: u64,
) -> Seq<PendingView> {
    match id_of(topics, name) {
        Some(_) => waiting,
        None => waiting.push(PendingView { name, value, timestamp }),
    }
}

/// Whether the frame `f` carries a value for the number `id`.
pub open spec fn addressed_to(f: OutboundView, id: Option<u64>) -> bool {
    match f {
        OutboundView::Data { topic_id, bytes } => id == Some(topic_id),
        _ => false,
    }
}

/// The frames for the values among `waiting` that wait for the topic `name`
/// and fit the type `ty`, in their order, once the topic has the number
/// `id`.
pub open spec fn flushed(waiting: Seq<PendingView>, name: Seq<char>, id: u64, ty: Type) -> Seq<
    OutboundView,
> {
    waiting.filter(|p: PendingView| p.name == name && fits(ty, p.value)).map_values(
        |p: PendingView| data_frame(id, p.timestamp, ty, p.value),
    )
}

/// The control message that declares the topic `name` with type `ty`.
pub open spec fn declaration_frame(name: Seq<char>, ty: Type) -> OutboundView {
    OutboundView::Publish { name, ty }
}

/// The control message that takes up the subscription `s`.
pub open spec fn subscription_frame(s: SubscriptionView) -> OutboundView {
    OutboundView::Subscribe { id: s.id, patterns: s.patterns, options: s.options }
}

/// The frames that are queued when a connection comes up: the declaration
/// of each declared topic, then each subscription in force.
pub open spec fn resent(listing: Seq<TopicView>, subs: Seq<SubscriptionView>) -> Seq<
    OutboundView,
> {
    listing.filter(|t: TopicView| t.declared).map_values(
        |t: TopicView| declaration_frame(t.name, t.ty),
    ) + subs.filter(|s: SubscriptionView| !s.released).map_values(
        |s: SubscriptionView| subscription_frame(s),
    )
}

/// What stands in the way of changing properties of the topic `name`: a
/// connection that is not up, a topic that is not recorded, or a full
/// queue.
pub open spec fn set_properties_refusal(
    state: ConnectionState,
    topics: Map<Seq<char>, TopicView>,
    name: Seq<char>,
    queued: nat,
    capacity: nat,
) -> Option<ErrorView> {
    if state != ConnectionState::Connected {
        Some(ErrorView::Closed)
    } else if !topics.dom().contains(name) {
        Some(ErrorView::InvalidMessageType("no such topic"@))
    } else if queued >= capacity {
        Some(ErrorView::Io("outbound queue is full"@))
    } else {
        None
    }
}

impl Client {
    /// The phase of the connection.
    pub closed spec fn phase(&self) -> ConnectionState {
        self.state
    }

    /// The topics recorded, by name.
    pub closed spec fn topics(&self) -> Map<Seq<char>, TopicView> {
        self.registry.topics()
    }

    /// The subscriptions held, in the order in which they were taken up.
    pub closed spec fn subscriptions(&self) -> Seq<SubscriptionView> {
        self.subscriptions@
    }

    /// The frames queued for sending, first in first.
    pub closed spec fn outbound(&self) -> Seq<OutboundView> {
        self.outbound@.map_values(|f: Outbound| f@)
    }

    /// The values that wait for their topic's number, first in first.
    pub closed spec fn pending(&self) -> Seq<PendingView> {
        self.pending@.map_values(|p: Pending| p@)
    }

    /// How many frames and waiting values the engine holds at most.
    pub closed spec fn capacity(&self) -> nat {
        self.capacity as nat
    }

    /// How many frames and waiting values the engine holds.
    pub open spec fn queued(&self) -> nat {
        self.outbound().len() + self.pending().len()
    }

    /// Whether the engine is consistent.
    pub closed spec fn wf(&self) -> bool {
        self.registry.wf() && self.subscriptions.wf()
    }

    /// Whether all but the queue of frames is the same in `self` and
    /// `other`.
    pub open spec fn same_but_outbound(&self, other: &Client) -> bool {
        &&& self.phase() == other.phase()
        &&& self.topics() == other.topics()
        &&& self.subscriptions() == other.subscriptions()
        &&& self.pending() == other.pending()
        &&& self.capacity() == other.capacity()
    }

    /// Whether `self` and `other` are the same in all that is told of
    /// them.
    pub open spec fn same(&self, other: &Client) -> bool {
        self.same_but_outbound(other) && self.outbound() == other.outbound()
    }

    /// An engine for a connection that is not up, with nothing recorded and
    /// nothing queued, that holds at most `capacity` frames and waiting
    /// values.
    pub fn new(capacity: usize) -> (c: Client)
        ensures
            c.wf(),
            c.phase() == ConnectionState::Disconnected,
            c.topics() == Map::<Seq<char>, TopicView>::empty(),
            c.subscriptions() == Seq::<SubscriptionView>::empty(),
            c.outbound() == Seq::<OutboundView>::empty(),
            c.pending() == Seq::<PendingView>::empty(),
            c.capacity() == capacity,
    {
        let c = Client {
            state: ConnectionState::Disconnected,
            registry: Registry::new(),
            subscriptions: Subscriptions::new(),
            outbound: Vec::new(),
            pending: Vec::new(),
            capacity,
        };
        proof {
            assert(c.outbound() =~= Seq::<OutboundView>::empty());
            assert(c.pending() =~= Seq::<PendingView>::empty());
        }
        c
    }

    /// The phase of the connection.
    pub fn state(&self) -> (s: ConnectionState)
        ensures
            s == self.phase(),
    {
        self.state
    }

    /// The registry of topics.
    pub fn registry(&self) -> (r: &Registry)
        requires
            self.wf(),
        ensures
            r.wf(),
            r.topics() == self.topics(),
    {
        &self.registry
    }

    /// How many frames are queued for sending.
    pub fn outbound_len(&self) -> (n: usize)
        ensures
            n == self.outbound().len(),
    {
        self.outbound.len()
    }

    /// How many values wait for their topic's number.
    pub fn pending_len(&self) -> (n: usize)
        ensures
            n == self.pending().len(),
    {
        self.pending.len()
    }

    /// Whether one more frame or waiting value can be held.
    fn has_room(&self) -> (r: bool)
        ensures
            r == (self.queued() < self.capacity()),
    {
        let held = self.outbound.len();
        let waiting = self.pending.len();
        held < self.capacity && waiting < self.capacity - held
    }

    /// Queues `frame` behind the frames already queued.
    fn enqueue(&mut self, frame: Outbound)
        requires
            old(self).wf(),
        ensures
            final(self).wf(),
            final(self).same_but_outbound(old(self)),
            final(self).outbound() == old(self).outbound().push(frame@),
    {
        self.outbound.push(frame);
        proof {
            assert(self.outbound() =~= old(self).outbound().push(frame@));
        }
    }

    /// Takes the frame that was queued first, for sending. Frames leave in
    /// the order in which they were queued.
    pub fn next_outbound(&mut self) -> (r: Option<Outbound>)
        requires
            old(self).wf(),
        ensures
            final(self).wf(),
            final(self).same_but_outbound(old(self)),
            r.is_some() == (old(self).outbound().len() > 0),
            r matches Some(frame) ==> frame@ == old(self).outbound().first()
                && final(self).outbound() == old(self).outbound().drop_first(),
            r.is_none() ==> final(self).outbound() == old(self).outbound(),
    {
        if self.outbound.len() == 0 {
            return None;
        }
        let frame = self.outbound.remove(0);
        proof {
            assert(self.outbound() =~= old(self).outbound().drop_first());
        }
        Some(frame)
    }

    /// Takes up a subscription to `patterns` and queues the control message
    /// that tells the server. The subscription gets the least number that no
    /// held subscription has.
    ///
    /// Refused, with nothing changed, while the connection is not up, without
    /// a pattern, or with a full queue.
    pub fn subscribe(&mut self, patterns: Vec<String>, options: SubscriptionOptions) -> (r: Result<
        SubscriptionHandle,
        Error,
    >)
        requires
            old(self).wf(),
        ensures
            final(self).wf(),
            final(self).phase() == old(self).phase(),
            final(self).topics() == old(self).topics(),
            final(self).pending() == old(self).pending(),
            final(self).capacity() == old(self).capacity(),
            match subscribe_refusal(
                old(self).phase(),
                patterns_view(patterns@),
                old(self).queued(),
                old(self).capacity(),
            ) {
                Some(e) => r matches Err(x) && x@ == e && final(self).same(old(self)),
                None => r matches Ok(h) && !has_number(old(self).subscriptions(), h.id) && (forall|
                    k: u64,
                |
                    k < h.id ==> has_number(old(self).subscriptions(), k))
                        && final(self).subscriptions() == old(self).subscriptions().push(
                    SubscriptionView {
                        id: h.id,
                        patterns: patterns_view(patterns@),
                        options,
                        persist: false,
                        released: false,
                    },
                ) && final(self).outbound() == old(self).outbound().push(
                    OutboundView::Subscribe {
                        id: h.id,
                        patterns: patterns_view(patterns@),
                        options,
                    },
                ),
            },
    {
        match self.state {
            ConnectionState::Connected => {},
            _ => {
                return Err(Error::Closed);
            },
        }
        if patterns.len() == 0 {
            return Err(Error::InvalidMessageType("a subscription needs a pattern"));
        }
        if !self.has_room() {
            return Err(Error::Io(String::from_str("outbound queue is full")));
        }
        let copy = clone_strings(&patterns);
        match self.subscriptions.subscribe(patterns, options) {
            Ok(h) => {
                self.enqueue(Outbound::Subscribe { id: h.id, patterns: copy, options });
                Ok(h)
            },
            Err(e) => Err(e),
        }
    }

    /// Ends the subscription of `handle` and queues the control message that
    /// tells the server. The subscription stays held, and its number taken,
    /// until `release`.
    ///
    /// Refused, with nothing changed, while the connection is not up, where
    /// no such subscription is in force, or with a full queue.
    pub fn unsubscribe(&mut self, handle: SubscriptionHandle) -> (r: Result<(), Error>)
        requires
            old(self).wf(),
        ensures
            final(self).wf(),
            final(self).phase() == old(self).phase(),
            final(self).topics() == old(self).topics(),
            final(self).pending() == old(self).pending(),
            final(self).capacity() == old(self).capacity(),
            match unsubscribe_refusal(
                old(self).phase(),
                old(self).subscriptions(),
                handle.id,
                old(self).queued(),
                old(self).capacity(),
            ) {
                Some(e) => r matches Err(x) && x@ == e && final(self).same(old(self)),
                None => r is Ok
                    && final(self).subscriptions() == old(self).subscriptions().map_values(|s: SubscriptionView| ended(s, handle.id))
                    && final(self).outbound() == old(self).outbound().push(
                    OutboundView::Unsubscribe { id: handle.id },
                ),
            },
    {
        match self.state {
            ConnectionState::Connected => {},
            _ => {
                return Err(Error::Closed);
            },
        }
        let active = match self.subscriptions.get(handle.id) {
            Some(s) => !s.released,
            None => false,
        };
        proof {
            let subs = self.subscriptions();
            if active {
                assert(in_force(subs, handle.id));
            } else {
                assert(!in_force(subs, handle.id));
            }
        }
        if !active {
            return Err(Error::InvalidMessageType("no such subscription"));
        }
        if !self.has_room() {
            return Err(Error::Io(String::from_str("outbound queue is full")));
        }
        self.subscriptions.unsubscribe(handle);
        self.enqueue(Outbound::Unsubscribe { id: handle.id });
        Ok(())
    }

    /// Lets go of the ended subscription numbered `id`, as when the server
    /// has confirmed its end or the time to wait for that has passed. Says
    /// whether one was let go.
    pub fn release(&mut self, id: u64) -> (let_go: bool)
        requires
            old(self).wf(),
        ensures
            final(self).wf(),
            final(self).phase() == old(self).phase(),
            final(self).topics() == old(self).topics(),
            final(self).pending() == old(self).pending(),
            final(self).outbound() == old(self).outbound(),
            final(self).capacity() == old(self).capacity(),
            let_go == (exists|i: int|
                0 <= i < old(self).subscriptions().len()
                    && (#[trigger] old(self).subscriptions()[i]).id == id
                    && old(self).subscriptions()[i].released),
            final(self).subscriptions() == old(self).subscriptions().filter(
                |s: SubscriptionView| !(s.id == id && s.released),
            ),
    {
        self.subscriptions.release(id)
    }

    /// Records that the server withdrew the number `id`, and returns the
    /// topic that had it.
    pub fn on_unannounce(&mut self, id: u64) -> (r: Option<Topic>)
        requires
            old(self).wf(),
        ensures
            final(self).wf(),
            final(self).phase() == old(self).phase(),
            final(self).subscriptions() == old(self).subscriptions(),
            final(self).pending() == old(self).pending(),
            final(self).outbound() == old(self).outbound(),
            final(self).capacity() == old(self).capacity(),
            final(self).topics() == unannounced(old(self).topics(), id),
            r.is_some() == has_id(old(self).topics(), id),
            r matches Some(t) ==> t@ == old(self).topics()[name_of_id(old(self).topics(), id)],
    {
        self.registry.on_unannounce(id)
    }

    /// Finds the subscriptions that a record goes to: those in force that
    /// cover the name of the record's topic, in the order in which they were
    /// taken up. A record for a number that no topic has, or of a type with
    /// another code than its topic's, is reported and goes to nobody.
    pub fn on_record(&self, record: &Record) -> (r: Result<Vec<u64>, Error>)
        requires
            self.wf(),
        ensures
            match routing(self.topics(), self.subscriptions(), record.topic_id, record.ty) {
                Ok(ids) => r matches Ok(v) && v@ == ids,
                Err(e) => r matches Err(x) && x@ == e,
            },
    {
        match self.registry.resolve_type(record.topic_id) {
            None => Err(Error::InvalidMessageType("record for an unknown topic")),
            Some(t) => {
                if t.to_wire_code() != record.ty.to_wire_code() {
                    return Err(Error::InvalidMessageType("record of another type than its topic"));
                }
                match self.registry.resolve_name(record.topic_id) {
                    Some(name) => Ok(self.subscriptions.matching(name)),
                    None => Err(Error::InvalidMessageType("record for an unknown topic")),
                }
            },
        }
    }

    /// The topics recorded, in the order in which the registry holds them.
    pub closed spec fn listing(&self) -> Seq<TopicView> {
        self.registry.listing()
    }

    /// Publishes `value` to the topic `name` as a value of type `ty`.
    ///
    /// The topic is recorded as declared by this client. Where the client had
    /// not declared it, the control message that declares it is queued. Where
    /// the topic has a number, the binary frame with the value is queued
    /// behind; where it has none, the value waits for the announcement.
    ///
    /// Refused, with nothing changed: while the connection is not up; for an
    /// empty name; for a value that does not fit the type; for a topic
    /// recorded under another type; where the queue has no room.
    pub fn publish(&mut self, name: &str, ty: Type, value: Value, timestamp: u64) -> (r: Result<
        (),
        Error,
    >)
        requires
            old(self).wf(),
        ensures
            final(self).wf(),
            final(self).phase() == old(self).phase(),
            final(self).subscriptions() == old(self).subscriptions(),
            final(self).capacity() == old(self).capacity(),
            match publish_refusal(
                old(self).phase(),
                old(self).topics(),
                name@,
                ty,
                value@,
                old(self).queued(),
                old(self).capacity(),
            ) {
                Some(e) => r matches Err(x) && x@ == e && final(self).same(old(self)),
                None => r is Ok && final(self).topics() == declared(old(self).topics(), name@, ty)
                    && final(self).outbound() == old(self).outbound() + publish_frames(
                    old(self).topics(),
                    name@,
                    ty,
                    value@,
                    timestamp,
                ) && final(self).pending() == publish_waiting(
                    old(self).pending(),
                    old(self).topics(),
                    name@,
                    value@,
                    timestamp,
                ),
            },
    {
        match self.state {
            ConnectionState::Connected => {},
            _ => {
                return Err(Error::Closed);
            },
        }
        if name.unicode_len() == 0 {
            return Err(Error::InvalidMessageString(String::from_str(name)));
        }
        if !value_fits(ty, &value) {
            return Err(Error::InvalidMessageType("value does not fit the type"));
        }
        let (clash, known, id) = match self.registry.get(name) {
            Some(t) => (!crate::registry::type_eq(t.ty, ty), t.declared, t.id),
            None => (false, false, None),
        };
        if clash {
            return Err(Error::InvalidMessageType("topic is declared with another type"));
        }
        let needed: usize = if known {
            1
        } else {
            2
        };
        let held = self.outbound.len();
        let waiting = self.pending.len();
        if held > self.capacity || waiting > self.capacity - held || needed > self.capacity - held
            - waiting {
            return Err(Error::Io(String::from_str("outbound queue is full")));
        }
        match self.registry.register_local_topic(name, ty) {
            Ok(_) => {},
            Err(e) => {
                return Err(e);
            },
        }
        let ghost frames0 = old(self).outbound();
        if !known {
            self.enqueue(Outbound::Publish { name: String::from_str(name), ty });
        }
        match id {
            Some(id) => {
                let mut bytes: Vec<u8> = Vec::new();
                write_record(&mut bytes, id, timestamp, ty, &value);
                proof {
                    assert(bytes@ =~= record_layout(
                        RecordView { topic_id: id, timestamp, ty, value: value@ },
                    ));
                }
                self.enqueue(Outbound::Data { topic_id: id, bytes });
                proof {
                    assert(self.outbound() =~= frames0 + publish_frames(
                        old(self).topics(),
                        name@,
                        ty,
                        value@,
                        timestamp,
                    ));
                }
            },
            None => {
                let ghost before = self.pending();
                let p = Pending { name: String::from_str(name), value, timestamp };
                self.pending.push(p);
                proof {
                    assert(self.pending() =~= before.push(p@));
                    assert(self.outbound() =~= frames0 + publish_frames(
                        old(self).topics(),
                        name@,
                        ty,
                        value@,
                        timestamp,
                    ));
                }
            },
        }
        Ok(())
    }

    /// Takes out of the queue the binary frames for the number `stale`.
    fn drop_stale(&mut self, stale: u64)
        requires
            old(self).wf(),
        ensures
            final(self).wf(),
            final(self).same_but_outbound(old(self)),
            final(self).listing() == old(self).listing(),
            final(self).outbound() == old(self).outbound().filter(
                |f: OutboundView| !addressed_to(f, Some(stale)),
            ),
    {
        let ghost keep = |f: OutboundView| !addressed_to(f, Some(stale));
        let ghost before = self.outbound();
        let mut i: usize = 0;
        while i < self.outbound.len()
            invariant
                i <= self.outbound@.len(),
                self.wf(),
                self.same_but_outbound(old(self)),
                self.listing() == old(self).listing(),
                keep == |f: OutboundView| !addressed_to(f, Some(stale)),
                self.outbound().filter(keep) == before.filter(keep),
                forall|k: int| 0 <= k < i ==> keep(#[trigger] self.outbound()[k]),
            decreases self.outbound@.len() - i,
        {
            let ghost now = self.outbound();
            let is_stale = match &self.outbound[i] {
                Outbound::Data { topic_id, bytes } => *topic_id == stale,
                _ => false,
            };
            proof {
                assert(now[i as int] == self.outbound@[i as int]@);
            }
            if is_stale {
                self.outbound.remove(i);
                proof {
                    assert(self.outbound() =~= now.remove(i as int));
                    lemma_filter_remove(now, i as int, keep);
                }
            } else {
                i += 1;
            }
        }
        proof {
            lemma_filter_all(self.outbound(), keep);
        }
    }

    /// Queues the values that wait for the topic `name`, now numbered `id`,
    /// as far as they fit the type `ty`; the others that wait for it are
    /// dropped.
    fn flush(&mut self, name: &str, id: u64, ty: Type)
        requires
            old(self).wf(),
        ensures
            final(self).wf(),
            final(self).phase() == old(self).phase(),
            final(self).topics() == old(self).topics(),
            final(self).listing() == old(self).listing(),
            final(self).subscriptions() == old(self).subscriptions(),
            final(self).capacity() == old(self).capacity(),
            final(self).pending() == old(self).pending().filter(|p: PendingView| p.name != name@),
            final(self).outbound() == old(self).outbound() + flushed(
                old(self).pending(),
                name@,
                id,
                ty,
            ),
    {
        let ghost keep = |p: PendingView| p.name != name@;
        let ghost hit = |p: PendingView| p.name == name@ && fits(ty, p.value);
        let ghost frame = |p: PendingView| data_frame(id, p.timestamp, ty, p.value);
        let ghost orig = self.pending();
        let ghost base = self.outbound();
        let ghost mut j: int = 0;
        let mut i: usize = 0;
        proof {
            reveal(Seq::filter);
            assert(orig.take(0) =~= Seq::<PendingView>::empty());
            assert(orig.take(0).filter(keep) + orig.skip(0) =~= orig);
            assert(base + orig.take(0).filter(hit).map_values(frame) =~= base);
        }
        while i < self.pending.len()
            invariant
                self.wf(),
                self.phase() == old(self).phase(),
                self.topics() == old(self).topics(),
                self.listing() == old(self).listing(),
                self.subscriptions() == old(self).subscriptions(),
                self.capacity() == old(self).capacity(),
                keep == |p: PendingView| p.name != name@,
                hit == |p: PendingView| p.name == name@ && fits(ty, p.value),
                frame == |p: PendingView| data_frame(id, p.timestamp, ty, p.value),
                orig == old(self).pending(),
                base == old(self).outbound(),
                0 <= j <= orig.len(),
                i == orig.take(j).filter(keep).len(),
                self.pending() == orig.take(j).filter(keep) + orig.skip(j),
                self.outbound() == base + orig.take(j).filter(hit).map_values(frame),
            decreases orig.len() - j,
        {
            let ghost now = self.pending();
            let ghost done = orig.take(j);
            proof {
                assert(now.len() == i + orig.len() - j);
                assert(now[i as int] == orig[j]);
                assert(now[i as int] == self.pending@[i as int]@);
                assert(orig.take(j + 1) =~= done.push(orig[j]));
                lemma_filter_push(done, orig[j], keep);
                lemma_filter_push(done, orig[j], hit);
            }
            if crate::text::str_eq(self.pending[i].name.as_str(), name) {
                let p = self.pending.remove(i);
                proof {
                    assert(self.pending() =~= now.remove(i as int));
                    assert(now.remove(i as int) =~= done.filter(keep) + orig.skip(j + 1));
                }
                if value_fits(ty, &p.value) {
                    let mut bytes: Vec<u8> = Vec::new();
                    write_record(&mut bytes, id, p.timestamp, ty, &p.value);
                    let ghost frames = self.outbound();
                    proof {
                        assert(bytes@ =~= record_layout(
                            RecordView { topic_id: id, timestamp: p.timestamp, ty, value: p.value@ },
                        ));
                    }
                    let f = Outbound::Data { topic_id: id, bytes };
                    self.outbound.push(f);
                    proof {
                        assert(f@ == frame(orig[j]));
                        assert(self.outbound() =~= frames.push(f@));
                        assert(self.outbound() =~= base + orig.take(j + 1).filter(hit).map_values(
                            frame,
                        ));
                    }
                }
            } else {
                proof {
                    assert(now =~= orig.take(j + 1).filter(keep) + orig.skip(j + 1));
                }
                i += 1;
            }
            proof {
                j = j + 1;
            }
        }
        proof {
            assert(self.pending().len() == i + orig.len() - j);
            assert(orig.take(j) =~= orig);
            assert(orig.filter(keep) + orig.skip(j) =~= orig.filter(keep));
        }
    }

    /// Records that the server announced the topic `name` with number `id`,
    /// type `ty` and the given properties, as the registry does.
    ///
    /// Binary frames queued for a number that the topic had before are taken
    /// out of the queue. The values that waited for the topic are queued as
    /// binary frames for `id`, in their order, as far as they fit the type
    /// announced; the others that waited for it are dropped.
    ///
    /// An empty name is refused with the name, and nothing changes.
    pub fn on_announce(&mut self, name: &str, id: u64, ty: Type, properties: Vec<Property>) -> (r:
        Result<Announced, Error>)
        requires
            old(self).wf(),
        ensures
            final(self).wf(),
            final(self).phase() == old(self).phase(),
            final(self).subscriptions() == old(self).subscriptions(),
            final(self).capacity() == old(self).capacity(),
            r is Ok <==> name@.len() > 0,
            r matches Err(e) ==> e@ == ErrorView::InvalidMessageString(name@) && final(self).same(
                old(self),
            ),
            r matches Ok(a) ==> a.superseded_id == superseded(old(self).topics(), name@, id)
                && a.type_conflict == (type_clash(old(self).topics(), name@, ty) && old(self).topics()[name@].declared)
                    && final(self).topics() == announced(
                old(self).topics(),
                name@,
                id,
                ty,
                properties_view(properties@),
            ) && final(self).pending() == old(self).pending().filter(
                |p: PendingView| p.name != name@,
            ) && final(self).outbound() == old(self).outbound().filter(
                |f: OutboundView| !addressed_to(f, superseded(old(self).topics(), name@, id)),
            ) + flushed(old(self).pending(), name@, id, ty),
    {
        let a = match self.registry.on_announce(name, id, ty, properties) {
            Ok(a) => a,
            Err(e) => {
                return Err(e);
            },
        };
        match a.superseded_id {
            Some(stale) => {
                self.drop_stale(stale);
            },
            None => {
                proof {
                    let keep = |f: OutboundView| !addressed_to(f, None);
                    lemma_filter_all(self.outbound(), keep);
                }
            },
        }
        self.flush(name, id, ty);
        Ok(a)
    }

    /// Marks the subscription of `handle` to be sent again, or not, after a
    /// lost connection. Says whether such a subscription is held.
    pub fn mark_persistent(&mut self, handle: SubscriptionHandle, persist: bool) -> (held: bool)
        requires
            old(self).wf(),
        ensures
            final(self).wf(),
            final(self).phase() == old(self).phase(),
            final(self).topics() == old(self).topics(),
            final(self).pending() == old(self).pending(),
            final(self).outbound() == old(self).outbound(),
            final(self).capacity() == old(self).capacity(),
            held == has_number(old(self).subscriptions(), handle.id),
            final(self).subscriptions() == old(self).subscriptions().map_values(
                |s: SubscriptionView|
                    if s.id == handle.id {
                        SubscriptionView { persist, ..s }
                    } else {
                        s
                    },
            ),
    {
        self.subscriptions.mark_persistent(handle, persist)
    }

    /// Queues the declaration of each topic in `handles`, in their order.
    fn enqueue_declarations(&mut self, handles: &Vec<crate::topic::TopicHandle>)
        requires
            old(self).wf(),
        ensures
            final(self).wf(),
            final(self).same_but_outbound(old(self)),
            final(self).listing() == old(self).listing(),
            final(self).outbound() == old(self).outbound() + crate::registry::handles_view(
                handles@,
            ).map_values(|h: (Seq<char>, Type)| declaration_frame(h.0, h.1)),
    {
        let ghost frame = |h: (Seq<char>, Type)| declaration_frame(h.0, h.1);
        let ghost all = crate::registry::handles_view(handles@);
        let ghost base = self.outbound();
        let mut i: usize = 0;
        proof {
            assert(base + all.take(0).map_values(frame) =~= base);
        }
        while i < handles.len()
            invariant
                i <= handles@.len(),
                self.wf(),
                self.same_but_outbound(old(self)),
                self.listing() == old(self).listing(),
                frame == |h: (Seq<char>, Type)| declaration_frame(h.0, h.1),
                all == crate::registry::handles_view(handles@),
                base == old(self).outbound(),
                self.outbound() == base + all.take(i as int).map_values(frame),
            decreases handles@.len() - i,
        {
            let ghost frames = self.outbound();
            let f = Outbound::Publish { name: handles[i].name.clone(), ty: handles[i].ty };
            self.outbound.push(f);
            proof {
                assert(f@ == frame(all[i as int]));
                assert(self.outbound() =~= frames.push(f@));
                assert(all.take(i + 1) =~= all.take(i as int).push(all[i as int]));
                assert(self.outbound() =~= base + all.take(i + 1).map_values(frame));
            }
            i += 1;
        }
        proof {
            assert(all.take(i as int) =~= all);
        }
    }

    /// Queues the control message for each subscription in `subs`, in their
    /// order.
    fn enqueue_subscriptions(&mut self, subs: &Vec<Subscription>)
        requires
            old(self).wf(),
        ensures
            final(self).wf(),
            final(self).same_but_outbound(old(self)),
            final(self).listing() == old(self).listing(),
            final(self).outbound() == old(self).outbound() + crate::subscription::views(
                subs@,
            ).map_values(
                |s: SubscriptionView| subscription_frame(s),
            ),
    {
        let ghost frame = |s: SubscriptionView| subscription_frame(s);
        let ghost all = crate::subscription::views(subs@);
        let ghost base = self.outbound();
        let mut i: usize = 0;
        proof {
            assert(base + all.take(0).map_values(frame) =~= base);
        }
        while i < subs.len()
            invariant
                i <= subs@.len(),
                self.wf(),
                self.same_but_outbound(old(self)),
                self.listing() == old(self).listing(),
                frame == |s: SubscriptionView| subscription_frame(s),
                all == crate::subscription::views(subs@),
                base == old(self).outbound(),
                self.outbound() == base + all.take(i as int).map_values(frame),
            decreases subs@.len() - i,
        {
            let ghost frames = self.outbound();
            let f = Outbound::Subscribe {
                id: subs[i].id,
                patterns: clone_strings(&subs[i].patterns),
                options: subs[i].options,
            };
            self.outbound.push(f);
            proof {
                assert(f@ == frame(all[i as int]));
                assert(self.outbound() =~= frames.push(f@));
                assert(all.take(i + 1) =~= all.take(i as int).push(all[i as int]));
                assert(self.outbound() =~= base + all.take(i + 1).map_values(frame));
            }
            i += 1;
        }
        proof {
            assert(all.take(i as int) =~= all);
        }
    }

    /// Queues what a connection that comes up is to send first: the
    /// declaration of each declared topic, then each subscription in force.
    fn resend(&mut self)
        requires
            old(self).wf(),
        ensures
            final(self).wf(),
            final(self).same_but_outbound(old(self)),
            final(self).outbound() == old(self).outbound() + resent(
                old(self).listing(),
                old(self).subscriptions(),
            ),
    {
        let handles = self.registry.declared_topics();
        let subs = self.subscriptions.in_force();
        let ghost base = self.outbound();
        let ghost listing = self.listing();
        let ghost held = self.subscriptions();
        self.enqueue_declarations(&handles);
        self.enqueue_subscriptions(&subs);
        proof {
            let declarations = listing.filter(|t: TopicView| t.declared).map_values(
                |t: TopicView| declaration_frame(t.name, t.ty),
            );
            assert(crate::registry::handles_view(handles@).map_values(
                |h: (Seq<char>, Type)| declaration_frame(h.0, h.1),
            ) =~= declarations);
            assert(self.outbound() =~= base + resent(listing, held));
        }
    }

    /// Takes an event of the connection: the phase changes as `transition`
    /// says, and the action tells what is to be done outside.
    ///
    /// When the connection comes up, the declarations of the declared topics
    /// and the subscriptions in force are queued. When it starts to close,
    /// the values that wait for a number are given up. When it is over, the
    /// queue is emptied, the topics that the client did not declare are
    /// forgotten and the others lose their numbers, and only the
    /// subscriptions marked to persist stay. Otherwise nothing changes.
    pub fn handle(&mut self, event: Event) -> (action: Action)
        requires
            old(self).wf(),
        ensures
            final(self).wf(),
            final(self).capacity() == old(self).capacity(),
            (final(self).phase(), action) == transition(old(self).phase(), event),
            match action {
                Action::StartLoops => final(self).topics() == old(self).topics()
                    && final(self).subscriptions() == old(self).subscriptions()
                    && final(self).pending() == old(self).pending()
                    && final(self).outbound() == old(self).outbound() + resent(
                    old(self).listing(),
                    old(self).subscriptions(),
                ),
                Action::Drain => final(self).topics() == old(self).topics()
                    && final(self).subscriptions() == old(self).subscriptions()
                    && final(self).outbound() == old(self).outbound()
                    && final(self).pending() == Seq::<PendingView>::empty(),
                Action::Finish => final(self).topics() == after_reset(old(self).topics())
                    && final(self).subscriptions() == old(self).subscriptions().filter(
                    |s: SubscriptionView| outlives(s),
                )
                    && final(self).outbound() == Seq::<OutboundView>::empty()
                    && final(self).pending() == Seq::<PendingView>::empty(),
                _ => final(self).topics() == old(self).topics() && final(self).subscriptions()
                    == old(self).subscriptions()
                        && final(self).outbound() == old(self).outbound()
                        && final(self).pending() == old(self).pending(),
            },
    {
        let (next, action) = step(self.state, event);
        self.state = next;
        match action {
            Action::StartLoops => {
                self.resend();
            },
            Action::Drain => {
                self.pending.clear();
                proof {
                    assert(self.pending() =~= Seq::<PendingView>::empty());
                }
            },
            Action::Finish => {
                self.registry.reset();
                self.subscriptions.reset();
                self.outbound.clear();
                self.pending.clear();
                proof {
                    assert(self.pending() =~= Seq::<PendingView>::empty());
                    assert(self.outbound() =~= Seq::<OutboundView>::empty());
                }
            },
            _ => {},
        }
        action
    }

    /// Writes `properties` into the properties of the topic `name`, for each
    /// key the last write, and queues the control message that tells the
    /// server.
    ///
    /// Refused, with nothing changed, while the connection is not up, for a
    /// topic that is not recorded, or with a full queue.
    pub fn set_properties(&mut self, name: &str, properties: Vec<Property>) -> (r: Result<
        (),
        Error,
    >)
        requires
            old(self).wf(),
        ensures
            final(self).wf(),
            final(self).phase() == old(self).phase(),
            final(self).subscriptions() == old(self).subscriptions(),
            final(self).pending() == old(self).pending(),
            final(self).capacity() == old(self).capacity(),
            match set_properties_refusal(
                old(self).phase(),
                old(self).topics(),
                name@,
                old(self).queued(),
                old(self).capacity(),
            ) {
                Some(e) => r matches Err(x) && x@ == e && final(self).same(old(self)),
                None => r is Ok && final(self).topics() == crate::registry::with_properties(
                    old(self).topics(),
                    name@,
                    properties_view(properties@),
                ) && final(self).outbound() == old(self).outbound().push(
                    OutboundView::SetProperties {
                        name: name@,
                        properties: properties_view(properties@),
                    },
                ),
            },
    {
        match self.state {
            ConnectionState::Connected => {},
            _ => {
                return Err(Error::Closed);
            },
        }
        if self.registry.get(name).is_none() {
            return Err(Error::InvalidMessageType("no such topic"));
        }
        if !self.has_room() {
            return Err(Error::Io(String::from_str("outbound queue is full")));
        }
        self.registry.set_properties(name, &properties);
        self.enqueue(Outbound::SetProperties { name: String::from_str(name), properties });
        Ok(())
    }

    /// Records that the server reported `properties` of the topic `name`:
    /// they are written into the topic's properties, for each key the last
    /// write. Says whether the topic is recorded; where it is not, nothing
    /// changes.
    pub fn on_properties(&mut self, name: &str, properties: &Vec<Property>) -> (known: bool)
        requires
            old(self).wf(),
        ensures
            final(self).wf(),
            final(self).phase() == old(self).phase(),
            final(self).subscriptions() == old(self).subscriptions(),
            final(self).pending() == old(self).pending(),
            final(self).outbound() == old(self).outbound(),
            final(self).capacity() == old(self).capacity(),
            known == old(self).topics().dom().contains(name@),
            final(self).topics() == crate::registry::with_properties(
                old(self).topics(),
                name@,
                properties_view(properties@),
            ),
    {
        self.registry.set_properties(name, properties)
    }
}

/// A publish to a topic that the client has declared and the server has
/// numbered is accepted while the connection is up and the queue has room
/// for one more, and queues the one frame with the value: behind all that
/// was queued before, so that values leave in the order in which they were
/// published.
pub proof fn lemma_publish_accepted(
    topics: Map<Seq<char>, TopicView>,
    name: Seq<char>,
    ty: Type,
    value: ValueView,
    timestamp: u64,
    queued: nat,
    capacity: nat,
)
    requires
        name.len() > 0,
        fits(ty, value),
        was_declared(topics, name),
        topics[name].ty == ty,
        topics[name].id.is_some(),
        queued < capacity,
    ensures
        publish_refusal(ConnectionState::Connected, topics, name, ty, value, queued, capacity)
            is None,
        publish_frames(topics, name, ty, value, timestamp) == seq![
            data_frame(topics[name].id.unwrap(), timestamp, ty, value),
        ],
        publish_waiting(Seq::empty(), topics, name, value, timestamp) == Seq::<PendingView>::empty(),
        declared(topics, name, ty) == topics,
{
    assert(publish_frames(topics, name, ty, value, timestamp) =~= seq![
        data_frame(topics[name].id.unwrap(), timestamp, ty, value),
    ]);
    assert(declared(topics, name, ty) =~= topics);
}

/// Whatever the phase, only a connection that is up takes a publish, a
/// subscription, the end of one, or a change of properties.
pub proof fn lemma_only_connected_accepts(
    state: ConnectionState,
    topics: Map<Seq<char>, TopicView>,
    subs: Seq<SubscriptionView>,
    name: Seq<char>,
    ty: Type,
    value: ValueView,
    patterns: Seq<Seq<char>>,
    id: u64,
    queued: nat,
    capacity: nat,
)
    requires
        state != ConnectionState::Connected,
    ensures
        publish_refusal(state, topics, name, ty, value, queued, capacity) == Some(
            ErrorView::Closed,
        ),
        subscribe_refusal(state, patterns, queued, capacity) == Some(ErrorView::Closed),
        unsubscribe_refusal(state, subs, id, queued, capacity) == Some(ErrorView::Closed),
        set_properties_refusal(state, topics, name, queued, capacity) == Some(ErrorView::Closed),
{
}

} // verus!
