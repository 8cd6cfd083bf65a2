//! One TURN client: it asks its server to let the probing socket in, says when
//! it can be used, and from then on sends every datagram back to where it came
//! from.

use vstd::prelude::*;

verus! {

/// An internet socket address.
#[derive(Clone, Copy, Debug, PartialEq, Eq, Structural)]
pub enum Endpoint {
    V4 { ip4: u32, port: u16 },
    V6 { ip6: u128, port: u16, flowinfo: u32, scope_id: u32 },
}

/// What can happen to a client.
#[derive(Debug)]
pub enum Event {
    /// The server relays for the client under this address.
    AllocationGranted(Endpoint),
    /// A datagram came in from this address.
    RecvFrom(Endpoint, Vec<u8>),
    /// The server lets datagrams from this address in.
    PermissionCreated(Endpoint),
    /// The connection to the server failed in some way.
    Failed,
    /// The server sent anything else.
    Other,
    /// The test is over.
    Shutdown,
}

/// What a client tells its server.
#[derive(Debug)]
pub enum Request {
    /// Let datagrams from this address in, over a channel of their own.
    AddPermission(Endpoint),
    /// Send this datagram to this address.
    SendTo(Endpoint, Vec<u8>),
    /// Leave.
    Disconnect,
    Noop,
}

/// What a client has to tell its user.
#[derive(Clone, Copy, Debug, PartialEq, Eq, Structural)]
pub enum Notice {
    /// The server granted an allocation again.
    GrantedAgain,
    /// The server lets an address in that was not asked for.
    WrongPermission,
    /// The failure that happened.
    Failure,
}

impl Notice {
    /// The notice in words, or `None` where the failure speaks for itself.
    pub fn message(&self) -> (text: Option<&'static str>)
        ensures
            match *self {
                Notice::GrantedAgain => text is Some && text->0@
                    == "AllocationGranted happened one more time?"@,
                Notice::WrongPermission => text is Some && text->0@
                    == "Strangely, granted permission is not the same as we requested it"@,
                Notice::Failure => text is None,
            },
    {
        match self {
            Notice::GrantedAgain => Some("AllocationGranted happened one more time?"),
            Notice::WrongPermission => Some(
                "Strangely, granted permission is not the same as we requested it",
            ),
            Notice::Failure => None,
        }
    }
}

/// Why a client gives up.
#[derive(Clone, Copy, Debug, PartialEq, Eq, Structural)]
pub enum ClientError {
    /// A permission came although there was no allocation yet.
    PermissionBeforeAllocation,
}

impl ClientError {
    /// The error in words.
    pub fn message(&self) -> (text: &'static str)
        ensures
            text@ == "Strangely, a permission was granted even before the allocation"@,
    {
        "Strangely, a permission was granted even before the allocation"
    }
}

/// The words with which a client that was told to disconnect ends.
pub open spec fn shutdown_words() -> Seq<char> {
    "TURN client received a shutdown request"@
}

/// Whether the words with which a client ended are worth showing.
pub fn is_worth_showing(words: &String) -> (worth: bool)
    ensures
        worth == (words@ != shutdown_words()),
        worth == (words@ != "TURN client received a shutdown request"@),
{
    let expected: String = "TURN client received a shutdown request".to_owned();
    !(*words == expected)
}

/// The answer to an event.
#[derive(Debug)]
pub struct Reaction {
    /// What the server is told.
    pub request: Request,
    /// What the user is told, if anything.
    pub notice: Option<Notice>,
    /// The address under which the client can be reached, at the moment when it
    /// becomes usable.
    pub ready: Option<Endpoint>,
}

/// An event, seen from outside.
pub enum EventView {
    AllocationGranted(Endpoint),
    RecvFrom(Endpoint, Seq<u8>),
    PermissionCreated(Endpoint),
    Failed,
    Other,
    Shutdown,
}

/// A request, seen from outside.
pub enum RequestView {
    AddPermission(Endpoint),
    SendTo(Endpoint, Seq<u8>),
    Disconnect,
    Noop,
}

/// The answer to an event, seen from outside.
pub struct ReactionView {
    pub request: RequestView,
    pub notice: Option<Notice>,
    pub ready: Option<Endpoint>,
}

impl View for Event {
    type V = EventView;

    open spec fn view(&self) -> EventView {
        match *self {
            Event::AllocationGranted(relay) => EventView::AllocationGranted(relay),
            Event::RecvFrom(from, data) => EventView::RecvFrom(from, data@),
            Event::PermissionCreated(peer) => EventView::PermissionCreated(peer),
            Event::Failed => EventView::Failed,
            Event::Other => EventView::Other,
            Event::Shutdown => EventView::Shutdown,
        }
    }
}

impl View for Request {
    type V = RequestView;

    open spec fn view(&self) -> RequestView {
        match *self {
            Request::AddPermission(peer) => RequestView::AddPermission(peer),
            Request::SendTo(to, data) => RequestView::SendTo(to, data@),
            Request::Disconnect => RequestView::Disconnect,
            Request::Noop => RequestView::Noop,
        }
    }
}

impl View for Reaction {
    type V = ReactionView;

    open spec fn view(&self) -> ReactionView {
        ReactionView { request: self.request@, notice: self.notice, ready: self.ready }
    }
}

/// What a client knows.
pub struct ClientState {
    /// The address of the probing socket.
    pub probe: Endpoint,
    /// The address of the first allocation.
    pub relay: Option<Endpoint>,
    /// Whether the client was reported as usable.
    pub announced: bool,
}

impl ClientState {
    pub open spec fn fresh(probe: Endpoint) -> ClientState {
        ClientState { probe, relay: None, announced: false }
    }

    /// The event makes the client give up.
    pub open spec fn gives_up(self, event: EventView) -> bool {
        event is PermissionCreated && self.relay is None
    }

    /// The event makes the client usable.
    pub open spec fn becomes_ready(self, event: EventView) -> bool {
        &&& event == EventView::PermissionCreated(self.probe)
        &&& self.relay is Some
        &&& !self.announced
    }

    /// What the client knows after `event`.
    pub open spec fn after(self, event: EventView) -> ClientState {
        match event {
            EventView::AllocationGranted(relay) if self.relay is None => ClientState {
                relay: Some(relay),
                ..self
            },
            _ if self.becomes_ready(event) => ClientState { announced: true, ..self },
            _ => self,
        }
    }

    /// How the client answers `event`, unless it gives up.
    pub open spec fn reaction(self, event: EventView) -> ReactionView {
        ReactionView {
            request: match event {
                EventView::AllocationGranted(_) => RequestView::AddPermission(self.probe),
                EventView::RecvFrom(from, data) => RequestView::SendTo(from, data),
                EventView::Shutdown => RequestView::Disconnect,
                _ => RequestView::Noop,
            },
            notice: match event {
                EventView::AllocationGranted(_) if self.relay is Some => Some(
                    Notice::GrantedAgain,
                ),
                EventView::PermissionCreated(peer) if peer != self.probe => Some(
                    Notice::WrongPermission,
                ),
                EventView::Failed => Some(Notice::Failure),
                _ => None,
            },
            ready: if self.becomes_ready(event) {
                self.relay
            } else {
                None
            },
        }
    }

    /// What the client knows after all of `events`, from the first to the last.
    pub open spec fn after_all(self, events: Seq<EventView>) -> ClientState
        decreases events.len(),
    {
        if events.len() == 0 {
            self
        } else {
            self.after_all(events.drop_last()).after(events.last())
        }
    }

    /// How often the client is reported as usable in the course of `events`.
    pub open spec fn times_ready(self, events: Seq<EventView>) -> nat
        decreases events.len(),
    {
        if events.len() == 0 {
            0
        } else {
            self.times_ready(events.drop_last()) + if self.after_all(
                events.drop_last(),
            ).becomes_ready(events.last()) {
                1nat
            } else {
                0
            }
        }
    }
}

/// One TURN client.
pub struct Client {
    probe: Endpoint,
    relay: Option<Endpoint>,
    announced: bool,
}

impl View for Client {
    type V = ClientState;

    closed spec fn view(&self) -> ClientState {
        ClientState { probe: self.probe, relay: self.relay, announced: self.announced }
    }
}

impl Client {
    /// A client for the probing socket with the address `probe`.
    pub fn new(probe: Endpoint) -> (client: Client)
        ensures
            client@ == ClientState::fresh(probe),
    {
        Client { probe, relay: None, announced: false }
    }

    /// Answers an event.
    pub fn on_event(&mut self, event: Event) -> (result: Result<Reaction, ClientError>)
        ensures
            final(self)@ == old(self)@.after(event@),
            match result {
                Ok(reaction) => {
                    &&& !old(self)@.gives_up(event@)
                    &&& reaction@ == old(self)@.reaction(event@)
                },
                Err(e) => {
                    &&& old(self)@.gives_up(event@)
                    &&& e == ClientError::PermissionBeforeAllocation
                },
            },
    {
        let mut notice: Option<Notice> = None;
        let mut ready: Option<Endpoint> = None;
        let request = match event {
            Event::AllocationGranted(relay) => {
                if self.relay.is_some() {
                    notice = Some(Notice::GrantedAgain);
                } else {
                    self.relay = Some(relay);
                }
                Request::AddPermission(self.probe)
            },
            Event::RecvFrom(from, data) => Request::SendTo(from, data),
            Event::PermissionCreated(peer) => {
                if self.relay.is_none() {
                    return Err(ClientError::PermissionBeforeAllocation);
                }
                if peer != self.probe {
                    notice = Some(Notice::WrongPermission);
                } else if !self.announced {
                    self.announced = true;
                    ready = self.relay;
                }
                Request::Noop
            },
            Event::Shutdown => Request::Disconnect,
            Event::Failed => {
                notice = Some(Notice::Failure);
                Request::Noop
            },
            Event::Other => Request::Noop,
        };
        Ok(Reaction { request, notice, ready })
    }
}

/// In whatever state it is, a client sends a datagram back to where it came
/// from, as it came.
pub proof fn law_client_echoes(state: ClientState, from: Endpoint, data: Seq<u8>)
    ensures
        !state.gives_up(EventView::RecvFrom(from, data)),
        state.reaction(EventView::RecvFrom(from, data)).request == RequestView::SendTo(from, data),
        state.after(EventView::RecvFrom(from, data)) == state,
{
}

/// In whatever state it is, a client that is told to shut down leaves.
pub proof fn law_client_leaves(state: ClientState)
    ensures
        !state.gives_up(EventView::Shutdown),
        state.reaction(EventView::Shutdown).request == RequestView::Disconnect,
{
}

/// Every allocation is answered by asking for the probing socket to be let in.
pub proof fn law_client_asks_for_probe(
    probe: Endpoint,
    events: Seq<EventView>,
    relay: Endpoint,
)
    ensures
        ClientState::fresh(probe).after_all(events).reaction(
            EventView::AllocationGranted(relay),
        ).request == RequestView::AddPermission(probe),
{
    lemma_client_history(probe, events);
}

/// A client is reported as usable at most once.
pub proof fn law_client_ready_at_most_once(probe: Endpoint, events: Seq<EventView>)
    ensures
        ClientState::fresh(probe).times_ready(events) <= 1,
{
    lemma_client_history(probe, events);
}

/// When a client is reported as usable, its server has let the probing socket
/// in, and the address reported is that of the first allocation.
pub proof fn law_client_ready_means_allowed(
    probe: Endpoint,
    events: Seq<EventView>,
    event: EventView,
    relay: Endpoint,
)
    requires
        ClientState::fresh(probe).after_all(events).reaction(event).ready == Some(relay),
    ensures
        event == EventView::PermissionCreated(probe),
        exists|i: int|
            0 <= i < events.len() && #[trigger] events[i] == EventView::AllocationGranted(relay)
                && first_allocation(events, i),
{
    lemma_client_history(probe, events);
}

/// Event `i` is an allocation, and none comes before it.
pub open spec fn first_allocation(events: Seq<EventView>, i: int) -> bool {
    &&& 0 <= i < events.len()
    &&& events[i] is AllocationGranted
    &&& forall|j: int| 0 <= j < i ==> !(#[trigger] events[j] is AllocationGranted)
}

proof fn lemma_client_history(probe: Endpoint, events: Seq<EventView>)
    ensures
        ({
            let state = ClientState::fresh(probe).after_all(events);
            &&& state.probe == probe
            &&& state.announced <==> exists|k: int| #[trigger] usable_from(probe, events, k)
            &&& ClientState::fresh(probe).times_ready(events) == if state.announced {
                1nat
            } else {
                0
            }
            &&& match state.relay {
                None => forall|j: int|
                    0 <= j < events.len() ==> !(#[trigger] events[j] is AllocationGranted),
                Some(relay) => exists|i: int|
                    0 <= i < events.len() && #[trigger] events[i] == EventView::AllocationGranted(
                        relay,
                    ) && first_allocation(events, i),
            }
        }),
    decreases events.len(),
{
    if events.len() > 0 {
        let earlier = events.drop_last();
        lemma_client_history(probe, earlier);
        lemma_usable_from(probe, events);
        let before = ClientState::fresh(probe).after_all(earlier);
        match before.relay {
            None => {
                assert forall|j: int| 0 <= j < events.len() - 1 implies !(
                #[trigger] events[j] is AllocationGranted) by {
                    assert(earlier[j] == events[j]);
                }
                assert(events[events.len() - 1] == events.last());
                if events.last() is AllocationGranted {
                    assert(first_allocation(events, events.len() - 1));
                }
            },
            Some(relay) => {
                let i = choose|i: int|
                    0 <= i < earlier.len() && #[trigger] earlier[i]
                        == EventView::AllocationGranted(relay) && first_allocation(earlier, i);
                assert(events[i] == earlier[i]);
                assert forall|j: int| 0 <= j < i implies !(
                #[trigger] events[j] is AllocationGranted) by {
                    assert(earlier[j] == events[j]);
                }
                assert(first_allocation(events, i));
            },
        }
    }
}

/// In every state, a client asks to leave only when it is told to shut down, asks
/// for a permission only when it is granted an allocation, sends only what came
/// in, back to where it came from, and asks for nothing at anything else that
/// happens.
pub proof fn law_client_requests(
    state: ClientState,
    event: EventView,
    peer: Endpoint,
    data: Seq<u8>,
)
    ensures
        state.reaction(event).request is Disconnect <==> event is Shutdown,
        event is Failed ==> state.reaction(event).request is Noop,
        event is Other ==> state.reaction(event).request is Noop,
        event is PermissionCreated ==> state.reaction(event).request is Noop,
        state.reaction(event).request is AddPermission <==> event is AllocationGranted,
        state.reaction(event).request == RequestView::SendTo(peer, data) <==> event
            == EventView::RecvFrom(peer, data),
{
}

/// Some allocation was granted in the course of `events`.
pub open spec fn allocated(events: Seq<EventView>) -> bool {
    exists|i: int| 0 <= i < events.len() && #[trigger] events[i] is AllocationGranted
}

/// Event `k` lets the address `probe` in, after an allocation was granted.
pub open spec fn usable_from(probe: Endpoint, events: Seq<EventView>, k: int) -> bool {
    &&& 0 <= k < events.len()
    &&& events[k] == EventView::PermissionCreated(probe)
    &&& allocated(events.take(k))
}

/// What a client does depends on what happened to it before as follows. It gives
/// up exactly at a permission that comes before any allocation. It is reported as
/// usable exactly when the probing socket is let in for the first time after an
/// allocation. Its user is told of an allocation after the first one, of a
/// permission for another address than that of the probing socket, of a failure,
/// and of nothing else.
pub proof fn law_client_by_its_history(probe: Endpoint, events: Seq<EventView>, event: EventView)
    ensures
        ({
            let state = ClientState::fresh(probe).after_all(events);
            let reaction = state.reaction(event);
            &&& state.gives_up(event) <==> event is PermissionCreated && !allocated(events)
            &&& reaction.ready is Some <==> {
                &&& event == EventView::PermissionCreated(probe)
                &&& allocated(events)
                &&& forall|k: int| !#[trigger] usable_from(probe, events, k)
            }
            &&& reaction.notice == Some(Notice::GrantedAgain) <==> event is AllocationGranted
                && allocated(events)
            &&& reaction.notice == Some(Notice::WrongPermission) <==> event is PermissionCreated
                && event != EventView::PermissionCreated(probe)
            &&& reaction.notice == Some(Notice::Failure) <==> event is Failed
        }),
{
    lemma_client_history(probe, events);
    let state = ClientState::fresh(probe).after_all(events);
    if state.relay is Some {
        let i = choose|i: int|
            0 <= i < events.len() && #[trigger] events[i] == EventView::AllocationGranted(
                state.relay->0,
            ) && first_allocation(events, i);
        assert(events[i] is AllocationGranted);
    }
}

proof fn lemma_usable_from(probe: Endpoint, events: Seq<EventView>)
    requires
        events.len() > 0,
    ensures
        (exists|k: int| #[trigger] usable_from(probe, events, k)) <==> {
            ||| exists|k: int| #[trigger] usable_from(probe, events.drop_last(), k)
            ||| events.last() == EventView::PermissionCreated(probe) && allocated(
                events.drop_last(),
            )
        },
{
    let earlier = events.drop_last();
    let last = events.len() - 1;
    assert(events.take(last) =~= earlier);
    assert forall|k: int| 0 <= k < last implies usable_from(probe, events, k) == #[trigger]
        usable_from(probe, earlier, k) by {
        assert(events.take(k) =~= earlier.take(k));
    }
    if exists|k: int| #[trigger] usable_from(probe, events, k) {
        let k = choose|k: int| #[trigger] usable_from(probe, events, k);
        if k < last {
            assert(usable_from(probe, earlier, k));
        }
    }
    if exists|k: int| #[trigger] usable_from(probe, earlier, k) {
        let k = choose|k: int| #[trigger] usable_from(probe, earlier, k);
        assert(usable_from(probe, events, k));
    }
    if events.last() == EventView::PermissionCreated(probe) && allocated(earlier) {
        assert(usable_from(probe, events, last));
    }
}

} // verus!
