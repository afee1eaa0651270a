//! The connection: the client-facing end of the transport. It holds the
//! outbound queue's send end and the inbound queue's receive end, owns the
//! pending-request table and the handshake state, and allocates request
//! identifiers. Responses are matched to outstanding requests by identifier,
//! never by arrival order.

use vstd::prelude::*;

use crate::errors::ErrorKind;
use crate::handshake::{hs_step, is_init_response, HandshakeState, HsEvent, INIT_ID};
use crate::msg::{id_eq, IdVal, Identifier, Message, MsgVal, Outcome};
use crate::pending::{
    cancel_spec, has_id, has_waiting, resolve_spec, PendingTable, Slot, SlotVal,
};

verus! {

#[verifier::external_type_specification]
#[verifier::external_body]
#[verifier::reject_recursive_types(T)]
pub struct ExSender<T>(crossbeam_channel::Sender<T>);

#[verifier::external_type_specification]
#[verifier::external_body]
#[verifier::reject_recursive_types(T)]
pub struct ExReceiver<T>(crossbeam_channel::Receiver<T>);

/// Relies on crossbeam_channel::Sender::send: hands the message to the
/// queue and returns Ok, or returns Err exactly when every receive end has
/// been dropped (the message is then lost). Whether the channel is still
/// open depends on the peer thread, so nothing is promised of the result.
#[verifier::external_body]
fn chan_send(s: &crossbeam_channel::Sender<Message>, m: Message) -> (r: bool) {
    crossbeam_channel::Sender::send(s, m).is_ok()
}

/// Relies on crossbeam_channel::Receiver::recv: blocks until a message is
/// available and returns it, or returns Err exactly when the channel is
/// empty and every send end has been dropped. What arrives depends on the
/// peer thread, so nothing is promised of the result.
#[verifier::external_body]
fn chan_recv(r: &crossbeam_channel::Receiver<Message>) -> (m: Option<Message>) {
    match crossbeam_channel::Receiver::recv(r) {
        Ok(msg) => Option::Some(msg),
        Err(_) => Option::None,
    }
}

/// Relies on serde_json::to_vec over lsp_types::InitializeParams: the
/// client's default initialize capabilities, serialized as a JSON payload.
/// Serializing this plain data structure does not fail; if it ever did, the
/// empty payload is handed back.
#[verifier::external_body]
fn initialize_params_payload() -> (r: Vec<u8>) {
    match serde_json::to_vec(&lsp_types::InitializeParams::default()) {
        Ok(v) => v,
        Err(_) => Vec::new(),
    }
}

/// Every identifier this client has placed in the table is numeric and below
/// the counter, so the next counter value is always fresh.
pub open spec fn id_below(e: IdVal, n: u64) -> bool {
    match e {
        IdVal::Num(k) => k < n,
        IdVal::Str(_) => true,
    }
}

/// What the dispatch of one inbound message does to the pending table: a
/// response resolves the waiting entry under its own id; a request or a
/// notification leaves the table untouched.
pub open spec fn dispatch_table(s: Seq<(IdVal, SlotVal)>, m: MsgVal) -> Seq<(IdVal, SlotVal)> {
    match m {
        MsgVal::Response { id, outcome } => resolve_spec(s, id, outcome),
        _ => s,
    }
}

/// Where an inbound message was routed.
#[derive(Debug)]
pub enum Dispatched {
    /// A response that resolved the matching outstanding request.
    ResponseMatched,
    /// A response with an unknown or stale id: dropped, never fatal.
    ResponseUnmatched,
    /// A server-initiated request, handed back for an outside handler.
    ServerRequest(Message),
    /// A notification, handed back for an outside subscriber.
    Note(Message),
}

/// A connection: a pair of message queues into the I/O engine, plus the
/// correlation table, the handshake state, and the id counter.
pub struct Connection {
    pub sender: crossbeam_channel::Sender<Message>,
    pub receiver: crossbeam_channel::Receiver<Message>,
    pub pending: PendingTable,
    pub state: HandshakeState,
    pub next_id: u64,
}

impl Connection {
    pub open spec fn wf(&self) -> bool {
        &&& self.pending.wf()
        &&& forall|i: int|
            0 <= i < self.pending@.len() ==> id_below(
                (#[trigger] self.pending@[i]).0,
                self.next_id,
            )
        &&& self.next_id >= 2
        &&& (self.state is Uninitialized ==> self.pending@.len() == 0)
    }

    /// A fresh connection over the two queue ends, not yet initialized.
    pub fn new(
        sender: crossbeam_channel::Sender<Message>,
        receiver: crossbeam_channel::Receiver<Message>,
    ) -> (c: Connection)
        ensures
            c.wf(),
            c.state is Uninitialized,
            c.pending@.len() == 0,
            c.next_id == 2,
    {
        Connection {
            sender,
            receiver,
            pending: PendingTable::new(),
            state: HandshakeState::Uninitialized,
            next_id: 2,
        }
    }

    /// Starts the handshake: sends `Request { id: INIT_ID, method:
    /// "initialize", params: capabilities }` and awaits its response. In any
    /// other state than `Uninitialized` this is a protocol error and nothing
    /// changes; if the outbound queue is gone the start is rolled back.
    pub fn initialize_start(&mut self) -> (r: Result<(), ErrorKind>)
        requires
            old(self).wf(),
        ensures
            final(self).wf(),
            final(self).next_id == old(self).next_id,
            !(old(self).state is Uninitialized) ==> r == Err::<(), ErrorKind>(ErrorKind::Protocol)
                && final(self).state == old(self).state && final(self).pending@ == old(
                self,
            ).pending@,
            old(self).state is Uninitialized ==> (match r {
                Result::Ok(u) => final(self).state == hs_step(old(self).state, HsEvent::Start)
                    && final(self).state is AwaitingInitializeResponse && final(self).pending@
                    == old(self).pending@.push((IdVal::Num(INIT_ID), SlotVal::Waiting)),
                Result::Err(k) => k == ErrorKind::ConnectionClosed && final(self).state == old(
                    self,
                ).state && final(self).pending@ == old(self).pending@,
            }),
    {
        match self.state {
            HandshakeState::Uninitialized => {}
            _ => {
                return Err(ErrorKind::Protocol);
            }
        }
        let params = initialize_params_payload();
        let method = initialize_method_vec();
        let request = Message::Request { id: Identifier::Num(INIT_ID), method, params };
        if !chan_send(&self.sender, request) {
            return Err(ErrorKind::ConnectionClosed);
        }
        proof {
            assert(!has_id(self.pending@, IdVal::Num(INIT_ID)));
        }
        self.pending.insert(Identifier::Num(INIT_ID));
        self.state = HandshakeState::AwaitingInitializeResponse;
        Ok(())
    }

    /// Finishes the handshake: blocks for one inbound message and decides on
    /// it. The matching response initializes the connection (after sending
    /// the `initialized` notification); anything else fails the handshake.
    pub fn initialize_finish(&mut self) -> (r: Result<(), ErrorKind>)
        requires
            old(self).wf(),
        ensures
            final(self).wf(),
            final(self).next_id == old(self).next_id,
            !(old(self).state is AwaitingInitializeResponse) ==> r == Err::<(), ErrorKind>(
                ErrorKind::Protocol,
            ) && final(self).state == old(self).state && final(self).pending@ == old(
                self,
            ).pending@,
            old(self).state is AwaitingInitializeResponse ==> (match r {
                Result::Ok(u) => final(self).state is Initialized,
                Result::Err(k) => final(self).state == HandshakeState::Failed(k),
            }),
            r == Err::<(), ErrorKind>(ErrorKind::ConnectionClosed) ==> crate::pending::no_waiting(
                final(self).pending@,
            ),
    {
        match self.state {
            HandshakeState::AwaitingInitializeResponse => {}
            _ => {
                return Err(ErrorKind::Protocol);
            }
        }
        match chan_recv(&self.receiver) {
            Option::None => {
                self.state = HandshakeState::Failed(ErrorKind::ConnectionClosed);
                let ghost before = self.pending@;
                self.pending.cancel_waiting(ErrorKind::ConnectionClosed);
                proof {
                    crate::pending::lemma_cancel_leaves_no_waiting(
                        before,
                        ErrorKind::ConnectionClosed,
                    );
                }
                Err(ErrorKind::ConnectionClosed)
            }
            Option::Some(m) => self.on_init_reply(m),
        }
    }

    /// The handshake decision on one inbound message, verified for every
    /// message that can arrive: exactly the response carrying the initialize
    /// id moves the machine to `Initialized` (and sends the `initialized`
    /// notification); any other message fails the handshake with a protocol
    /// error, as `hs_step` prescribes.
    pub fn on_init_reply(&mut self, m: Message) -> (r: Result<(), ErrorKind>)
        requires
            old(self).wf(),
            old(self).state is AwaitingInitializeResponse,
        ensures
            final(self).wf(),
            final(self).next_id == old(self).next_id,
            match r {
                Result::Ok(u) => is_init_response(m@) && final(self).state == hs_step(
                    old(self).state,
                    HsEvent::Recv(m@),
                ) && final(self).state is Initialized && final(self).pending@ == dispatch_table(
                    old(self).pending@,
                    m@,
                ),
                Result::Err(k) => final(self).state == HandshakeState::Failed(k) && ((k
                    == ErrorKind::Protocol && !is_init_response(m@) && final(self).state == hs_step(
                    old(self).state,
                    HsEvent::Recv(m@),
                ) && final(self).pending@ == old(self).pending@) || (k
                    == ErrorKind::ConnectionClosed && is_init_response(m@) && final(self).pending@
                    == cancel_spec(dispatch_table(old(self).pending@, m@), k))),
            },
            r == Err::<(), ErrorKind>(ErrorKind::ConnectionClosed) ==> crate::pending::no_waiting(
                final(self).pending@,
            ),
    {
        match m {
            Message::Response { id, outcome } => {
                let init_id = Identifier::Num(INIT_ID);
                if id_eq(&id, &init_id) {
                    let _matched = self.pending.resolve(&id, outcome);
                    let method = initialized_method_vec();
                    let params = empty_params_vec();
                    let note = Message::Notification { method, params };
                    if chan_send(&self.sender, note) {
                        self.state = HandshakeState::Initialized;
                        Ok(())
                    } else {
                        self.state = HandshakeState::Failed(ErrorKind::ConnectionClosed);
                        let ghost before = self.pending@;
                        self.pending.cancel_waiting(ErrorKind::ConnectionClosed);
                        proof {
                            crate::pending::lemma_cancel_leaves_no_waiting(
                                before,
                                ErrorKind::ConnectionClosed,
                            );
                        }
                        Err(ErrorKind::ConnectionClosed)
                    }
                } else {
                    self.state = HandshakeState::Failed(ErrorKind::Protocol);
                    Err(ErrorKind::Protocol)
                }
            }
            other => {
                self.state = HandshakeState::Failed(ErrorKind::Protocol);
                Err(ErrorKind::Protocol)
            }
        }
    }

    /// Sends an ordinary request under a fresh numeric identifier and
    /// registers it in the pending table. Before the handshake reaches
    /// `Initialized` this fails with `NotInitialized` and neither sends nor
    /// records anything -- except that the initialize request itself goes
    /// through [`Connection::initialize_start`].
    pub fn send_request(&mut self, method: Vec<u8>, params: Vec<u8>) -> (r: Result<
        Identifier,
        ErrorKind,
    >)
        requires
            old(self).wf(),
            old(self).next_id < u64::MAX,
        ensures
            final(self).wf(),
            final(self).state == old(self).state,
            !(old(self).state is Initialized) ==> r == Err::<Identifier, ErrorKind>(
                ErrorKind::NotInitialized,
            ) && final(self).pending@ == old(self).pending@ && final(self).next_id == old(
                self,
            ).next_id,
            old(self).state is Initialized ==> (match r {
                Result::Ok(id) => id@ == IdVal::Num(old(self).next_id) && final(self).next_id
                    == old(self).next_id + 1 && final(self).pending@ == old(self).pending@.push(
                    (id@, SlotVal::Waiting),
                ),
                Result::Err(k) => k == ErrorKind::ConnectionClosed && final(self).pending@ == old(
                    self,
                ).pending@ && final(self).next_id == old(self).next_id,
            }),
    {
        match self.state {
            HandshakeState::Initialized => {}
            _ => {
                return Err(ErrorKind::NotInitialized);
            }
        }
        let n = self.next_id;
        let request = Message::Request { id: Identifier::Num(n), method, params };
        if !chan_send(&self.sender, request) {
            return Err(ErrorKind::ConnectionClosed);
        }
        proof {
            assert(!has_id(self.pending@, IdVal::Num(n)));
        }
        self.pending.insert(Identifier::Num(n));
        self.next_id = n + 1;
        proof {
            assert forall|i: int| 0 <= i < self.pending@.len() implies id_below(
                (#[trigger] self.pending@[i]).0,
                self.next_id,
            ) by {
                if i < self.pending@.len() - 1 {
                    assert(self.pending@[i] == old(self).pending@[i]);
                }
            }
        }
        Ok(Identifier::Num(n))
    }

    /// Sends a notification: fire and forget, no identifier, no correlation,
    /// nothing recorded.
    pub fn send_notification(&mut self, method: Vec<u8>, params: Vec<u8>) -> (r: Result<
        (),
        ErrorKind,
    >)
        requires
            old(self).wf(),
        ensures
            final(self).wf(),
            final(self).state == old(self).state,
            final(self).pending@ == old(self).pending@,
            final(self).next_id == old(self).next_id,
            r == Ok::<(), ErrorKind>(()) || r == Err::<(), ErrorKind>(ErrorKind::ConnectionClosed),
    {
        let note = Message::Notification { method, params };
        if chan_send(&self.sender, note) {
            Ok(())
        } else {
            Err(ErrorKind::ConnectionClosed)
        }
    }

    /// Blocks for the next inbound message, or reports that the inbound
    /// queue is closed.
    pub fn recv_message(&self) -> (m: Option<Message>) {
        chan_recv(&self.receiver)
    }

    /// Dispatches one inbound message: a response resolves exactly the
    /// waiting entry carrying its own identifier (an unknown or stale id is
    /// dropped, never fatal); a server request or a notification is handed
    /// back for routing and leaves the table untouched.
    pub fn handle_inbound(&mut self, m: Message) -> (r: Dispatched)
        requires
            old(self).wf(),
        ensures
            final(self).wf(),
            final(self).state == old(self).state,
            final(self).next_id == old(self).next_id,
            final(self).pending@ == dispatch_table(old(self).pending@, m@),
            match m@ {
                MsgVal::Response { id, outcome } => (r is ResponseMatched <==> has_waiting(
                    old(self).pending@,
                    id,
                )) && (r is ResponseMatched || r is ResponseUnmatched),
                MsgVal::Request { id, method, params } => r == Dispatched::ServerRequest(m),
                MsgVal::Notification { method, params } => r == Dispatched::Note(m),
            },
    {
        match m {
            Message::Response { id, outcome } => {
                if self.pending.resolve(&id, outcome) {
                    Dispatched::ResponseMatched
                } else {
                    Dispatched::ResponseUnmatched
                }
            }
            Message::Request { id, method, params } => Dispatched::ServerRequest(
                Message::Request { id, method, params },
            ),
            Message::Notification { method, params } => Dispatched::Note(
                Message::Notification { method, params },
            ),
        }
    }

    /// Takes the terminal outcome of the request sent under `id`: the
    /// response's outcome, or the error it was cancelled with. While the
    /// request is still waiting (or was never registered) nothing is taken.
    pub fn poll_response(&mut self, id: &Identifier) -> (r: Option<Result<Outcome, ErrorKind>>)
        requires
            old(self).wf(),
        ensures
            final(self).wf(),
            final(self).state == old(self).state,
            final(self).next_id == old(self).next_id,
            match r {
                Option::Some(out) => exists|i: int|
                    0 <= i < old(self).pending@.len() && (#[trigger] old(self).pending@[i]).0
                        == id@ && final(self).pending@ == old(self).pending@.remove(i) && (
                    match out {
                        Result::Ok(o) => old(self).pending@[i].1 == SlotVal::Resolved(o@),
                        Result::Err(k) => old(self).pending@[i].1 == SlotVal::Cancelled(k),
                    }),
                Option::None => final(self).pending@ == old(self).pending@ && (forall|i: int|
                    0 <= i < old(self).pending@.len() && (#[trigger] old(self).pending@[i]).0
                        == id@ ==> old(self).pending@[i].1 is Waiting),
            },
    {
        match self.pending.poll_remove(id) {
            Option::None => Option::None,
            Option::Some(slot) => match slot {
                Slot::Resolved(o) => Option::Some(Ok(o)),
                Slot::Cancelled(k) => Option::Some(Err(k)),
                Slot::Waiting => Option::None,
            },
        }
    }

    /// Tears the connection down for its users: every still-waiting request
    /// is cancelled with `ConnectionClosed`, so no caller is left suspended.
    pub fn close(&mut self)
        requires
            old(self).wf(),
        ensures
            final(self).wf(),
            final(self).state == old(self).state,
            final(self).next_id == old(self).next_id,
            final(self).pending@ == cancel_spec(old(self).pending@, ErrorKind::ConnectionClosed),
    {
        self.pending.cancel_waiting(ErrorKind::ConnectionClosed);
    }
}

/// `initialize` as method bytes.
pub fn initialize_method_vec() -> (r: Vec<u8>)
    ensures
        r@ == initialize_method(),
{
    let mut v: Vec<u8> = Vec::new();
    v.push(105);
    v.push(110);
    v.push(105);
    v.push(116);
    v.push(105);
    v.push(97);
    v.push(108);
    v.push(105);
    v.push(122);
    v.push(101);
    proof {
        assert(v@ =~= initialize_method());
    }
    v
}

/// `initialize` (10 bytes)
pub open spec fn initialize_method() -> Seq<u8> {
    seq![105u8, 110u8, 105u8, 116u8, 105u8, 97u8, 108u8, 105u8, 122u8, 101u8]
}

/// `initialized` as method bytes.
pub fn initialized_method_vec() -> (r: Vec<u8>)
    ensures
        r@ == initialized_method(),
{
    let mut v = initialize_method_vec();
    v.push(100);
    proof {
        assert(v@ =~= initialized_method());
    }
    v
}

/// `initialized` (11 bytes)
pub open spec fn initialized_method() -> Seq<u8> {
    initialize_method().push(100u8)
}

/// `{}`: the empty object payload of the `initialized` notification.
pub fn empty_params_vec() -> (r: Vec<u8>)
    ensures
        r@ == seq![123u8, 125u8],
{
    let mut v: Vec<u8> = Vec::new();
    v.push(123);
    v.push(125);
    proof {
        assert(v@ =~= seq![123u8, 125u8]);
    }
    v
}

/// Interleaving: a notification (or any response for some other id) arriving
/// while a request is outstanding leaves that request's entry exactly as it
/// was -- it is never mistaken for the response, and the entry stays waiting
/// until the response carrying its own id arrives.
pub proof fn lemma_interleaving(s: Seq<(IdVal, SlotVal)>, m: MsgVal, i: int)
    requires
        0 <= i < s.len(),
        match m {
            MsgVal::Response { id, outcome } => id != s[i].0,
            _ => true,
        },
    ensures
        dispatch_table(s, m)[i] == s[i],
{
}

} // verus!
