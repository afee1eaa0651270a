//! The handshake state machine: the client must send `initialize`, receive
//! its response, and send the `initialized` notification before ordinary
//! requests are valid. `Initialized` and `Failed` are terminal.

use vstd::prelude::*;

use crate::errors::ErrorKind;
use crate::msg::{IdVal, MsgVal};

verus! {

/// The fixed, well-known identifier of the `initialize` request: the first
/// id this client ever issues.
pub const INIT_ID: u64 = 1;

#[derive(Clone, Copy, Debug, PartialEq, Eq, Structural)]
pub enum HandshakeState {
    Uninitialized,
    AwaitingInitializeResponse,
    Initialized,
    Failed(ErrorKind),
}

/// What can happen to the handshake: the client starts it, a message
/// arrives, or the connection goes away.
pub enum HsEvent {
    Start,
    Recv(MsgVal),
    Closed,
}

/// Whether a message is the response to the `initialize` request.
pub open spec fn is_init_response(m: MsgVal) -> bool {
    match m {
        MsgVal::Response { id, outcome } => id == IdVal::Num(INIT_ID),
        _ => false,
    }
}

/// The transition function of the handshake machine.
pub open spec fn hs_step(s: HandshakeState, e: HsEvent) -> HandshakeState {
    match s {
        HandshakeState::Uninitialized => match e {
            HsEvent::Start => HandshakeState::AwaitingInitializeResponse,
            _ => s,
        },
        HandshakeState::AwaitingInitializeResponse => match e {
            HsEvent::Start => s,
            HsEvent::Recv(m) => if is_init_response(m) {
                HandshakeState::Initialized
            } else {
                HandshakeState::Failed(ErrorKind::Protocol)
            },
            HsEvent::Closed => HandshakeState::Failed(ErrorKind::ConnectionClosed),
        },
        HandshakeState::Initialized => s,
        HandshakeState::Failed(k) => s,
    }
}

/// Handshake ordering: while the initialize response is awaited, receiving
/// anything else -- a notification, a server request, or a response to some
/// other id -- fails the handshake, and never initializes it.
pub proof fn lemma_handshake_ordering(m: MsgVal)
    requires
        !is_init_response(m),
    ensures
        hs_step(HandshakeState::AwaitingInitializeResponse, HsEvent::Recv(m)) == HandshakeState::Failed(
            ErrorKind::Protocol,
        ),
        hs_step(HandshakeState::AwaitingInitializeResponse, HsEvent::Recv(m))
            != HandshakeState::Initialized,
{
}

/// `Initialized` is reached only from `AwaitingInitializeResponse`, and only
/// by the response that answers the initialize request; since that state is
/// entered only by sending `initialize`, the `initialized` notification
/// (sent on this transition) always follows the `initialize` request.
pub proof fn lemma_initialized_only_by_init_response(s: HandshakeState, e: HsEvent)
    requires
        hs_step(s, e) == HandshakeState::Initialized,
        s != HandshakeState::Initialized,
    ensures
        s == HandshakeState::AwaitingInitializeResponse,
        exists|m: MsgVal| e == HsEvent::Recv(m) && is_init_response(m),
{
    match e {
        HsEvent::Recv(m) => {
            assert(e == HsEvent::Recv(m) && is_init_response(m));
        }
        _ => {}
    }
}

/// `Initialized` and `Failed` are terminal: no event leaves them.
pub proof fn lemma_terminal_states(s: HandshakeState, e: HsEvent)
    requires
        s is Initialized || s is Failed,
    ensures
        hs_step(s, e) == s,
{
}

} // verus!
