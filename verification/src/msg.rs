//! The message model: the tagged union of protocol messages (request,
//! response, notification) and the identifier type used to correlate a
//! response with the request that caused it.
//!
//! Method names, parameters, results and errors are carried as UTF-8 byte
//! strings; parameters and results are opaque payloads that must travel
//! through the codec unchanged.

use vstd::prelude::*;

verus! {

/// A request identifier: a 64-bit integer or a byte string. Equality is
/// exact, type and value.
#[derive(Debug, PartialEq, Eq)]
pub enum Identifier {
    Num(u64),
    Str(Vec<u8>),
}

/// The mathematical value of an [`Identifier`].
pub enum IdVal {
    Num(u64),
    Str(Seq<u8>),
}

impl View for Identifier {
    type V = IdVal;

    open spec fn view(&self) -> IdVal {
        match self {
            Identifier::Num(n) => IdVal::Num(*n),
            Identifier::Str(s) => IdVal::Str(s@),
        }
    }
}

/// A response carries exactly one of a result payload or an error payload;
/// the enum makes "exactly one" hold by construction.
#[derive(Debug, PartialEq, Eq)]
pub enum Outcome {
    Success(Vec<u8>),
    Failure(Vec<u8>),
}

/// The mathematical value of an [`Outcome`].
pub enum OutcomeVal {
    Success(Seq<u8>),
    Failure(Seq<u8>),
}

impl View for Outcome {
    type V = OutcomeVal;

    open spec fn view(&self) -> OutcomeVal {
        match self {
            Outcome::Success(p) => OutcomeVal::Success(p@),
            Outcome::Failure(p) => OutcomeVal::Failure(p@),
        }
    }
}

/// A protocol message.
#[derive(Debug, PartialEq, Eq)]
pub enum Message {
    Request { id: Identifier, method: Vec<u8>, params: Vec<u8> },
    Response { id: Identifier, outcome: Outcome },
    Notification { method: Vec<u8>, params: Vec<u8> },
}

/// The mathematical value of a [`Message`].
pub enum MsgVal {
    Request { id: IdVal, method: Seq<u8>, params: Seq<u8> },
    Response { id: IdVal, outcome: OutcomeVal },
    Notification { method: Seq<u8>, params: Seq<u8> },
}

impl View for Message {
    type V = MsgVal;

    open spec fn view(&self) -> MsgVal {
        match self {
            Message::Request { id, method, params } => MsgVal::Request {
                id: id@,
                method: method@,
                params: params@,
            },
            Message::Response { id, outcome } => MsgVal::Response { id: id@, outcome: outcome@ },
            Message::Notification { method, params } => MsgVal::Notification {
                method: method@,
                params: params@,
            },
        }
    }
}

/// Byte strings embedded between quotes on the wire (method names, string
/// identifiers) must not themselves contain a quote, or the frame could not
/// be re-read unambiguously.
pub open spec fn no_quote(s: Seq<u8>) -> bool {
    forall|i: int| 0 <= i < s.len() ==> s[i] != 34u8
}

pub open spec fn id_wf(id: IdVal) -> bool {
    match id {
        IdVal::Num(_) => true,
        IdVal::Str(s) => no_quote(s),
    }
}

/// A message is well formed when every quoted field is quote-free.
/// Parameter, result and error payloads are unconstrained: they sit at the
/// end of the wire form, so any byte string round-trips.
pub open spec fn msg_wf(m: MsgVal) -> bool {
    match m {
        MsgVal::Request { id, method, params } => id_wf(id) && no_quote(method),
        MsgVal::Response { id, outcome } => id_wf(id),
        MsgVal::Notification { method, params } => no_quote(method),
    }
}

/// Byte-string equality, decided byte by byte.
pub fn bytes_eq(a: &Vec<u8>, b: &Vec<u8>) -> (r: bool)
    ensures
        r == (a@ == b@),
{
    if a.len() != b.len() {
        assert(a@ != b@) by {
            assert(a@.len() != b@.len());
        }
        return false;
    }
    let mut i: usize = 0;
    while i < a.len()
        invariant
            i <= a.len(),
            a@.len() == b@.len(),
            forall|j: int| 0 <= j < i ==> a@[j] == b@[j],
        decreases a.len() - i,
    {
        if a[i] != b[i] {
            return false;
        }
        i += 1;
    }
    proof {
        assert(a@ =~= b@);
    }
    true
}

/// Identifier equality, exact in type and value.
pub fn id_eq(a: &Identifier, b: &Identifier) -> (r: bool)
    ensures
        r == (a@ == b@),
{
    match (a, b) {
        (Identifier::Num(x), Identifier::Num(y)) => *x == *y,
        (Identifier::Str(x), Identifier::Str(y)) => bytes_eq(x, y),
        _ => false,
    }
}

/// Whether an executable message satisfies the well-formedness needed for
/// an unambiguous wire form.
pub fn msg_is_wf(m: &Message) -> (r: bool)
    ensures
        r == msg_wf(m@),
{
    match m {
        Message::Request { id, method, params } => id_is_wf(id) && bytes_quote_free(method),
        Message::Response { id, outcome } => id_is_wf(id),
        Message::Notification { method, params } => bytes_quote_free(method),
    }
}

pub fn id_is_wf(id: &Identifier) -> (r: bool)
    ensures
        r == id_wf(id@),
{
    match id {
        Identifier::Num(_) => true,
        Identifier::Str(s) => bytes_quote_free(s),
    }
}

pub fn bytes_quote_free(s: &Vec<u8>) -> (r: bool)
    ensures
        r == no_quote(s@),
{
    let mut i: usize = 0;
    while i < s.len()
        invariant
            i <= s.len(),
            forall|j: int| 0 <= j < i ==> s@[j] != 34u8,
        decreases s.len() - i,
    {
        if s[i] == 34u8 {
            return false;
        }
        i += 1;
    }
    true
}

} // verus!
