use vstd::prelude::*;

use std::collections::HashMap;

use crate::error::Error;
use crate::jsonrpc::{Id, RequestMessage, ResponseMessage, RpcMessage};

verus! {

broadcast use vstd::std_specs::hash::group_hash_axioms;

/// A message to the language server; its parameters are held as JSON text.
pub enum LspOutgoingMessage {
    Initialize(String),
}

/// The kind of a message sent to the language server, remembered until its
/// response comes.
#[derive(Clone, Copy, Debug, PartialEq, Eq, Structural)]
pub enum LspOutgoingMessageType {
    Initialize,
}

impl LspOutgoingMessage {
    /// The request that carries the message, with the given id.
    pub fn into_rpc_message(self, id: i64) -> (message: RpcMessage)
        ensures
            match self {
                LspOutgoingMessage::Initialize(params) => message matches RpcMessage::Request(r) && r.id
                    == Id::Number(id) && r.method@ == "initialize"@ && r.params == Some(params)
                    && r.jsonrpc@ == "2.0"@,
            },
    {
        match self {
            LspOutgoingMessage::Initialize(initialize) => {
                proof {
                    reveal_strlit("initialize");
                }
                RpcMessage::Request(
                    RequestMessage::with_params(Id::Number(id), String::from_str("initialize"), initialize),
                )
            },
        }
    }

    /// The kind of the message.
    pub fn message_type(&self) -> (kind: LspOutgoingMessageType)
        ensures
            self is Initialize ==> kind == LspOutgoingMessageType::Initialize,
    {
        match self {
            LspOutgoingMessage::Initialize(_) => LspOutgoingMessageType::Initialize,
        }
    }
}

/// The kinds of the requests sent and not yet answered, by id.
pub type Requests = HashMap<i64, LspOutgoingMessageType>;

/// What a response answers: the kind of the request with its id, or an
/// error where no request with that id was sent (or it has no number id).
pub fn request_type_of_response(response: &ResponseMessage, requests: &Requests) -> (kind: Result<
    LspOutgoingMessageType,
    Error,
>)
    ensures
        match response.id {
            Some(Id::Number(n)) => if requests@.contains_key(n) {
                kind == Ok::<LspOutgoingMessageType, Error>(requests@[n])
            } else {
                kind is Err
            },
            _ => kind is Err,
        },
        kind matches Err(Error::Lsp(text)) ==> text@ == "Got response for non-existent request"@,
{
    proof {
        reveal_strlit("Got response for non-existent request");
    }
    match &response.id {
        Some(Id::Number(n)) => match requests.get(n) {
            Some(kind) => Ok(*kind),
            None => Err(Error::Lsp(String::from_str("Got response for non-existent request"))),
        },
        _ => Err(Error::Lsp(String::from_str("Got response for non-existent request"))),
    }
}

} // verus!
