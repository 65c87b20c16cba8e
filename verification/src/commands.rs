//! The command surface the shell invokes: each command becomes one
//! outbound request with its fixed `kind`. Commands with no
//! caller-supplied identifier draw a fresh random one.

use vstd::prelude::*;

use crate::codec::AgentRequest;

verus! {

/// Relies on `uuid::Uuid::new_v4` and its hyphenated display form: a
/// fresh random identifier, always 36 characters.
#[verifier::external_body]
pub fn fresh_request_id() -> (r: String)
    ensures
        r@.len() == 36,
{
    uuid::Uuid::new_v4().to_string()
}

/// The user-message request: the caller supplies the correlation id,
/// the message, and optional attachments.
pub fn user_message_request(id: String, message: String, images: Option<String>) -> (r:
    AgentRequest)
    ensures
        r@.id == id@,
        r@.kind == "user_message"@,
        r@.message == Some(message@),
        r@.images == (match images {
            Some(im) => Some(im@),
            None => None::<Seq<char>>,
        }),
        r@.conversation_id is None,
{
    AgentRequest {
        id,
        kind: "user_message".to_owned(),
        message: Some(message),
        images,
        conversation_id: None,
    }
}

/// A request that carries only its kind and a fresh identifier.
fn bare_request(kind: String) -> (r: AgentRequest)
    ensures
        r@.kind == kind@,
        r@.id.len() == 36,
        r@.message is None,
        r@.images is None,
        r@.conversation_id is None,
{
    AgentRequest {
        id: fresh_request_id(),
        kind,
        message: None,
        images: None,
        conversation_id: None,
    }
}

pub fn clear_history_request() -> (r: AgentRequest)
    ensures
        r@.kind == "clear_history"@,
        r@.id.len() == 36,
        r@.message is None,
        r@.images is None,
        r@.conversation_id is None,
{
    bare_request("clear_history".to_owned())
}

pub fn interrupt_request() -> (r: AgentRequest)
    ensures
        r@.kind == "interrupt"@,
        r@.id.len() == 36,
        r@.message is None,
        r@.images is None,
        r@.conversation_id is None,
{
    bare_request("interrupt".to_owned())
}

pub fn list_conversations_request() -> (r: AgentRequest)
    ensures
        r@.kind == "list_conversations"@,
        r@.id.len() == 36,
        r@.message is None,
        r@.images is None,
        r@.conversation_id is None,
{
    bare_request("list_conversations".to_owned())
}

pub fn new_conversation_request() -> (r: AgentRequest)
    ensures
        r@.kind == "new_conversation"@,
        r@.id.len() == 36,
        r@.message is None,
        r@.images is None,
        r@.conversation_id is None,
{
    bare_request("new_conversation".to_owned())
}

pub fn load_conversation_request(conversation_id: String) -> (r: AgentRequest)
    ensures
        r@.kind == "load_conversation"@,
        r@.id.len() == 36,
        r@.message is None,
        r@.images is None,
        r@.conversation_id == Some(conversation_id@),
{
    AgentRequest {
        id: fresh_request_id(),
        kind: "load_conversation".to_owned(),
        message: None,
        images: None,
        conversation_id: Some(conversation_id),
    }
}

pub fn delete_conversation_request(conversation_id: String) -> (r: AgentRequest)
    ensures
        r@.kind == "delete_conversation"@,
        r@.id.len() == 36,
        r@.message is None,
        r@.images is None,
        r@.conversation_id == Some(conversation_id@),
{
    AgentRequest {
        id: fresh_request_id(),
        kind: "delete_conversation".to_owned(),
        message: None,
        images: None,
        conversation_id: Some(conversation_id),
    }
}

} // verus!
