//! The client's decisions: how the one response to a command maps back to a
//! value, a success or a typed failure.

use vstd::prelude::*;
use crate::server::{ErrorType, ServerResponse};

verus! {

#[derive(Debug, PartialEq, Eq)]
pub enum ClientError {
    ConnectionError(&'static str),
    OperationError(&'static str),
    KeyNotFound(&'static str),
}

/// The outcome of a `get` from its response; `None` is a response that did
/// not parse.
pub fn get_result(resp: Option<ServerResponse<Option<String>>>) -> (r: Result<
    Option<String>,
    ClientError,
>)
    ensures
        match resp {
            Some(ServerResponse::Success(v)) => r == Ok::<Option<String>, ClientError>(v),
            _ => r == Err::<Option<String>, ClientError>(
                ClientError::OperationError("Client::get"),
            ),
        },
{
    match resp {
        Some(ServerResponse::Success(v)) => Ok(v),
        _ => Err(ClientError::OperationError("Client::get")),
    }
}

/// The outcome of a `set` from its response; `None` is a response that did
/// not parse.
pub fn set_result(resp: Option<ServerResponse<()>>) -> (r: Result<(), ClientError>)
    ensures
        match resp {
            Some(ServerResponse::Success(_)) => r == Ok::<(), ClientError>(()),
            _ => r == Err::<(), ClientError>(ClientError::OperationError("Client::set")),
        },
{
    match resp {
        Some(ServerResponse::Success(_)) => Ok(()),
        _ => Err(ClientError::OperationError("Client::set")),
    }
}

/// The outcome of a `remove` from its response; `None` is a response that
/// did not parse.
pub fn remove_result(resp: Option<ServerResponse<()>>) -> (r: Result<(), ClientError>)
    ensures
        match resp {
            Some(ServerResponse::Success(_)) => r == Ok::<(), ClientError>(()),
            Some(ServerResponse::Error(ErrorType::KeyNotFound)) => r == Err::<(), ClientError>(
                ClientError::KeyNotFound("Key not found"),
            ),
            _ => r == Err::<(), ClientError>(ClientError::OperationError("Client::remove")),
        },
{
    match resp {
        Some(ServerResponse::Success(_)) => Ok(()),
        Some(ServerResponse::Error(ErrorType::KeyNotFound)) => Err(
            ClientError::KeyNotFound("Key not found"),
        ),
        _ => Err(ClientError::OperationError("Client::remove")),
    }
}

} // verus!
