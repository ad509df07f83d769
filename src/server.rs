//! The server's decisions: which engine a data directory gets, how a command
//! reaches the engine and how the outcome becomes the one response sent back.

use vstd::prelude::*;
use crate::kv::command::KVCommand;
use crate::kv::{lookup, opt_view, KVError};
use crate::KvsEngine;

verus! {

#[derive(Debug)]
pub enum ServerError {
    BindError(&'static str),
    EngineStartUpError(&'static str),
    EngineOperationError(&'static str),
    CommandParseError(&'static str),
}

/// The one structured response of a connection.
#[derive(Debug, PartialEq)]
pub enum ServerResponse<T> {
    Success(T),
    Error(ErrorType),
}

/// The failures a client is told apart; everything but a missing key on
/// `remove` is an `OperationError`.
#[derive(Debug, PartialEq, Eq, Structural, Clone, Copy)]
pub enum ErrorType {
    OperationError,
    KeyNotFound,
}

/// The storage engines a server can run.
#[derive(Debug, PartialEq, Eq, Structural, Clone, Copy)]
pub enum StorageEngine {
    Kv,
    Sled,
}

/// What a data directory records of the engine that first set it up.
pub struct StorageMetaData {
    pub engine: Option<StorageEngine>,
}

/// The response to a `get`, from what the engine returned.
pub fn get_response(res: Result<Option<String>, KVError>) -> (r: ServerResponse<Option<String>>)
    ensures
        match res {
            Ok(v) => r == ServerResponse::Success(v),
            Err(_) => r == ServerResponse::<Option<String>>::Error(ErrorType::OperationError),
        },
{
    match res {
        Ok(v) => ServerResponse::Success(v),
        Err(_) => ServerResponse::Error(ErrorType::OperationError),
    }
}

/// The response to a `set`, from what the engine returned.
pub fn set_response(res: Result<(), KVError>) -> (r: ServerResponse<()>)
    ensures
        match res {
            Ok(_) => r == ServerResponse::Success(()),
            Err(_) => r == ServerResponse::<()>::Error(ErrorType::OperationError),
        },
{
    match res {
        Ok(_) => ServerResponse::Success(()),
        Err(_) => ServerResponse::Error(ErrorType::OperationError),
    }
}

/// The response to a `remove`, from what the engine returned: a missing key
/// keeps its own kind, every other failure is an `OperationError`.
pub fn remove_response(res: Result<(), KVError>) -> (r: ServerResponse<()>)
    ensures
        match res {
            Ok(_) => r == ServerResponse::Success(()),
            Err(KVError::KeyNotFound(_)) => r == ServerResponse::<()>::Error(ErrorType::KeyNotFound),
            Err(_) => r == ServerResponse::<()>::Error(ErrorType::OperationError),
        },
{
    match res {
        Ok(_) => ServerResponse::Success(()),
        Err(KVError::KeyNotFound(_)) => ServerResponse::Error(ErrorType::KeyNotFound),
        Err(_) => ServerResponse::Error(ErrorType::OperationError),
    }
}

/// The response to one command: a `get` carries its value or absence, a
/// `set` or a `remove` carries nothing.
pub enum Reply {
    Value(ServerResponse<Option<String>>),
    Done(ServerResponse<()>),
}

/// Runs one command against the engine and gives the response to send.
pub fn dispatch<E: KvsEngine>(engine: &mut E, command: KVCommand) -> (r: Reply)
    requires
        old(engine).inv(),
    ensures
        final(engine).inv(),
        old(engine).models() ==> match command {
            KVCommand::Get { key } => r matches Reply::Value(resp) && final(engine).model() == old(
                engine,
            ).model() && (resp matches ServerResponse::Success(v) ==> opt_view(v) == lookup(
                old(engine).model(),
                key@,
            )),
            KVCommand::Put { key, value } => r matches Reply::Done(resp) && (resp is Success
                ==> final(engine).model() == old(engine).model().insert(key@, value@)) && (resp is Error
                ==> final(engine).model() == old(engine).model()),
            KVCommand::Rm { key } => r matches Reply::Done(resp) && (resp is Success ==> old(
                engine,
            ).model().contains_key(key@) && final(engine).model() == old(engine).model().remove(
                key@,
            )) && (resp is Error ==> final(engine).model() == old(engine).model()) && (resp
                == ServerResponse::<()>::Error(ErrorType::KeyNotFound) ==> !old(
                engine,
            ).model().contains_key(key@)),
        },
        match command {
            KVCommand::Get { .. } => r matches Reply::Value(resp) && exists|res: Result<
                Option<String>,
                KVError,
            >| resp == get_response_spec(res),
            KVCommand::Put { .. } => r matches Reply::Done(resp) && exists|res: Result<
                (),
                KVError,
            >| resp == set_response_spec(res),
            KVCommand::Rm { .. } => r matches Reply::Done(resp) && exists|res: Result<
                (),
                KVError,
            >| resp == remove_response_spec(res),
        },
{
    match command {
        KVCommand::Get { key } => {
            let res = engine.get(key);
            let resp = get_response(res);
            assert(resp == get_response_spec(res));
            Reply::Value(resp)
        },
        KVCommand::Put { key, value } => {
            let res = engine.set(key, value);
            let resp = set_response(res);
            assert(resp == set_response_spec(res));
            Reply::Done(resp)
        },
        KVCommand::Rm { key } => {
            let res = engine.remove(key);
            let resp = remove_response(res);
            assert(resp == remove_response_spec(res));
            Reply::Done(resp)
        },
    }
}

pub open spec fn get_response_spec(res: Result<Option<String>, KVError>) -> ServerResponse<
    Option<String>,
> {
    match res {
        Ok(v) => ServerResponse::Success(v),
        Err(_) => ServerResponse::Error(ErrorType::OperationError),
    }
}

pub open spec fn set_response_spec(res: Result<(), KVError>) -> ServerResponse<()> {
    match res {
        Ok(_) => ServerResponse::Success(()),
        Err(_) => ServerResponse::Error(ErrorType::OperationError),
    }
}

pub open spec fn remove_response_spec(res: Result<(), KVError>) -> ServerResponse<()> {
    match res {
        Ok(_) => ServerResponse::Success(()),
        Err(KVError::KeyNotFound(_)) => ServerResponse::Error(ErrorType::KeyNotFound),
        Err(_) => ServerResponse::Error(ErrorType::OperationError),
    }
}

/// Settles which engine runs over a data directory: the requested one (the
/// log engine by default), which must match the one recorded there, if any.
/// Returns it and whether it still has to be recorded.
pub fn select_engine(requested: Option<StorageEngine>, recorded: Option<StorageEngine>) -> (r:
    Result<(StorageEngine, bool), ServerError>)
    ensures
        ({
            let want = match requested {
                Some(e) => e,
                None => StorageEngine::Kv,
            };
            match recorded {
                None => r == Ok::<(StorageEngine, bool), ServerError>((want, true)),
                Some(e) => if e == want {
                    r == Ok::<(StorageEngine, bool), ServerError>((want, false))
                } else {
                    r is Err
                },
            }
        }),
{
    let want = match requested {
        Some(e) => e,
        None => StorageEngine::Kv,
    };
    match recorded {
        None => Ok((want, true)),
        Some(e) => if e == want {
            Ok((want, false))
        } else {
            Err(ServerError::EngineOperationError("invalid engine"))
        },
    }
}

} // verus!
