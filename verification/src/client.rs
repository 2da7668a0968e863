//! The client of the key/value store: it builds the request for each
//! operation and turns the server's response into the operation's result.
//! Sending the request and reading the response is done by the `exchange`
//! each operation is given.

use vstd::prelude::*;
use crate::common::{
    answers_get, answers_remove, answers_set, GetResponse, RemoveResponse, Request, SetResponse,
};
use crate::error::{
    error_from_message_spec, error_message, law_message_round_trip, KvsError, Result,
};

verus! {

/// The result of a get, given what the exchange with the server gave.
pub open spec fn get_outcome(reply: Result<GetResponse>) -> Result<Option<String>> {
    match reply {
        Err(e) => Err(e),
        Ok(GetResponse::Success(v)) => Ok(v),
        Ok(GetResponse::Failure(m)) => Err(error_from_message_spec(m)),
    }
}

/// The result of a set, given what the exchange with the server gave.
pub open spec fn set_outcome(reply: Result<SetResponse>) -> Result<()> {
    match reply {
        Err(e) => Err(e),
        Ok(SetResponse::Success) => Ok(()),
        Ok(SetResponse::Failure(m)) => Err(error_from_message_spec(m)),
    }
}

/// The result of a remove, given what the exchange with the server gave.
pub open spec fn remove_outcome(reply: Result<RemoveResponse>) -> Result<()> {
    match reply {
        Err(e) => Err(e),
        Ok(RemoveResponse::Success) => Ok(()),
        Ok(RemoveResponse::Failure(m)) => Err(error_from_message_spec(m)),
    }
}

/// Whether the engine's answer `r` comes through the wire unchanged: a
/// success, or an error whose message names its kind.
pub open spec fn survives_wire<T>(r: Result<T>) -> bool {
    match r {
        Ok(_) => true,
        Err(KvsError::KeyNotFound) => true,
        Err(KvsError::UnexpectedCommandType) => true,
        Err(_) => false,
    }
}

/// What the server's engine answered is what the client reports: a client
/// that receives the response the server made of the engine's answer `r`
/// gives back `r` itself, for every answer whose kind its message names
/// (so an absent key comes back as `KeyNotFound`).
pub proof fn law_client_reports_engine_answer(
    get: Result<Option<String>>,
    get_resp: GetResponse,
    set: Result<()>,
    set_resp: SetResponse,
    remove: Result<()>,
    remove_resp: RemoveResponse,
)
    ensures
        answers_get(get, get_resp) && survives_wire(get) ==> get_outcome(Ok(get_resp)) == get,
        answers_set(set, set_resp) && survives_wire(set) ==> set_outcome(Ok(set_resp)) == set,
        answers_remove(remove, remove_resp) && survives_wire(remove) ==> remove_outcome(
            Ok(remove_resp),
        ) == remove,
{
    law_message_round_trip();
    if answers_set(set, set_resp) && survives_wire(set) {
        match set_resp {
            SetResponse::Success => {
                assert(set matches Ok(u) && u == ());
            },
            SetResponse::Failure(m) => {
                assert(error_from_message_spec(m) == set->Err_0);
            },
        }
    }
    if answers_remove(remove, remove_resp) && survives_wire(remove) {
        match remove_resp {
            RemoveResponse::Success => {
                assert(remove matches Ok(u) && u == ());
            },
            RemoveResponse::Failure(m) => {
                assert(error_from_message_spec(m) == remove->Err_0);
            },
        }
    }
}

/// A failure the server reports stays a failure at the client, carrying
/// the server's message, whatever the message says; it never becomes a
/// value, an absent key, or a success. A success carries the server's value,
/// and a failed exchange is reported as it failed.
pub proof fn law_client_keeps_failures(
    get_reply: Result<GetResponse>,
    set_reply: Result<SetResponse>,
    remove_reply: Result<RemoveResponse>,
)
    ensures
        get_reply matches Ok(GetResponse::Failure(m)) ==> (get_outcome(get_reply) matches Err(e)
            && error_message(e) == m@),
        get_reply matches Ok(GetResponse::Success(v)) ==> get_outcome(get_reply) == Ok::<
            Option<String>,
            KvsError,
        >(v),
        get_reply matches Err(e) ==> get_outcome(get_reply) == Err::<Option<String>, KvsError>(e),
        set_reply matches Ok(SetResponse::Failure(m)) ==> (set_outcome(set_reply) matches Err(e)
            && error_message(e) == m@),
        set_reply matches Ok(SetResponse::Success) ==> set_outcome(set_reply) is Ok,
        set_reply matches Err(e) ==> set_outcome(set_reply) == Err::<(), KvsError>(e),
        remove_reply matches Ok(RemoveResponse::Failure(m)) ==> (remove_outcome(remove_reply) matches Err(
            e,
        ) && error_message(e) == m@),
        remove_reply matches Ok(RemoveResponse::Success) ==> remove_outcome(remove_reply) is Ok,
        remove_reply matches Err(e) ==> remove_outcome(remove_reply) == Err::<(), KvsError>(e),
{
}

/// The result of a get, given what the exchange with the server gave.
pub fn get_reply(reply: Result<GetResponse>) -> (r: Result<Option<String>>)
    ensures
        r == get_outcome(reply),
        reply matches Ok(GetResponse::Failure(m)) ==> (r matches Err(e) && error_message(e) == m@),
        reply matches Ok(GetResponse::Success(v)) ==> r == Ok::<Option<String>, KvsError>(v),
        reply matches Err(e) ==> r == Err::<Option<String>, KvsError>(e),
{
    match reply {
        Err(e) => Err(e),
        Ok(GetResponse::Success(v)) => Ok(v),
        Ok(GetResponse::Failure(m)) => Err(KvsError::from_message(m)),
    }
}

/// The result of a set, given what the exchange with the server gave.
pub fn set_reply(reply: Result<SetResponse>) -> (r: Result<()>)
    ensures
        r == set_outcome(reply),
        reply matches Ok(SetResponse::Failure(m)) ==> (r matches Err(e) && error_message(e) == m@),
        reply matches Ok(SetResponse::Success) ==> r is Ok,
        reply matches Err(e) ==> r == Err::<(), KvsError>(e),
{
    match reply {
        Err(e) => Err(e),
        Ok(SetResponse::Success) => Ok(()),
        Ok(SetResponse::Failure(m)) => Err(KvsError::from_message(m)),
    }
}

/// The result of a remove, given what the exchange with the server gave.
pub fn remove_reply(reply: Result<RemoveResponse>) -> (r: Result<()>)
    ensures
        r == remove_outcome(reply),
        reply matches Ok(RemoveResponse::Failure(m)) ==> (r matches Err(e) && error_message(e)
            == m@),
        reply matches Ok(RemoveResponse::Success) ==> r is Ok,
        reply matches Err(e) ==> r == Err::<(), KvsError>(e),
{
    match reply {
        Err(e) => Err(e),
        Ok(RemoveResponse::Success) => Ok(()),
        Ok(RemoveResponse::Failure(m)) => Err(KvsError::from_message(m)),
    }
}

/// Key-value store client.
pub struct KvsClient {}

impl KvsClient {
    /// A client; the connection to the server is the exchanges it is given.
    pub fn new() -> (c: KvsClient) {
        KvsClient {  }
    }

    /// Gets the value of a given key from the server: sends a get request
    /// for `key` through `exchange` and reports the server's answer.
    pub fn get<F: FnOnce(Request) -> Result<GetResponse>>(&mut self, key: String, exchange: F) -> (r:
        Result<Option<String>>)
        requires
            exchange.requires(((Request::Get { key: key }),)),
        ensures
            exists|reply: Result<GetResponse>|
                exchange.ensures(((Request::Get { key: key }),), reply) && r == get_outcome(reply),
    {
        let reply = exchange(Request::Get { key });
        get_reply(reply)
    }

    /// Sets the value of a given key in the server: sends a set request for
    /// `key` and `value` through `exchange` and reports the server's answer.
    pub fn set<F: FnOnce(Request) -> Result<SetResponse>>(
        &mut self,
        key: String,
        value: String,
        exchange: F,
    ) -> (r: Result<()>)
        requires
            exchange.requires(((Request::SetValue { key: key, value: value }),)),
        ensures
            exists|reply: Result<SetResponse>|
                exchange.ensures(((Request::SetValue { key: key, value: value }),), reply) && r
                    == set_outcome(reply),
    {
        let reply = exchange(Request::SetValue { key, value });
        set_reply(reply)
    }

    /// Removes a given key in the server: sends a remove request for `key`
    /// through `exchange` and reports the server's answer, `KeyNotFound`
    /// when the server has no such key.
    pub fn remove<F: FnOnce(Request) -> Result<RemoveResponse>>(
        &mut self,
        key: String,
        exchange: F,
    ) -> (r: Result<()>)
        requires
            exchange.requires(((Request::Remove { key: key }),)),
        ensures
            exists|reply: Result<RemoveResponse>|
                exchange.ensures(((Request::Remove { key: key }),), reply) && r == remove_outcome(
                    reply,
                ),
    {
        let reply = exchange(Request::Remove { key });
        remove_reply(reply)
    }
}

} // verus!
