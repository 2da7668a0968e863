//! The requests a client sends to the server and the responses it gets.

use vstd::prelude::*;
use crate::error::{error_message, KvsError, Result};

verus! {

/// A request to the server.
#[derive(Debug)]
pub enum Request {
    /// Get the value of `key`.
    Get { key: String },
    /// Set `key` to `value`.
    SetValue { key: String, value: String },
    /// Remove `key`.
    Remove { key: String },
}

/// The response to a get request.
#[derive(Debug)]
pub enum GetResponse {
    Success(Option<String>),
    Failure(String),
}

/// The response to a set request.
#[derive(Debug)]
pub enum SetResponse {
    Success,
    Failure(String),
}

/// The response to a remove request.
#[derive(Debug)]
pub enum RemoveResponse {
    Success,
    Failure(String),
}

/// The response to any request.
#[derive(Debug)]
pub enum Response {
    Get(GetResponse),
    SetValue(SetResponse),
    Remove(RemoveResponse),
}

/// `resp` reports the engine's answer `r` to a get.
pub open spec fn answers_get(r: Result<Option<String>>, resp: GetResponse) -> bool {
    match r {
        Ok(v) => resp == GetResponse::Success(v),
        Err(e) => resp matches GetResponse::Failure(m) && m@ == error_message(e),
    }
}

/// `resp` reports the engine's answer `r` to a set.
pub open spec fn answers_set(r: Result<()>, resp: SetResponse) -> bool {
    match r {
        Ok(_) => resp == SetResponse::Success,
        Err(e) => resp matches SetResponse::Failure(m) && m@ == error_message(e),
    }
}

/// `resp` reports the engine's answer `r` to a remove.
pub open spec fn answers_remove(r: Result<()>, resp: RemoveResponse) -> bool {
    match r {
        Ok(_) => resp == RemoveResponse::Success,
        Err(e) => resp matches RemoveResponse::Failure(m) && m@ == error_message(e),
    }
}

/// A response reports failure exactly when the engine failed, and then
/// carries the error's message, whatever kind of error it was; a success
/// response reports exactly the engine's value. No error is ever answered
/// as a success (a value, an absent key, or a done remove).
pub proof fn law_responses_report_engine_answers(
    get: Result<Option<String>>,
    get_resp: GetResponse,
    set: Result<()>,
    set_resp: SetResponse,
    remove: Result<()>,
    remove_resp: RemoveResponse,
)
    ensures
        answers_get(get, get_resp) ==> (get is Err <==> get_resp is Failure),
        answers_get(get, get_resp) && get is Err ==> (get_resp matches GetResponse::Failure(m)
            && m@ == error_message(get->Err_0)),
        answers_get(get, get_resp) && get_resp is Success ==> get == Ok::<Option<String>, KvsError>(
            get_resp->Success_0,
        ),
        answers_set(set, set_resp) ==> (set is Err <==> set_resp is Failure),
        answers_set(set, set_resp) && set is Err ==> (set_resp matches SetResponse::Failure(m)
            && m@ == error_message(set->Err_0)),
        answers_remove(remove, remove_resp) ==> (remove is Err <==> remove_resp is Failure),
        answers_remove(remove, remove_resp) && remove is Err ==> (
        remove_resp matches RemoveResponse::Failure(m) && m@ == error_message(remove->Err_0)),
{
}

impl GetResponse {
    /// The response that reports the engine's answer `r`: the value, or the
    /// error's message.
    pub fn from_result(r: Result<Option<String>>) -> (resp: GetResponse)
        ensures
            answers_get(r, resp),
            r is Err ==> (resp matches GetResponse::Failure(m) && m@ == error_message(r->Err_0)),
            r is Ok ==> resp == GetResponse::Success(r->Ok_0),
    {
        match r {
            Ok(v) => GetResponse::Success(v),
            Err(e) => GetResponse::Failure(e.message()),
        }
    }
}

impl SetResponse {
    /// The response that reports the engine's answer `r`.
    pub fn from_result(r: Result<()>) -> (resp: SetResponse)
        ensures
            answers_set(r, resp),
            r is Err ==> (resp matches SetResponse::Failure(m) && m@ == error_message(r->Err_0)),
            r is Ok <==> resp is Success,
    {
        match r {
            Ok(_) => SetResponse::Success,
            Err(e) => SetResponse::Failure(e.message()),
        }
    }
}

impl RemoveResponse {
    /// The response that reports the engine's answer `r`.
    pub fn from_result(r: Result<()>) -> (resp: RemoveResponse)
        ensures
            answers_remove(r, resp),
            r is Err ==> (resp matches RemoveResponse::Failure(m) && m@ == error_message(r->Err_0)),
            r is Ok <==> resp is Success,
    {
        match r {
            Ok(_) => RemoveResponse::Success,
            Err(e) => RemoveResponse::Failure(e.message()),
        }
    }
}

} // verus!
