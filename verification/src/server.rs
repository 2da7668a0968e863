//! The server of the key/value store: it answers each request with what
//! its storage engine gives back.

use vstd::prelude::*;
use crate::common::{
    answers_get, answers_remove, answers_set, GetResponse, RemoveResponse, Request, Response,
    SetResponse,
};
use crate::engines::KvsEngine;

verus! {

/// The server of a key value store.
pub struct KvsServer<E: KvsEngine> {
    engine: E,
}

impl<E: KvsEngine> KvsServer<E> {
    /// The engine that serves the requests.
    pub closed spec fn engine(&self) -> E {
        self.engine
    }

    /// Creates a `KvsServer` with a given storage engine.
    pub fn new(e: E) -> (s: KvsServer<E>)
        ensures
            s.engine() == e,
    {
        KvsServer { engine: e }
    }

    /// Answers one request: the engine performs the request's operation on
    /// its key (and value), and the response reports what that call gave
    /// back, the value or the error's message.
    pub fn handle(&mut self, req: Request) -> (resp: Response)
        ensures
            match req {
                Request::Get { key } => resp matches Response::Get(g) && exists|r|
                    answers_get(r, g) && E::get_ensures(
                        old(self).engine(),
                        key@,
                        r,
                        final(self).engine(),
                    ),
                Request::SetValue { key, value } => resp matches Response::SetValue(s) && exists|
                    r,
                | answers_set(r, s) && E::set_ensures(
                    old(self).engine(),
                    key@,
                    value@,
                    r,
                    final(self).engine(),
                ),
                Request::Remove { key } => resp matches Response::Remove(m) && exists|r|
                    answers_remove(r, m) && E::remove_ensures(
                        old(self).engine(),
                        key@,
                        r,
                        final(self).engine(),
                    ),
            },
    {
        match req {
            Request::Get { key } => {
                let r = self.engine.get(key);
                Response::Get(GetResponse::from_result(r))
            },
            Request::SetValue { key, value } => {
                let r = self.engine.set(key, value);
                Response::SetValue(SetResponse::from_result(r))
            },
            Request::Remove { key } => {
                let r = self.engine.remove(key);
                Response::Remove(RemoveResponse::from_result(r))
            },
        }
    }
}

/// The engine a server starts with, given the engine asked for on the
/// command line and the one recorded in the data directory: the one asked
/// for, else the recorded one, else `kvs`. `None` when both are given and
/// differ, for data written by one engine cannot be read by the other.
pub fn select_engine(requested: Option<String>, recorded: Option<String>) -> (r: Option<String>)
    ensures
        match (requested, recorded) {
            (None, None) => r matches Some(e) && e@ == "kvs"@,
            (None, Some(old)) => r == Some(old),
            (Some(new), None) => r == Some(new),
            (Some(new), Some(old)) => if new@ == old@ {
                r == Some(new)
            } else {
                r is None
            },
        },
{
    match requested {
        None => match recorded {
            Some(old) => Some(old),
            None => Some("kvs".to_owned()),
        },
        Some(new) => match recorded {
            Some(old) => {
                if old == new {
                    Some(new)
                } else {
                    None
                }
            },
            None => Some(new),
        },
    }
}

/// Whether `engine` names the log-structured engine of this crate.
pub fn is_kvs_engine(engine: &String) -> (b: bool)
    ensures
        b == (engine@ == "kvs"@),
{
    *engine == "kvs".to_owned()
}

} // verus!
