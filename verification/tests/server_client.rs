use kvs::client::{get_reply, remove_reply, set_reply};
use kvs::memory::KvStore as MemoryStore;
use kvs::server::{is_kvs_engine, select_engine};
use kvs::{
    GetResponse, KvsClient, KvsEngine, KvsError, KvsServer, RemoveResponse, Request, Response,
    SetResponse,
};

fn server() -> KvsServer<MemoryStore> {
    KvsServer::new(MemoryStore::new())
}

#[test]
fn server_answers_set_get_remove() {
    let mut s = server();
    let r = s.handle(Request::SetValue { key: "k".to_owned(), value: "v".to_owned() });
    assert!(matches!(r, Response::SetValue(SetResponse::Success)));
    let r = s.handle(Request::Get { key: "k".to_owned() });
    assert!(matches!(r, Response::Get(GetResponse::Success(Some(ref v))) if v == "v"));
    let r = s.handle(Request::Remove { key: "k".to_owned() });
    assert!(matches!(r, Response::Remove(RemoveResponse::Success)));
    let r = s.handle(Request::Get { key: "k".to_owned() });
    assert!(matches!(r, Response::Get(GetResponse::Success(None))));
}

#[test]
fn server_reports_engine_errors_as_text() {
    let mut s = server();
    let r = s.handle(Request::Remove { key: "missing".to_owned() });
    assert!(matches!(r, Response::Remove(RemoveResponse::Failure(ref m)) if m == "Key not found"));
}

#[test]
fn responses_from_results() {
    assert!(matches!(GetResponse::from_result(Ok(None)), GetResponse::Success(None)));
    assert!(matches!(
        GetResponse::from_result(Err(KvsError::UnexpectedCommandType)),
        GetResponse::Failure(ref m) if m == "Unexpected command type"
    ));
    assert!(matches!(SetResponse::from_result(Ok(())), SetResponse::Success));
    assert!(matches!(
        SetResponse::from_result(Err(KvsError::Io("disk full".to_owned()))),
        SetResponse::Failure(ref m) if m == "disk full"
    ));
    assert!(matches!(
        RemoveResponse::from_result(Err(KvsError::Serde("bad json".to_owned()))),
        RemoveResponse::Failure(ref m) if m == "bad json"
    ));
}

#[test]
fn error_messages() {
    assert_eq!(KvsError::KeyNotFound.message(), "Key not found");
    assert_eq!(KvsError::UnexpectedCommandType.message(), "Unexpected command type");
    assert_eq!(KvsError::Io("e".to_owned()).message(), "e");
    assert_eq!(KvsError::Serde("s".to_owned()).message(), "s");
    assert_eq!(KvsError::StringError("m".to_owned()).message(), "m");
    assert!(matches!(KvsError::from_message("Key not found".to_owned()), KvsError::KeyNotFound));
    assert!(matches!(KvsError::from_message("other".to_owned()), KvsError::StringError(_)));
}

#[test]
fn engine_selection() {
    assert_eq!(select_engine(None, None), Some("kvs".to_owned()));
    assert_eq!(select_engine(None, Some("sled".to_owned())), Some("sled".to_owned()));
    assert_eq!(select_engine(Some("sled".to_owned()), None), Some("sled".to_owned()));
    assert_eq!(select_engine(Some("kvs".to_owned()), Some("kvs".to_owned())), Some("kvs".to_owned()));
    assert_eq!(select_engine(Some("kvs".to_owned()), Some("sled".to_owned())), None);
    assert!(is_kvs_engine(&"kvs".to_owned()));
    assert!(!is_kvs_engine(&"sled".to_owned()));
    assert!(!is_kvs_engine(&"kvs\n".to_owned()));
}

fn get_via(server: &mut KvsServer<MemoryStore>, req: Request) -> kvs::Result<GetResponse> {
    match server.handle(req) {
        Response::Get(r) => Ok(r),
        _ => Err(KvsError::StringError("wrong response".to_owned())),
    }
}

fn set_via(server: &mut KvsServer<MemoryStore>, req: Request) -> kvs::Result<SetResponse> {
    match server.handle(req) {
        Response::SetValue(r) => Ok(r),
        _ => Err(KvsError::StringError("wrong response".to_owned())),
    }
}

fn remove_via(server: &mut KvsServer<MemoryStore>, req: Request) -> kvs::Result<RemoveResponse> {
    match server.handle(req) {
        Response::Remove(r) => Ok(r),
        _ => Err(KvsError::StringError("wrong response".to_owned())),
    }
}

#[test]
fn client_talks_to_server() {
    let mut s = server();
    let mut client = KvsClient::new();
    assert_eq!(client.get("k".to_owned(), |req| get_via(&mut s, req)).unwrap(), None);
    client.set("k".to_owned(), "v".to_owned(), |req| set_via(&mut s, req)).unwrap();
    assert_eq!(client.get("k".to_owned(), |req| get_via(&mut s, req)).unwrap(), Some("v".to_owned()));
    client.remove("k".to_owned(), |req| remove_via(&mut s, req)).unwrap();
    assert!(matches!(
        client.remove("k".to_owned(), |req| remove_via(&mut s, req)),
        Err(KvsError::KeyNotFound)
    ));
    assert_eq!(client.get("k".to_owned(), |req| get_via(&mut s, req)).unwrap(), None);
}

#[test]
fn client_sends_the_request_for_its_operation() {
    let mut client = KvsClient::new();
    let mut seen = Vec::new();
    let _ = client.set("a".to_owned(), "b".to_owned(), |req| {
        seen.push(format!("{:?}", req));
        Ok(SetResponse::Success)
    });
    let _ = client.get("c".to_owned(), |req| {
        seen.push(format!("{:?}", req));
        Ok(GetResponse::Success(None))
    });
    let _ = client.remove("d".to_owned(), |req| {
        seen.push(format!("{:?}", req));
        Ok(RemoveResponse::Success)
    });
    assert_eq!(
        seen,
        vec![
            "SetValue { key: \"a\", value: \"b\" }".to_owned(),
            "Get { key: \"c\" }".to_owned(),
            "Remove { key: \"d\" }".to_owned()
        ]
    );
}

#[test]
fn client_reports_server_failures() {
    assert!(matches!(
        remove_reply(Ok(RemoveResponse::Failure("Key not found".to_owned()))),
        Err(KvsError::KeyNotFound)
    ));
    assert!(matches!(
        get_reply(Ok(GetResponse::Failure("Unexpected command type".to_owned()))),
        Err(KvsError::UnexpectedCommandType)
    ));
    assert!(matches!(
        set_reply(Ok(SetResponse::Failure("disk full".to_owned()))),
        Err(KvsError::StringError(ref m)) if m == "disk full"
    ));
    assert!(matches!(
        get_reply(Err(KvsError::Io("closed".to_owned()))),
        Err(KvsError::Io(ref m)) if m == "closed"
    ));
    assert_eq!(get_reply(Ok(GetResponse::Success(Some("x".to_owned())))).unwrap(), Some("x".to_owned()));
    assert!(set_reply(Ok(SetResponse::Success)).is_ok());
}

#[test]
fn memory_engine_relations() {
    let mut store = MemoryStore::new();
    assert!(KvsEngine::set(&mut store, "k".to_owned(), "v".to_owned()).is_ok());
    assert_eq!(KvsEngine::get(&mut store, "k".to_owned()).unwrap(), Some("v".to_owned()));
    assert!(KvsEngine::remove(&mut store, "k".to_owned()).is_ok());
    assert!(matches!(KvsEngine::remove(&mut store, "k".to_owned()), Err(KvsError::KeyNotFound)));
}
