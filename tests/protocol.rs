use kvs::error::KvsError;
use kvs::protocol::{
    expect_get, expect_put, expect_remove, frame, get_response, put_response, remove_response,
    unframe, GetResponse, RemoveResponse, Request, Response, SetResponse,
};

#[test]
fn frames_round_trip() {
    let f = frame(b"hello").unwrap();
    assert_eq!(f, vec![0, 0, 0, 5, b'h', b'e', b'l', b'l', b'o']);
    let mut stream = f.clone();
    stream.extend_from_slice(&frame(b"").unwrap());
    let (p, used) = unframe(&stream).unwrap();
    assert_eq!(p, b"hello".to_vec());
    assert_eq!(used, 9);
    let (p2, used2) = unframe(&stream[used..]).unwrap();
    assert_eq!(p2, Vec::<u8>::new());
    assert_eq!(used2, 4);
    assert_eq!(unframe(&f[..8]), None);
    assert_eq!(unframe(&[0, 0]), None);
}

#[test]
fn set_then_get_over_one_connection() {
    let requests = vec![
        Request::Put { key: "a".to_owned(), value: "1".to_owned() },
        Request::Get { key: "a".to_owned() },
    ];
    let mut store: Option<String> = None;
    let mut responses = Vec::new();
    for req in requests {
        let resp = match req {
            Request::Put { value, .. } => {
                store = Some(value);
                put_response(Ok(()))
            }
            Request::Get { .. } => get_response(Ok(store.clone())),
            Request::Remove { .. } => remove_response(Ok(())),
        };
        responses.push(resp);
    }
    assert_eq!(responses, vec![Response::Put, Response::Get(Some("1".to_owned()))]);
    assert_eq!(expect_put(responses[0].clone()), Ok(()));
    assert_eq!(expect_get(responses[1].clone()), Ok(Some("1".to_owned())));
}

#[test]
fn errors_become_messages() {
    assert_eq!(
        remove_response(Err(KvsError::KeyNotFound)),
        Response::Failed("Key not found".to_owned())
    );
    assert_eq!(
        get_response(Err(KvsError::Io("disk gone".to_owned()))),
        Response::Failed("IO error: disk gone".to_owned())
    );
    assert_eq!(KvsError::UnexpectedCommandType.message(), "Unexpected command type");
    assert_eq!(KvsError::Serde("eof".to_owned()).message(), "serde_json error: eof");
    assert_eq!(KvsError::StringError("m".to_owned()).message(), "m");
}

#[test]
fn mismatched_responses_are_errors() {
    let unexpected = Err(KvsError::StringError("Invalid response".to_owned()));
    assert_eq!(expect_put(Response::Get(None)), unexpected);
    assert_eq!(expect_remove(Response::Put), unexpected);
    assert_eq!(expect_get(Response::Remove), Err(KvsError::StringError("Invalid response".to_owned())));
    assert_eq!(
        expect_remove(Response::Failed("Key not found".to_owned())),
        Err(KvsError::StringError("Key not found".to_owned()))
    );
    assert_eq!(expect_remove(Response::Remove), Ok(()));
}

#[test]
fn per_kind_responses() {
    assert_eq!(GetResponse::Found(None).into_result(), Ok(None));
    assert_eq!(
        GetResponse::Failed("x".to_owned()).into_result(),
        Err(KvsError::StringError("x".to_owned()))
    );
    assert_eq!(SetResponse::Done.into_result(), Ok(()));
    assert_eq!(
        RemoveResponse::Failed("Key not found".to_owned()).into_result(),
        Err(KvsError::StringError("Key not found".to_owned()))
    );
}
