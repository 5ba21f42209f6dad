use ngram::database::Database;
use ngram::message::{Request, Response};
use ngram::server::{handle_connection, process_message};

fn exchange(db: &mut Database, request: Request) -> Response {
    let reply = handle_connection(db, &request.to_bytes());
    Response::from_bytes(&reply).expect("reply decodes")
}

#[test]
fn scenario_publish_search_retrieve() {
    let mut db = Database::new();
    let doc = "the quick brown fox".to_string();
    assert_eq!(exchange(&mut db, Request::Publish { doc: doc.clone() }), Response::PublishSuccess(0));
    assert_eq!(
        exchange(&mut db, Request::Search { word: "fox".to_string() }),
        Response::SearchSuccess(vec![0])
    );
    assert_eq!(exchange(&mut db, Request::Retrieve { id: 0 }), Response::RetrieveSuccess(doc));
}

#[test]
fn scenario_two_documents() {
    let mut db = Database::new();
    assert_eq!(
        exchange(&mut db, Request::Publish { doc: "apple pie".to_string() }),
        Response::PublishSuccess(0)
    );
    assert_eq!(
        exchange(&mut db, Request::Publish { doc: "apple tart".to_string() }),
        Response::PublishSuccess(1)
    );
    match exchange(&mut db, Request::Search { word: "apple".to_string() }) {
        Response::SearchSuccess(mut ids) => {
            ids.sort();
            assert_eq!(ids, vec![0, 1]);
        }
        other => panic!("unexpected {:?}", other),
    }
    assert_eq!(exchange(&mut db, Request::Retrieve { id: 2 }), Response::Failure);
}

#[test]
fn scenario_malformed_request() {
    let mut db = Database::new();
    assert_eq!(handle_connection(&mut db, &[0xFF]), vec![4u8]);
    assert_eq!(handle_connection(&mut db, &[]), vec![4u8]);
    assert_eq!(handle_connection(&mut db, &[1, 0, 0, 0, 9, b'a']), vec![4u8]);
    assert_eq!(db.retrieve(0), None);
    assert_eq!(
        exchange(&mut db, Request::Publish { doc: "still works".to_string() }),
        Response::PublishSuccess(0)
    );
}

#[test]
fn process_message_dispatches() {
    let mut db = Database::new();
    assert_eq!(
        process_message(&mut db, Request::Publish { doc: "a b".to_string() }),
        Response::PublishSuccess(0)
    );
    assert_eq!(
        process_message(&mut db, Request::Search { word: "b".to_string() }),
        Response::SearchSuccess(vec![0])
    );
    assert_eq!(
        process_message(&mut db, Request::Retrieve { id: 0 }),
        Response::RetrieveSuccess("a b".to_string())
    );
    assert_eq!(process_message(&mut db, Request::Retrieve { id: 1 }), Response::Failure);
}
