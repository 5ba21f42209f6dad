use ngram::message::{Request, Response};

fn round_trip_request(r: Request) {
    let bytes = r.to_bytes();
    assert_eq!(Request::from_bytes(&bytes), Some(r));
}

fn round_trip_response(r: Response) {
    let bytes = r.to_bytes();
    assert_eq!(Response::from_bytes(&bytes), Some(r));
}

#[test]
fn publish_request_bytes() {
    let r = Request::Publish { doc: "ab".to_string() };
    assert_eq!(r.to_bytes(), vec![1u8, 0, 0, 0, 2, b'a', b'b']);
}

#[test]
fn search_request_bytes_multibyte_text() {
    let r = Request::Search { word: "é".to_string() };
    assert_eq!(r.to_bytes(), vec![2u8, 0, 0, 0, 2, 0xC3, 0xA9]);
}

#[test]
fn retrieve_request_bytes() {
    let r = Request::Retrieve { id: 0x0102_0304_0506_0708 };
    assert_eq!(r.to_bytes(), vec![3u8, 1, 2, 3, 4, 5, 6, 7, 8]);
}

#[test]
fn response_bytes() {
    assert_eq!(Response::PublishSuccess(258).to_bytes(), vec![1u8, 0, 0, 0, 0, 0, 0, 1, 2]);
    assert_eq!(
        Response::SearchSuccess(vec![1, 2]).to_bytes(),
        vec![2u8, 0, 0, 0, 2, 0, 0, 0, 0, 0, 0, 0, 1, 0, 0, 0, 0, 0, 0, 0, 2]
    );
    assert_eq!(
        Response::RetrieveSuccess("hi".to_string()).to_bytes(),
        vec![3u8, 0, 0, 0, 2, b'h', b'i']
    );
    assert_eq!(Response::Failure.to_bytes(), vec![4u8]);
}

#[test]
fn request_round_trips() {
    round_trip_request(Request::Publish { doc: "the quick brown fox".to_string() });
    round_trip_request(Request::Publish { doc: String::new() });
    round_trip_request(Request::Search { word: "naïve".to_string() });
    round_trip_request(Request::Retrieve { id: 0 });
    round_trip_request(Request::Retrieve { id: usize::MAX });
}

#[test]
fn response_round_trips() {
    round_trip_response(Response::PublishSuccess(7));
    round_trip_response(Response::SearchSuccess(vec![]));
    round_trip_response(Response::SearchSuccess(vec![0, 5, usize::MAX]));
    round_trip_response(Response::RetrieveSuccess("apple tart".to_string()));
    round_trip_response(Response::Failure);
}

#[test]
fn unknown_tag_is_rejected() {
    assert_eq!(Request::from_bytes(&[0xFF]), None);
    assert_eq!(Response::from_bytes(&[0xFF]), None);
    assert_eq!(Request::from_bytes(&[]), None);
    assert_eq!(Response::from_bytes(&[]), None);
}

#[test]
fn truncated_or_padded_is_rejected() {
    assert_eq!(Request::from_bytes(&[1, 0, 0, 0, 3, b'a', b'b']), None);
    assert_eq!(Request::from_bytes(&[1, 0, 0, 0, 1, b'a', b'b']), None);
    assert_eq!(Request::from_bytes(&[3, 0, 0, 0, 0, 0, 0, 0]), None);
    assert_eq!(Response::from_bytes(&[2, 0, 0, 0, 1, 0, 0, 0]), None);
    assert_eq!(Response::from_bytes(&[4, 0]), None);
}

#[test]
fn invalid_utf8_is_rejected() {
    assert_eq!(Request::from_bytes(&[1, 0, 0, 0, 1, 0xFF]), None);
    assert_eq!(Response::from_bytes(&[3, 0, 0, 0, 2, 0xC3, 0x28]), None);
    assert_eq!(
        Request::from_bytes(&[2, 0, 0, 0, 2, 0xC3, 0xA9]),
        Some(Request::Search { word: "é".to_string() })
    );
}

#[test]
fn request_frame_lengths() {
    let bytes = Request::Publish { doc: "abc".to_string() }.to_bytes();
    assert_eq!(Request::bytes_needed(&[]), Some(1));
    assert_eq!(Request::bytes_needed(&bytes[..1]), Some(4));
    assert_eq!(Request::bytes_needed(&bytes[..5]), Some(3));
    assert_eq!(Request::bytes_needed(&bytes), Some(0));
    assert_eq!(Request::bytes_needed(&[3]), Some(8));
    assert_eq!(Request::bytes_needed(&[0xFF]), None);
}

#[test]
fn response_frame_lengths() {
    let bytes = Response::SearchSuccess(vec![4, 9]).to_bytes();
    assert_eq!(Response::bytes_needed(&bytes[..3]), Some(2));
    assert_eq!(Response::bytes_needed(&bytes[..5]), Some(16));
    assert_eq!(Response::bytes_needed(&bytes), Some(0));
    assert_eq!(Response::bytes_needed(&[1]), Some(8));
    assert_eq!(Response::bytes_needed(&[4]), Some(0));
    assert_eq!(Response::bytes_needed(&[9]), None);
}

#[test]
fn fits_wire_small_values() {
    assert!(Request::Publish { doc: "x".to_string() }.fits_wire());
    assert!(Response::SearchSuccess(vec![1, 2, 3]).fits_wire());
    assert!(Response::Failure.fits_wire());
}
