//! The wire protocol: requests and responses and their byte encodings.
//!
//! Every message is one tag byte followed by its payload. Integers are
//! big-endian; text is a 32-bit length followed by that many UTF-8 bytes.
use vstd::prelude::*;
use vstd::utf8::{decode_utf8, encode_utf8, valid_utf8};
use crate::bytes::{
    be32, be32_value, be64, be64_value, lemma_be32_value_of_bytes, lemma_be64_value_of_bytes,
    push_all, push_be32, push_be64, read_be32, read_be64,
};

verus! {

/// A request from the client to the server.
#[derive(Debug, PartialEq, Eq, Clone)]
pub enum Request {
    /// Add the document `doc` to the archive.
    Publish { doc: String },
    /// Search for the word `word` in the archive.
    Search { word: String },
    /// Retrieve the document with the identifier `id`.
    Retrieve { id: usize },
}

/// A response from the server to the client.
#[derive(Debug, PartialEq, Eq, Clone)]
pub enum Response {
    /// The document was added under the given identifier.
    PublishSuccess(usize),
    /// The identifiers of the documents that contain the searched word.
    SearchSuccess(Vec<usize>),
    /// The text of the retrieved document.
    RetrieveSuccess(String),
    /// The request failed.
    Failure,
}

/// The mathematical value of a [`Request`].
pub enum RequestView {
    Publish(Seq<char>),
    Search(Seq<char>),
    Retrieve(usize),
}

/// The mathematical value of a [`Response`].
pub enum ResponseView {
    PublishSuccess(usize),
    SearchSuccess(Seq<usize>),
    RetrieveSuccess(Seq<char>),
    Failure,
}

impl View for Request {
    type V = RequestView;

    open spec fn view(&self) -> RequestView {
        match self {
            Request::Publish { doc } => RequestView::Publish(doc@),
            Request::Search { word } => RequestView::Search(word@),
            Request::Retrieve { id } => RequestView::Retrieve(*id),
        }
    }
}

impl View for Response {
    type V = ResponseView;

    open spec fn view(&self) -> ResponseView {
        match self {
            Response::PublishSuccess(id) => ResponseView::PublishSuccess(*id),
            Response::SearchSuccess(ids) => ResponseView::SearchSuccess(ids@),
            Response::RetrieveSuccess(doc) => ResponseView::RetrieveSuccess(doc@),
            Response::Failure => ResponseView::Failure,
        }
    }
}

/// Tag bytes of the requests.
pub const TAG_PUBLISH: u8 = 1;
pub const TAG_SEARCH: u8 = 2;
pub const TAG_RETRIEVE: u8 = 3;

/// Tag bytes of the responses.
pub const TAG_PUBLISH_SUCCESS: u8 = 1;
pub const TAG_SEARCH_SUCCESS: u8 = 2;
pub const TAG_RETRIEVE_SUCCESS: u8 = 3;
pub const TAG_FAILURE: u8 = 4;

// ---------------------------------------------------------------------------
// Encoding, as mathematics
// ---------------------------------------------------------------------------

/// A text fits a frame when its UTF-8 length fits the 32-bit length field.
pub open spec fn text_fits(s: Seq<char>) -> bool {
    encode_utf8(s).len() <= u32::MAX
}

/// A text field: the 32-bit length of the UTF-8 bytes, then the bytes.
pub open spec fn text_field(s: Seq<char>) -> Seq<u8> {
    be32(encode_utf8(s).len() as u32) + encode_utf8(s)
}

/// The identifiers, eight big-endian bytes each, in order.
pub open spec fn ids_bytes(ids: Seq<usize>) -> Seq<u8>
    decreases ids.len(),
{
    if ids.len() == 0 {
        seq![]
    } else {
        ids_bytes(ids.drop_last()) + be64(ids.last() as u64)
    }
}

/// A request can be encoded when its text fits the length field.
pub open spec fn request_fits(v: RequestView) -> bool {
    match v {
        RequestView::Publish(s) => text_fits(s),
        RequestView::Search(s) => text_fits(s),
        RequestView::Retrieve(_) => true,
    }
}

/// A response can be encoded when its text or its count fits the length field.
pub open spec fn response_fits(v: ResponseView) -> bool {
    match v {
        ResponseView::SearchSuccess(ids) => ids.len() <= u32::MAX,
        ResponseView::RetrieveSuccess(s) => text_fits(s),
        _ => true,
    }
}

/// The bytes of a request.
pub open spec fn encode_request(v: RequestView) -> Seq<u8> {
    match v {
        RequestView::Publish(s) => seq![TAG_PUBLISH] + text_field(s),
        RequestView::Search(s) => seq![TAG_SEARCH] + text_field(s),
        RequestView::Retrieve(id) => seq![TAG_RETRIEVE] + be64(id as u64),
    }
}

/// The bytes of a response.
pub open spec fn encode_response(v: ResponseView) -> Seq<u8> {
    match v {
        ResponseView::PublishSuccess(id) => seq![TAG_PUBLISH_SUCCESS] + be64(id as u64),
        ResponseView::SearchSuccess(ids) => seq![TAG_SEARCH_SUCCESS] + be32(ids.len() as u32)
            + ids_bytes(ids),
        ResponseView::RetrieveSuccess(s) => seq![TAG_RETRIEVE_SUCCESS] + text_field(s),
        ResponseView::Failure => seq![TAG_FAILURE],
    }
}

// ---------------------------------------------------------------------------
// Decoding, as mathematics
// ---------------------------------------------------------------------------

/// The text held by `b` when `b` is exactly one text field.
pub open spec fn decode_text(b: Seq<u8>) -> Option<Seq<char>> {
    if b.len() >= 4 && b.len() == 4 + be32_value(b.subrange(0, 4)) && valid_utf8(
        b.subrange(4, b.len() as int),
    ) {
        Some(decode_utf8(b.subrange(4, b.len() as int)))
    } else {
        None
    }
}

/// The identifiers held by `b`, eight bytes each; a short tail is ignored.
pub open spec fn decode_ids(b: Seq<u8>) -> Seq<usize>
    decreases b.len(),
{
    if b.len() < 8 {
        seq![]
    } else {
        decode_ids(b.subrange(0, b.len() - 8)).push(
            be64_value(b.subrange(b.len() - 8, b.len() as int)) as usize,
        )
    }
}

/// The request that `b` is exactly the encoding of, if any.
pub open spec fn decode_request(b: Seq<u8>) -> Option<RequestView> {
    if b.len() == 0 {
        None
    } else {
        let rest = b.subrange(1, b.len() as int);
        if b[0] == TAG_PUBLISH {
            match decode_text(rest) {
                Some(s) => Some(RequestView::Publish(s)),
                None => None,
            }
        } else if b[0] == TAG_SEARCH {
            match decode_text(rest) {
                Some(s) => Some(RequestView::Search(s)),
                None => None,
            }
        } else if b[0] == TAG_RETRIEVE && rest.len() == 8 {
            Some(RequestView::Retrieve(be64_value(rest) as usize))
        } else {
            None
        }
    }
}

/// The response that `b` is exactly the encoding of, if any.
pub open spec fn decode_response(b: Seq<u8>) -> Option<ResponseView> {
    if b.len() == 0 {
        None
    } else {
        let rest = b.subrange(1, b.len() as int);
        if b[0] == TAG_PUBLISH_SUCCESS && rest.len() == 8 {
            Some(ResponseView::PublishSuccess(be64_value(rest) as usize))
        } else if b[0] == TAG_SEARCH_SUCCESS && rest.len() >= 4 && rest.len() == 4 + 8
            * be32_value(rest.subrange(0, 4)) {
            Some(ResponseView::SearchSuccess(decode_ids(rest.subrange(4, rest.len() as int))))
        } else if b[0] == TAG_RETRIEVE_SUCCESS {
            match decode_text(rest) {
                Some(s) => Some(ResponseView::RetrieveSuccess(s)),
                None => None,
            }
        } else if b[0] == TAG_FAILURE && rest.len() == 0 {
            Some(ResponseView::Failure)
        } else {
            None
        }
    }
}

// ---------------------------------------------------------------------------
// Round trip
// ---------------------------------------------------------------------------

proof fn lemma_text_round_trip(s: Seq<char>)
    requires
        text_fits(s),
    ensures
        decode_text(text_field(s)) == Some(s),
        text_field(s).len() == 4 + encode_utf8(s).len(),
{
    let e = encode_utf8(s);
    let t = text_field(s);
    lemma_be32_value_of_bytes(e.len() as u32);
    assert(t.subrange(0, 4) =~= be32(e.len() as u32));
    assert(t.subrange(4, t.len() as int) =~= e);
    vstd::utf8::encode_utf8_valid_utf8(s);
    vstd::utf8::encode_utf8_decode_utf8(s);
}

proof fn lemma_ids_round_trip(ids: Seq<usize>)
    ensures
        ids_bytes(ids).len() == 8 * ids.len(),
        decode_ids(ids_bytes(ids)) == ids,
    decreases ids.len(),
{
    if ids.len() > 0 {
        let b = ids_bytes(ids);
        lemma_ids_round_trip(ids.drop_last());
        lemma_be64_value_of_bytes(ids.last() as u64);
        assert(b.subrange(0, b.len() - 8) =~= ids_bytes(ids.drop_last()));
        assert(b.subrange(b.len() - 8, b.len() as int) =~= be64(ids.last() as u64));
        assert(decode_ids(b) =~= ids);
    }
}

/// Decoding the encoding of any request that fits gives the request back.
pub proof fn lemma_request_round_trip(v: RequestView)
    requires
        request_fits(v),
    ensures
        decode_request(encode_request(v)) == Some(v),
{
    let b = encode_request(v);
    let rest = b.subrange(1, b.len() as int);
    match v {
        RequestView::Publish(s) => {
            assert(rest =~= text_field(s));
            lemma_text_round_trip(s);
        },
        RequestView::Search(s) => {
            assert(rest =~= text_field(s));
            lemma_text_round_trip(s);
        },
        RequestView::Retrieve(id) => {
            assert(rest =~= be64(id as u64));
            lemma_be64_value_of_bytes(id as u64);
        },
    }
}

/// Decoding the encoding of any response that fits gives the response back.
pub proof fn lemma_response_round_trip(v: ResponseView)
    requires
        response_fits(v),
    ensures
        decode_response(encode_response(v)) == Some(v),
{
    let b = encode_response(v);
    let rest = b.subrange(1, b.len() as int);
    match v {
        ResponseView::PublishSuccess(id) => {
            assert(rest =~= be64(id as u64));
            lemma_be64_value_of_bytes(id as u64);
        },
        ResponseView::SearchSuccess(ids) => {
            lemma_ids_round_trip(ids);
            lemma_be32_value_of_bytes(ids.len() as u32);
            assert(rest.subrange(0, 4) =~= be32(ids.len() as u32));
            assert(rest.subrange(4, rest.len() as int) =~= ids_bytes(ids));
        },
        ResponseView::RetrieveSuccess(s) => {
            assert(rest =~= text_field(s));
            lemma_text_round_trip(s);
        },
        ResponseView::Failure => {
            assert(rest.len() == 0);
        },
    }
}

// ---------------------------------------------------------------------------
// Executable encoding and decoding
// ---------------------------------------------------------------------------

/// Relies on `String::from_utf8`: it succeeds exactly on valid UTF-8, and the
/// string then holds the characters those bytes encode.
#[verifier::external_body]
fn string_from_utf8(b: Vec<u8>) -> (r: Option<String>)
    ensures
        match r {
            Some(s) => valid_utf8(b@) && s@ == decode_utf8(b@),
            None => !valid_utf8(b@),
        },
{
    String::from_utf8(b).ok()
}

/// The bytes of `b` from `start` up to `end`, as a vector.
fn copy_range(b: &[u8], start: usize, end: usize) -> (r: Vec<u8>)
    requires
        start <= end <= b@.len(),
    ensures
        r@ == b@.subrange(start as int, end as int),
{
    let mut r: Vec<u8> = Vec::new();
    let mut i: usize = start;
    while i < end
        invariant
            start <= i <= end <= b@.len(),
            r@ == b@.subrange(start as int, i as int),
        decreases end - i,
    {
        r.push(b[i]);
        i = i + 1;
        assert(r@ =~= b@.subrange(start as int, i as int));
    }
    r
}

/// Appends the text field of `s`.
fn push_text(out: &mut Vec<u8>, s: &str)
    requires
        text_fits(s@),
    ensures
        final(out)@ == old(out)@ + text_field(s@),
{
    let b = s.as_bytes();
    push_be32(out, b.len() as u32);
    push_all(out, b);
    assert(final(out)@ =~= old(out)@ + text_field(s@));
}

/// The text of the field that fills `b` from position 1 to its end.
fn read_text(b: &[u8]) -> (r: Option<String>)
    requires
        b@.len() >= 1,
    ensures
        match r {
            Some(s) => decode_text(b@.subrange(1, b@.len() as int)) == Some(s@),
            None => decode_text(b@.subrange(1, b@.len() as int)) is None,
        },
{
    let ghost rest = b@.subrange(1, b@.len() as int);
    if b.len() < 5 {
        return None;
    }
    let n = read_be32(b, 1);
    assert(rest.subrange(0, 4) =~= b@.subrange(1, 5));
    if b.len() - 5 != n as usize {
        return None;
    }
    let payload = copy_range(b, 5, b.len());
    assert(rest.subrange(4, rest.len() as int) =~= payload@);
    string_from_utf8(payload)
}

/// Whether a text can be written as a field: its UTF-8 length fits in 32 bits.
fn text_fits_exec(s: &str) -> (r: bool)
    ensures
        r == text_fits(s@),
{
    s.as_bytes().len() <= u32::MAX as usize
}

impl Request {
    /// Whether the request can be encoded: its text, if any, fits the length field.
    pub fn fits_wire(&self) -> (r: bool)
        ensures
            r == request_fits(self@),
    {
        match self {
            Request::Publish { doc } => text_fits_exec(doc.as_str()),
            Request::Search { word } => text_fits_exec(word.as_str()),
            Request::Retrieve { .. } => true,
        }
    }

    /// The bytes of the request.
    pub fn to_bytes(&self) -> (r: Vec<u8>)
        requires
            request_fits(self@),
        ensures
            r@ == encode_request(self@),
    {
        let mut r: Vec<u8> = Vec::new();
        match self {
            Request::Publish { doc } => {
                r.push(TAG_PUBLISH);
                push_text(&mut r, doc.as_str());
            },
            Request::Search { word } => {
                r.push(TAG_SEARCH);
                push_text(&mut r, word.as_str());
            },
            Request::Retrieve { id } => {
                r.push(TAG_RETRIEVE);
                push_be64(&mut r, *id as u64);
            },
        }
        assert(r@ =~= encode_request(self@));
        r
    }

    /// The request that `bytes` is exactly the encoding of; `None` when the
    /// tag is unknown, a length does not match, or a text is not UTF-8.
    pub fn from_bytes(bytes: &[u8]) -> (r: Option<Request>)
        ensures
            match r {
                Some(x) => decode_request(bytes@) == Some(x@),
                None => decode_request(bytes@) is None,
            },
    {
        if bytes.len() == 0 {
            return None;
        }
        let tag = bytes[0];
        if tag == TAG_PUBLISH {
            match read_text(bytes) {
                Some(doc) => Some(Request::Publish { doc }),
                None => None,
            }
        } else if tag == TAG_SEARCH {
            match read_text(bytes) {
                Some(word) => Some(Request::Search { word }),
                None => None,
            }
        } else if tag == TAG_RETRIEVE && bytes.len() == 9 {
            let id = read_be64(bytes, 1);
            assert(bytes@.subrange(1, 9) =~= bytes@.subrange(1, bytes@.len() as int));
            Some(Request::Retrieve { id: #[verifier::truncate] (id as usize) })
        } else {
            None
        }
    }
}

impl Response {
    /// Whether the response can be encoded: its text or its count fits the length field.
    pub fn fits_wire(&self) -> (r: bool)
        ensures
            r == response_fits(self@),
    {
        match self {
            Response::SearchSuccess(ids) => ids.len() <= u32::MAX as usize,
            Response::RetrieveSuccess(doc) => text_fits_exec(doc.as_str()),
            _ => true,
        }
    }

    /// The bytes of the response.
    pub fn to_bytes(&self) -> (r: Vec<u8>)
        requires
            response_fits(self@),
        ensures
            r@ == encode_response(self@),
    {
        let mut r: Vec<u8> = Vec::new();
        match self {
            Response::PublishSuccess(id) => {
                r.push(TAG_PUBLISH_SUCCESS);
                push_be64(&mut r, *id as u64);
            },
            Response::SearchSuccess(ids) => {
                r.push(TAG_SEARCH_SUCCESS);
                push_be32(&mut r, ids.len() as u32);
                let ghost head = r@;
                let mut i: usize = 0;
                while i < ids.len()
                    invariant
                        i <= ids@.len(),
                        r@ == head + ids_bytes(ids@.subrange(0, i as int)),
                    decreases ids@.len() - i,
                {
                    push_be64(&mut r, ids[i] as u64);
                    i = i + 1;
                    assert(ids@.subrange(0, i as int).drop_last() =~= ids@.subrange(
                        0,
                        i - 1,
                    ));
                    assert(r@ =~= head + ids_bytes(ids@.subrange(0, i as int)));
                }
                assert(ids@.subrange(0, ids@.len() as int) =~= ids@);
            },
            Response::RetrieveSuccess(doc) => {
                r.push(TAG_RETRIEVE_SUCCESS);
                push_text(&mut r, doc.as_str());
            },
            Response::Failure => {
                r.push(TAG_FAILURE);
            },
        }
        assert(r@ =~= encode_response(self@));
        r
    }

    /// The response that `bytes` is exactly the encoding of; `None` when the
    /// tag is unknown, a length does not match, or a text is not UTF-8.
    pub fn from_bytes(bytes: &[u8]) -> (r: Option<Response>)
        ensures
            match r {
                Some(x) => decode_response(bytes@) == Some(x@),
                None => decode_response(bytes@) is None,
            },
    {
        if bytes.len() == 0 {
            return None;
        }
        let ghost rest = bytes@.subrange(1, bytes@.len() as int);
        let tag = bytes[0];
        if tag == TAG_PUBLISH_SUCCESS && bytes.len() == 9 {
            let id = read_be64(bytes, 1);
            assert(bytes@.subrange(1, 9) =~= rest);
            Some(Response::PublishSuccess(#[verifier::truncate] (id as usize)))
        } else if tag == TAG_SEARCH_SUCCESS && bytes.len() >= 5 {
            let n = read_be32(bytes, 1);
            assert(rest.subrange(0, 4) =~= bytes@.subrange(1, 5));
            if (bytes.len() - 5) / 8 != n as usize || (bytes.len() - 5) % 8 != 0 {
                return None;
            }
            let ghost body = rest.subrange(4, rest.len() as int);
            let mut ids: Vec<usize> = Vec::new();
            let mut i: usize = 0;
            while i < n as usize
                invariant
                    i <= n,
                    8 * n + 5 <= bytes.len(),
                    bytes@.len() == 5 + 8 * n,
                    body == bytes@.subrange(5, bytes@.len() as int),
                    ids@ == decode_ids(body.subrange(0, 8 * i)),
                decreases n - i,
            {
                let pos: usize = 5 + 8 * i;
                let id = read_be64(bytes, pos);
                ids.push(#[verifier::truncate] (id as usize));
                i = i + 1;
                let ghost pre = body.subrange(0, 8 * i);
                assert(pre.subrange(0, pre.len() - 8) =~= body.subrange(0, 8 * (i - 1)));
                assert(pre.subrange(pre.len() - 8, pre.len() as int) =~= bytes@.subrange(
                    5 + 8 * (i - 1),
                    5 + 8 * i,
                ));
            }
            assert(body.subrange(0, 8 * n) =~= body);
            Some(Response::SearchSuccess(ids))
        } else if tag == TAG_RETRIEVE_SUCCESS {
            match read_text(bytes) {
                Some(doc) => Some(Response::RetrieveSuccess(doc)),
                None => None,
            }
        } else if tag == TAG_FAILURE && bytes.len() == 1 {
            Some(Response::Failure)
        } else {
            None
        }
    }
}

// ---------------------------------------------------------------------------
// Framing: how many bytes a reader of a stream still has to read
// ---------------------------------------------------------------------------

/// The length of the whole request frame, as far as its first bytes `b` tell
/// it; `None` once the tag is known to be unknown.
pub open spec fn request_frame_len(b: Seq<u8>) -> Option<int> {
    if b.len() == 0 {
        Some(1)
    } else if b[0] == TAG_PUBLISH || b[0] == TAG_SEARCH {
        if b.len() < 5 {
            Some(5)
        } else {
            Some(5 + be32_value(b.subrange(1, 5)))
        }
    } else if b[0] == TAG_RETRIEVE {
        Some(9)
    } else {
        None
    }
}

/// The length of the whole response frame, as far as its first bytes `b` tell
/// it; `None` once the tag is known to be unknown.
pub open spec fn response_frame_len(b: Seq<u8>) -> Option<int> {
    if b.len() == 0 {
        Some(1)
    } else if b[0] == TAG_PUBLISH_SUCCESS {
        Some(9)
    } else if b[0] == TAG_SEARCH_SUCCESS {
        if b.len() < 5 {
            Some(5)
        } else {
            Some(5 + 8 * be32_value(b.subrange(1, 5)))
        }
    } else if b[0] == TAG_RETRIEVE_SUCCESS {
        if b.len() < 5 {
            Some(5)
        } else {
            Some(5 + be32_value(b.subrange(1, 5)))
        }
    } else if b[0] == TAG_FAILURE {
        Some(1)
    } else {
        None
    }
}

/// How many bytes are missing from `have` bytes to reach `total`.
pub open spec fn missing(total: int, have: int) -> int {
    if total > have {
        total - have
    } else {
        0
    }
}

/// Reading the frame length after each prefix of an encoded request asks for
/// more bytes until the whole encoding is read, and never for more than it.
pub proof fn lemma_request_frame(v: RequestView, k: int)
    requires
        request_fits(v),
        0 <= k <= encode_request(v).len(),
    ensures
        request_frame_len(encode_request(v).subrange(0, k)) is Some,
        k < encode_request(v).len() ==> k < request_frame_len(encode_request(v).subrange(0, k))->0
            <= encode_request(v).len(),
        k == encode_request(v).len() ==> request_frame_len(encode_request(v).subrange(0, k))->0
            == k,
{
    let e = encode_request(v);
    let p = e.subrange(0, k);
    match v {
        RequestView::Publish(s) => {
            lemma_text_round_trip(s);
            lemma_be32_value_of_bytes(encode_utf8(s).len() as u32);
            if k >= 5 {
                assert(p.subrange(1, 5) =~= be32(encode_utf8(s).len() as u32));
            }
        },
        RequestView::Search(s) => {
            lemma_text_round_trip(s);
            lemma_be32_value_of_bytes(encode_utf8(s).len() as u32);
            if k >= 5 {
                assert(p.subrange(1, 5) =~= be32(encode_utf8(s).len() as u32));
            }
        },
        RequestView::Retrieve(id) => {},
    }
}

/// Reading the frame length after each prefix of an encoded response asks for
/// more bytes until the whole encoding is read, and never for more than it.
pub proof fn lemma_response_frame(v: ResponseView, k: int)
    requires
        response_fits(v),
        0 <= k <= encode_response(v).len(),
    ensures
        response_frame_len(encode_response(v).subrange(0, k)) is Some,
        k < encode_response(v).len() ==> k < response_frame_len(encode_response(v).subrange(0, k))->0
            <= encode_response(v).len(),
        k == encode_response(v).len() ==> response_frame_len(encode_response(v).subrange(0, k))->0
            == k,
{
    let e = encode_response(v);
    let p = e.subrange(0, k);
    match v {
        ResponseView::SearchSuccess(ids) => {
            lemma_ids_round_trip(ids);
            lemma_be32_value_of_bytes(ids.len() as u32);
            if k >= 5 {
                assert(p.subrange(1, 5) =~= be32(ids.len() as u32));
            }
        },
        ResponseView::RetrieveSuccess(s) => {
            lemma_text_round_trip(s);
            lemma_be32_value_of_bytes(encode_utf8(s).len() as u32);
            if k >= 5 {
                assert(p.subrange(1, 5) =~= be32(encode_utf8(s).len() as u32));
            }
        },
        _ => {},
    }
}

impl Request {
    /// How many more bytes a reader must read after the first bytes `prefix`
    /// of a request to hold the whole frame (0 once it is complete); `None`
    /// when the tag is unknown.
    pub fn bytes_needed(prefix: &[u8]) -> (r: Option<u64>)
        ensures
            match request_frame_len(prefix@) {
                Some(t) => r == Some(missing(t, prefix@.len() as int) as u64),
                None => r is None,
            },
    {
        let have = prefix.len() as u64;
        if prefix.len() == 0 {
            return Some(1);
        }
        let tag = prefix[0];
        let total: u64 = if tag == TAG_PUBLISH || tag == TAG_SEARCH {
            if prefix.len() < 5 {
                5
            } else {
                5 + read_be32(prefix, 1) as u64
            }
        } else if tag == TAG_RETRIEVE {
            9
        } else {
            return None;
        };
        if total > have {
            Some(total - have)
        } else {
            Some(0)
        }
    }
}

impl Response {
    /// How many more bytes a reader must read after the first bytes `prefix`
    /// of a response to hold the whole frame (0 once it is complete); `None`
    /// when the tag is unknown.
    pub fn bytes_needed(prefix: &[u8]) -> (r: Option<u64>)
        ensures
            match response_frame_len(prefix@) {
                Some(t) => r == Some(missing(t, prefix@.len() as int) as u64),
                None => r is None,
            },
    {
        let have = prefix.len() as u64;
        if prefix.len() == 0 {
            return Some(1);
        }
        let tag = prefix[0];
        let total: u64 = if tag == TAG_PUBLISH_SUCCESS {
            9
        } else if tag == TAG_SEARCH_SUCCESS || tag == TAG_RETRIEVE_SUCCESS {
            if prefix.len() < 5 {
                5
            } else {
                let n = read_be32(prefix, 1) as u64;
                if tag == TAG_SEARCH_SUCCESS {
                    5 + 8 * n
                } else {
                    5 + n
                }
            }
        } else if tag == TAG_FAILURE {
            1
        } else {
            return None;
        };
        if total > have {
            Some(total - have)
        } else {
            Some(0)
        }
    }
}

} // verus!
