//! What the server does with one connection's request: the archive
//! operation, the response, and its bytes.
use vstd::prelude::*;
use crate::database::{Database, ids_with};
use crate::message::{
    Request, RequestView, Response, ResponseView, decode_request, encode_response, response_fits,
};

verus! {

/// The number of worker threads that serve connections.
pub const WORKERS: usize = 16;

/// The response to `req` from an archive that holds `docs`.
pub open spec fn response_for(docs: Seq<Seq<char>>, req: RequestView) -> ResponseView {
    match req {
        RequestView::Publish(_) => ResponseView::PublishSuccess(docs.len() as usize),
        RequestView::Search(w) => ResponseView::SearchSuccess(ids_with(docs, w)),
        RequestView::Retrieve(id) => if id < docs.len() {
            ResponseView::RetrieveSuccess(docs[id as int])
        } else {
            ResponseView::Failure
        },
    }
}

/// The documents after `req` has been served.
pub open spec fn docs_after(docs: Seq<Seq<char>>, req: RequestView) -> Seq<Seq<char>> {
    match req {
        RequestView::Publish(d) => docs.push(d),
        _ => docs,
    }
}

/// The response that is sent: the response to the request, or `Failure`
/// where that response does not fit the wire format.
pub open spec fn reply_for(docs: Seq<Seq<char>>, req: RequestView) -> ResponseView {
    if response_fits(response_for(docs, req)) {
        response_for(docs, req)
    } else {
        ResponseView::Failure
    }
}

/// Serves one decoded request against the archive.
pub fn process_message(db: &mut Database, request: Request) -> (r: Response)
    requires
        old(db).wf(),
    ensures
        final(db).wf(),
        final(db).docs() == docs_after(old(db).docs(), request@),
        r@ == response_for(old(db).docs(), request@),
{
    match request {
        Request::Publish { doc } => {
            let id = db.publish(doc);
            Response::PublishSuccess(id)
        },
        Request::Search { word } => {
            let ids = db.search(word.as_str());
            Response::SearchSuccess(ids)
        },
        Request::Retrieve { id } => {
            match db.retrieve(id) {
                Some(doc) => Response::RetrieveSuccess(doc),
                None => Response::Failure,
            }
        },
    }
}

/// Serves one connection: decodes the request bytes, performs the request,
/// and returns the bytes of the response. Bytes that are not exactly one
/// request get `Failure` and leave the archive unchanged.
pub fn handle_connection(db: &mut Database, bytes: &[u8]) -> (r: Vec<u8>)
    requires
        old(db).wf(),
    ensures
        final(db).wf(),
        match decode_request(bytes@) {
            Some(req) => final(db).docs() == docs_after(old(db).docs(), req) && r@
                == encode_response(reply_for(old(db).docs(), req)),
            None => final(db).docs() == old(db).docs() && r@ == encode_response(
                ResponseView::Failure,
            ),
        },
{
    let response = match Request::from_bytes(bytes) {
        Some(request) => process_message(db, request),
        None => Response::Failure,
    };
    if response.fits_wire() {
        response.to_bytes()
    } else {
        Response::Failure.to_bytes()
    }
}

} // verus!
