//! The dispatcher: from a method, a route and the store to a status code and
//! a body.

use vstd::prelude::*;
use vstd::string::*;
use vstd::slice::*;
use crate::route::{bytes_eq, match_route, route_of, IdSegment, Route};
use crate::store::{Record, Store, StoreState};
use crate::text::{decimal, join_ids, joined, render_id};

verus! {

/// The request succeeded.
pub const OK: u16 = 200;

/// The request named an identifier where none may be given.
pub const BAD_REQUEST: u16 = 400;

/// The path names nothing, or no live record.
pub const NOT_FOUND: u16 = 404;

/// The path is known but does not take the method.
pub const METHOD_NOT_ALLOWED: u16 = 405;

/// The request methods that the service tells apart.
#[derive(Clone, Copy, Debug, PartialEq, Eq, Structural)]
pub enum Method {
    Get,
    Post,
    Put,
    Delete,
    /// Any other method.
    Other,
}

/// What goes back to the client.
#[derive(Debug)]
pub struct Response {
    pub status: u16,
    pub body: Vec<u8>,
}

/// The page served at the index.
pub const INDEX: &'static str =
    "\n <!doctype html>\n <html>\n     <head>\n         <title>Rust Microservice</title>\n     </head>\n     <body>\n         <h3>Rust Microservice</h3>\n     </body>\n </html>\n ";

/// The method that a request line names; method names are upper case.
pub open spec fn method_of(name: Seq<u8>) -> Method {
    if name == "GET".spec_bytes() {
        Method::Get
    } else if name == "POST".spec_bytes() {
        Method::Post
    } else if name == "PUT".spec_bytes() {
        Method::Put
    } else if name == "DELETE".spec_bytes() {
        Method::Delete
    } else {
        Method::Other
    }
}

/// Whether a method reads, overwrites or deletes one record.
pub open spec fn needs_target(method: Method) -> bool {
    method == Method::Get || method == Method::Put || method == Method::Delete
}

/// The status code of a request, by its method, its route and the store it
/// meets.
pub open spec fn status_of(method: Method, route: Route, before: StoreState) -> u16 {
    match route {
        Route::Index | Route::Collection => if method == Method::Get {
            OK
        } else {
            METHOD_NOT_ALLOWED
        },
        Route::Item(segment) => if method == Method::Post {
            if segment == IdSegment::Absent {
                OK
            } else {
                BAD_REQUEST
            }
        } else if needs_target(method) {
            match segment {
                IdSegment::Parsed(id) => if before.is_live(id) {
                    OK
                } else {
                    NOT_FOUND
                },
                _ => NOT_FOUND,
            }
        } else {
            METHOD_NOT_ALLOWED
        },
        Route::NotFound => NOT_FOUND,
    }
}

/// The store that a request leaves behind.
pub open spec fn store_after(method: Method, route: Route, before: StoreState) -> StoreState {
    match (method, route) {
        (Method::Post, Route::Item(IdSegment::Absent)) => before.created(Record {  }),
        (Method::Put, Route::Item(IdSegment::Parsed(id))) => if before.is_live(id) {
            before.replaced(id, Record {  })
        } else {
            before
        },
        (Method::Delete, Route::Item(IdSegment::Parsed(id))) => if before.is_live(id) {
            before.deleted(id)
        } else {
            before
        },
        _ => before,
    }
}

/// The body of the answer to a request: the page, the listing, the new
/// identifier or the record that was asked for; empty in every other case.
pub open spec fn body_of(method: Method, route: Route, before: StoreState) -> Seq<u8> {
    match (method, route) {
        (Method::Get, Route::Index) => INDEX.spec_bytes(),
        (Method::Get, Route::Collection) => joined(before.listing()),
        (Method::Post, Route::Item(IdSegment::Absent)) => decimal(before.next_id() as nat),
        (Method::Get, Route::Item(IdSegment::Parsed(id))) => if before.is_live(id) {
            before.records[id].rendered()
        } else {
            Seq::empty()
        },
        _ => Seq::empty(),
    }
}

impl Response {
    /// An answer without a body.
    pub fn with_code(status: u16) -> (response: Response)
        ensures
            response.status == status,
            response.body@ == Seq::<u8>::empty(),
    {
        Response { status, body: Vec::new() }
    }

    /// A successful answer with a body.
    pub fn with_body(body: Vec<u8>) -> (response: Response)
        ensures
            response.status == OK,
            response.body@ == body@,
    {
        Response { status: OK, body }
    }
}

/// The bytes of the index page.
pub fn index_page() -> (page: Vec<u8>)
    ensures
        page@ == INDEX.spec_bytes(),
{
    slice_to_vec(INDEX.as_bytes())
}

/// Reads a method name.
pub fn parse_method(name: &[u8]) -> (method: Method)
    ensures
        method == method_of(name@),
{
    if bytes_eq(name, "GET".as_bytes()) {
        Method::Get
    } else if bytes_eq(name, "POST".as_bytes()) {
        Method::Post
    } else if bytes_eq(name, "PUT".as_bytes()) {
        Method::Put
    } else if bytes_eq(name, "DELETE".as_bytes()) {
        Method::Delete
    } else {
        Method::Other
    }
}

/// Answers a request on an item path.
pub fn dispatch_item(method: Method, segment: IdSegment, store: &mut Store) -> (response: Response)
    requires
        old(store).wf(),
    ensures
        final(store).wf(),
        response.status == status_of(method, Route::Item(segment), old(store)@),
        response.body@ == body_of(method, Route::Item(segment), old(store)@),
        final(store)@ == store_after(method, Route::Item(segment), old(store)@),
{
    match (method, segment) {
        (Method::Post, IdSegment::Absent) => {
            let id = store.create(Record {  });
            Response::with_body(render_id(id))
        },
        (Method::Post, _) => Response::with_code(BAD_REQUEST),
        (Method::Get, IdSegment::Parsed(id)) => match store.get(id) {
            Ok(record) => Response::with_body(record.render()),
            Err(_) => Response::with_code(NOT_FOUND),
        },
        (Method::Put, IdSegment::Parsed(id)) => match store.replace(id, Record {  }) {
            Ok(_) => Response::with_code(OK),
            Err(_) => Response::with_code(NOT_FOUND),
        },
        (Method::Delete, IdSegment::Parsed(id)) => match store.delete(id) {
            Ok(_) => Response::with_code(OK),
            Err(_) => Response::with_code(NOT_FOUND),
        },
        (Method::Other, _) => Response::with_code(METHOD_NOT_ALLOWED),
        _ => Response::with_code(NOT_FOUND),
    }
}

/// Answers a request whose path was classified.
pub fn dispatch(method: Method, route: Route, store: &mut Store) -> (response: Response)
    requires
        old(store).wf(),
    ensures
        final(store).wf(),
        response.status == status_of(method, route, old(store)@),
        response.body@ == body_of(method, route, old(store)@),
        final(store)@ == store_after(method, route, old(store)@),
{
    match route {
        Route::Index => match method {
            Method::Get => Response::with_body(index_page()),
            _ => Response::with_code(METHOD_NOT_ALLOWED),
        },
        Route::Collection => match method {
            Method::Get => {
                let ids = store.list_ids();
                Response::with_body(join_ids(&ids))
            },
            _ => Response::with_code(METHOD_NOT_ALLOWED),
        },
        Route::Item(segment) => dispatch_item(method, segment, store),
        Route::NotFound => Response::with_code(NOT_FOUND),
    }
}

/// Answers a request: classifies the path, then dispatches.
pub fn handle(method: Method, path: &[u8], store: &mut Store) -> (response: Response)
    requires
        old(store).wf(),
    ensures
        final(store).wf(),
        response.status == status_of(method, route_of(path@), old(store)@),
        response.body@ == body_of(method, route_of(path@), old(store)@),
        final(store)@ == store_after(method, route_of(path@), old(store)@),
{
    dispatch(method, match_route(path), store)
}

} // verus!
