use user_service::dispatch::{
    dispatch, handle, index_page, parse_method, Method, Response, BAD_REQUEST, INDEX,
    METHOD_NOT_ALLOWED, NOT_FOUND, OK,
};
use user_service::route::{IdSegment, Route};
use user_service::store::{Record, Store};
use user_service::text::{join_ids, render_id};

fn ask(store: &mut Store, method: &str, path: &str) -> Response {
    handle(parse_method(method.as_bytes()), path.as_bytes(), store)
}

#[test]
fn life_of_one_user() {
    let mut store = Store::new();
    let page = ask(&mut store, "GET", "/");
    assert_eq!(page.status, 200);
    assert!(String::from_utf8(page.body).unwrap().contains("Rust Microservice"));
    let made = ask(&mut store, "POST", "/user/");
    assert_eq!(made.status, 200);
    assert_eq!(made.body, b"0".to_vec());
    let got = ask(&mut store, "GET", "/user/0");
    assert_eq!(got.status, 200);
    assert_eq!(got.body, b"{}".to_vec());
    let put = ask(&mut store, "PUT", "/user/0");
    assert_eq!(put.status, 200);
    assert!(put.body.is_empty());
    let gone = ask(&mut store, "DELETE", "/user/0");
    assert_eq!(gone.status, 200);
    assert!(gone.body.is_empty());
    assert_eq!(ask(&mut store, "GET", "/user/0").status, 404);
    assert_eq!(ask(&mut store, "POST", "/user/5").status, 400);
    assert_eq!(ask(&mut store, "GET", "/user/abc").status, 404);
    assert_eq!(ask(&mut store, "GET", "/nope").status, 404);
}

#[test]
fn status_codes_are_the_usual_numbers() {
    assert_eq!(OK, 200);
    assert_eq!(BAD_REQUEST, 400);
    assert_eq!(NOT_FOUND, 404);
    assert_eq!(METHOD_NOT_ALLOWED, 405);
}

#[test]
fn index_page_is_served_whole() {
    let mut store = Store::new();
    for path in ["/", "/index.htm", "/index.html"].iter() {
        let page = ask(&mut store, "GET", path);
        assert_eq!(page.status, 200);
        assert_eq!(page.body, INDEX.as_bytes().to_vec());
    }
    assert_eq!(index_page(), INDEX.as_bytes().to_vec());
    assert!(INDEX.contains("<title>Rust Microservice</title>"));
}

#[test]
fn index_takes_get_only() {
    let mut store = Store::new();
    for method in ["POST", "PUT", "DELETE", "PATCH", "HEAD"].iter() {
        let answer = ask(&mut store, method, "/index.html");
        assert_eq!(answer.status, 405);
        assert!(answer.body.is_empty());
    }
}

#[test]
fn collection_lists_live_ids() {
    let mut store = Store::new();
    let none = ask(&mut store, "GET", "/users");
    assert_eq!(none.status, 200);
    assert!(none.body.is_empty());
    for _ in 0..12 {
        assert_eq!(ask(&mut store, "POST", "/user/").status, 200);
    }
    assert_eq!(
        ask(&mut store, "GET", "/users/").body,
        b"0,1,2,3,4,5,6,7,8,9,10,11".to_vec()
    );
    assert_eq!(ask(&mut store, "DELETE", "/user/3/").status, 200);
    assert_eq!(ask(&mut store, "DELETE", "/user/0").status, 200);
    assert_eq!(
        ask(&mut store, "GET", "/users").body,
        b"1,2,4,5,6,7,8,9,10,11".to_vec()
    );
}

#[test]
fn collection_takes_get_only() {
    let mut store = Store::new();
    for method in ["POST", "PUT", "DELETE", "OPTIONS"].iter() {
        let answer = ask(&mut store, method, "/users");
        assert_eq!(answer.status, 405);
        assert!(answer.body.is_empty());
    }
    assert_eq!(store.list_ids(), Vec::<usize>::new());
}

#[test]
fn post_answers_with_the_new_id() {
    let mut store = Store::new();
    assert_eq!(ask(&mut store, "POST", "/user/").body, b"0".to_vec());
    assert_eq!(ask(&mut store, "POST", "/user/").body, b"1".to_vec());
    assert_eq!(ask(&mut store, "POST", "/user/").body, b"2".to_vec());
    assert_eq!(ask(&mut store, "DELETE", "/user/0").status, 200);
    assert_eq!(ask(&mut store, "DELETE", "/user/1").status, 200);
    assert_eq!(ask(&mut store, "POST", "/user/").body, b"0".to_vec());
    assert_eq!(ask(&mut store, "POST", "/user/").body, b"1".to_vec());
    assert_eq!(ask(&mut store, "POST", "/user/").body, b"3".to_vec());
    assert_eq!(store.list_ids(), vec![0, 1, 2, 3]);
}

#[test]
fn post_with_an_id_is_a_bad_request() {
    let mut store = Store::new();
    store.create(Record {});
    for path in ["/user/0", "/user/5", "/user/5/", "/user/99999999999999999999"].iter() {
        let answer = ask(&mut store, "POST", path);
        assert_eq!(answer.status, 400);
        assert!(answer.body.is_empty());
    }
    assert_eq!(store.list_ids(), vec![0]);
}

#[test]
fn target_that_is_missing_or_unreadable_is_not_found() {
    let mut store = Store::new();
    store.create(Record {});
    for method in ["GET", "PUT", "DELETE"].iter() {
        for path in ["/user/", "/user/99999999999999999999", "/user/1", "/user/abc"].iter() {
            let answer = ask(&mut store, method, path);
            assert_eq!(answer.status, 404);
            assert!(answer.body.is_empty());
        }
    }
    assert_eq!(store.list_ids(), vec![0]);
}

#[test]
fn other_methods_on_an_item_are_not_allowed() {
    let mut store = Store::new();
    store.create(Record {});
    for path in ["/user/", "/user/0", "/user/99999999999999999999"].iter() {
        assert_eq!(ask(&mut store, "PATCH", path).status, 405);
        assert_eq!(ask(&mut store, "get", path).status, 405);
    }
    assert_eq!(ask(&mut store, "PATCH", "/nope").status, 404);
    assert_eq!(ask(&mut store, "PATCH", "/user/abc").status, 404);
}

#[test]
fn unknown_paths_are_not_found_for_every_method() {
    let mut store = Store::new();
    for method in ["GET", "POST", "PUT", "DELETE", "PATCH"].iter() {
        let answer = ask(&mut store, method, "/nope");
        assert_eq!(answer.status, 404);
        assert!(answer.body.is_empty());
    }
}

#[test]
fn dispatch_on_classified_routes() {
    let mut store = Store::new();
    let made = dispatch(Method::Post, Route::Item(IdSegment::Absent), &mut store);
    assert_eq!((made.status, made.body), (200, b"0".to_vec()));
    let got = dispatch(Method::Get, Route::Item(IdSegment::Parsed(0)), &mut store);
    assert_eq!((got.status, got.body), (200, b"{}".to_vec()));
    let bad = dispatch(Method::Post, Route::Item(IdSegment::Unparsable), &mut store);
    assert_eq!(bad.status, 400);
    let lost = dispatch(Method::Delete, Route::Item(IdSegment::Unparsable), &mut store);
    assert_eq!(lost.status, 404);
    let none = dispatch(Method::Other, Route::NotFound, &mut store);
    assert_eq!(none.status, 404);
    let list = dispatch(Method::Get, Route::Collection, &mut store);
    assert_eq!((list.status, list.body), (200, b"0".to_vec()));
}

#[test]
fn responses_with_and_without_body() {
    let bare = Response::with_code(404);
    assert_eq!(bare.status, 404);
    assert!(bare.body.is_empty());
    let full = Response::with_body(b"7".to_vec());
    assert_eq!(full.status, 200);
    assert_eq!(full.body, b"7".to_vec());
}

#[test]
fn method_names_are_case_sensitive() {
    assert_eq!(parse_method(b"GET"), Method::Get);
    assert_eq!(parse_method(b"POST"), Method::Post);
    assert_eq!(parse_method(b"PUT"), Method::Put);
    assert_eq!(parse_method(b"DELETE"), Method::Delete);
    assert_eq!(parse_method(b"PATCH"), Method::Other);
    assert_eq!(parse_method(b"get"), Method::Other);
    assert_eq!(parse_method(b""), Method::Other);
    assert_eq!(parse_method(b"GETS"), Method::Other);
}

#[test]
fn ids_render_as_decimal_text() {
    assert_eq!(render_id(0), b"0".to_vec());
    assert_eq!(render_id(9), b"9".to_vec());
    assert_eq!(render_id(10), b"10".to_vec());
    assert_eq!(render_id(1203), b"1203".to_vec());
    assert_eq!(render_id(usize::MAX), usize::MAX.to_string().into_bytes());
}

#[test]
fn ids_join_with_commas() {
    assert_eq!(join_ids(&vec![]), Vec::<u8>::new());
    assert_eq!(join_ids(&vec![3]), b"3".to_vec());
    assert_eq!(join_ids(&vec![0, 1, 12]), b"0,1,12".to_vec());
    assert_eq!(join_ids(&vec![100, 20, 3]), b"100,20,3".to_vec());
}
