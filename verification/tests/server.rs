//! Scenarios for request routing and the TCP framing.
use cassettedb::server::http::{extract_query_param, route, url_decode, Route};
use cassettedb::server::tcp::{encode_frame, frame_length, SessionReply, TcpSession};
use cassettedb::server::{ServerConfig, ServerResponse};

#[test]
fn routes_follow_the_endpoint_table() {
    assert!(matches!(route("POST", "/auth"), Route::Auth));
    assert!(matches!(route("GET", "/dbs"), Route::ListDbs));
    assert!(matches!(route("POST", "/dbs"), Route::CreateDb));
    assert!(matches!(route("DELETE", "/dbs/x"), Route::DeleteDb { db } if db == "x"));
    assert!(matches!(route("POST", "/dbs/x/docs"), Route::InsertDoc { db } if db == "x"));
    assert!(matches!(route("GET", "/dbs/x/docs"), Route::QueryDocs { db, q: None } if db == "x"));
    assert!(matches!(route("GET", "/dbs/x/docs/7"), Route::GetDoc { db, id } if db == "x" && id == "7"));
    assert!(matches!(route("PUT", "/dbs/x/docs/7"), Route::UpdateDoc { db, id } if db == "x" && id == "7"));
    assert!(matches!(route("DELETE", "/dbs/x/docs/7"), Route::DeleteDoc { db, id } if db == "x" && id == "7"));
    assert!(matches!(route("POST", "/dbs/x/search"), Route::Search { db } if db == "x"));
    assert!(matches!(route("POST", "/dbs/x/compact"), Route::Compact { db } if db == "x"));
    assert!(matches!(route("GET", "/dbs/x/count"), Route::Count { db } if db == "x"));
    assert!(matches!(route("GET", "/dbs/x/dump"), Route::Dump { db } if db == "x"));
}

#[test]
fn unknown_routes_are_not_found() {
    assert!(matches!(route("GET", "/auth"), Route::NotFound));
    assert!(matches!(route("PATCH", "/dbs/x/docs"), Route::NotFound));
    assert!(matches!(route("GET", "/dbs/x/docs/7/extra"), Route::NotFound));
    assert!(matches!(route("GET", "/other"), Route::NotFound));
    assert!(matches!(route("GET", "/dbs/x/search"), Route::NotFound));
    // A query string is part of the last segment.
    assert!(matches!(route("GET", "/dbs/x/docs?q=a"), Route::NotFound));
}

#[test]
fn query_parameters_are_decoded() {
    assert_eq!(extract_query_param("/p?q=age%20%3E+5&x=1", "q"), Some("age > 5".to_string()));
    assert_eq!(extract_query_param("/p?a=1&q=2", "q"), Some("2".to_string()));
    assert_eq!(extract_query_param("/p?a&q=2", "q"), None);
    assert_eq!(extract_query_param("/p", "q"), None);
    assert_eq!(extract_query_param("/p?q=", "q"), Some(String::new()));
}

#[test]
fn url_decoding_keeps_malformed_escapes() {
    assert_eq!(url_decode("a+b%21"), "a b!");
    assert_eq!(url_decode("%zz%4"), "%zz%4");
    assert_eq!(url_decode("%+5"), "\u{5}");
    assert_eq!(url_decode("%e9"), "\u{e9}");
}

#[test]
fn frames_carry_big_endian_lengths() {
    assert_eq!(frame_length([0, 0, 1, 2]).unwrap(), 258);
    assert!(frame_length([0, 0x98, 0x96, 0x81]).is_err());
    assert_eq!(frame_length([0, 0x98, 0x96, 0x80]).unwrap(), 10_000_000);
    assert_eq!(encode_frame(&vec![7, 8, 9]), vec![0, 0, 0, 3, 7, 8, 9]);
}

#[test]
fn sessions_need_authentication() {
    let mut s = TcpSession::new(true);
    assert_eq!(s.on_command(), SessionReply::NotAuthenticated);
    assert_eq!(s.on_auth(true), SessionReply::Authenticated);
    assert_eq!(s.on_command(), SessionReply::Execute);
    assert_eq!(s.on_auth(false), SessionReply::InvalidToken);
    assert_eq!(s.on_command(), SessionReply::NotAuthenticated);
    let open = TcpSession::new(false);
    assert_eq!(open.on_command(), SessionReply::Execute);
}

#[test]
fn responses_and_config_defaults() {
    let ok = ServerResponse::ok(5);
    assert!(ok.success);
    assert_eq!(ok.data, Some(5));
    assert_eq!(ok.error, None);
    let err = ServerResponse::<i32>::err("bad");
    assert!(!err.success);
    assert_eq!(err.data, None);
    assert_eq!(err.error, Some("bad".to_string()));
    let cfg = ServerConfig::default();
    assert_eq!(cfg.bind_addr, "127.0.0.1:0");
    assert_eq!(cfg.db_dir, "./databases");
    assert_eq!(cfg.auth_token, None);
    assert_eq!(cfg.pool_size, 10);
    assert_eq!(cfg.max_connections, 100);
}

#[test]
fn requests_are_read_from_their_bytes() {
    let raw = b"GET /dbs HTTP/1.1\r\nHost: x\r\nAuthorization:  Bearer abc \r\nHOST: y\r\n\r\n{\"a\":1}";
    let req = cassettedb::server::http::parse_request(raw).unwrap().unwrap().unwrap();
    assert_eq!(req.method, "GET");
    assert_eq!(req.path, "/dbs");
    assert_eq!(
        req.headers,
        vec![("host".to_string(), "y".to_string()), ("authorization".to_string(), "Bearer abc".to_string())]
    );
    assert_eq!(req.body, b"\r\n\r\n{\"a\":1}".to_vec());
}

#[test]
fn requests_without_method_and_path_are_nothing() {
    assert!(matches!(cassettedb::server::http::parse_request(b""), Some(Ok(None))));
    assert!(matches!(cassettedb::server::http::parse_request(b"GET\r\n\r\n"), Some(Ok(None))));
    assert!(matches!(cassettedb::server::http::parse_request(b"   \n"), Some(Ok(None))));
    let req = cassettedb::server::http::parse_request(b"POST /auth\n\nbody").unwrap().unwrap().unwrap();
    assert_eq!(req.method, "POST");
    assert_eq!(req.body, b"\n\nbody".to_vec());
    assert!(req.headers.is_empty());
}
