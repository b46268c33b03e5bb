use bytes::BytesMut;
use rproxy::http::HTTPRequest;
use rproxy::proxy::{
    accept_chunk, compose_response, outbound_headers, proxy_target, unmatched_response,
    upstream_url, BackendSelector, Config, ConfigurationError, Forward, Location, Proxy,
    RoundRobinTracker, Server, UpstreamReply, MAX_CHUNK_SIZE,
};
use std::sync::Arc;

fn pool(addresses: &[&str]) -> Vec<String> {
    addresses.iter().map(|a| a.to_string()).collect()
}

fn location(path: &str, proxy_pass: &str) -> Location {
    Location { path: path.to_string(), proxy_pass: proxy_pass.to_string() }
}

fn request_for(path: &str) -> HTTPRequest {
    let mut request = HTTPRequest::new();
    request.path = path.to_string();
    request
}

fn proxy_with(pools: &[(&str, &[&str])]) -> Arc<Proxy> {
    let mut cfg = Config::new();
    for (name, addresses) in pools {
        cfg.upstream.insert(name.to_string(), pool(addresses));
    }
    Proxy::new(cfg)
}

#[test]
fn round_robin_visits_backends_in_order() {
    let mut tracker = RoundRobinTracker::new(pool(&["a:1", "b:2", "c:3"])).unwrap();
    assert_eq!(tracker.size(), 3);
    let mut indices = Vec::new();
    let mut chosen = Vec::new();
    for _ in 0..7 {
        indices.push(tracker.index());
        chosen.push(tracker.select());
    }
    assert_eq!(indices, vec![0, 1, 2, 0, 1, 2, 0]);
    assert_eq!(chosen, vec!["a:1", "b:2", "c:3", "a:1", "b:2", "c:3", "a:1"]);
    assert_eq!(tracker.index(), 1);
}

#[test]
fn round_robin_over_one_backend_stays_there() {
    let mut tracker = RoundRobinTracker::new(pool(&["only:80"])).unwrap();
    for _ in 0..3 {
        assert_eq!(tracker.index(), 0);
        assert_eq!(tracker.select(), "only:80");
    }
}

#[test]
fn empty_pool_has_no_tracker() {
    assert_eq!(RoundRobinTracker::new(Vec::new()).err(), Some(ConfigurationError::EmptyPool));
}

#[test]
fn upstream_url_joins_address_and_path() {
    assert_eq!(upstream_url("127.0.0.1:8080", "/foo"), "http://127.0.0.1:8080/foo");
    assert_eq!(upstream_url("host", ""), "http://host");
}

#[test]
fn unmatched_path_has_no_target() {
    let locations = vec![location("/a", "http://u1/a"), location("/b", "http://u2/b")];
    assert_eq!(proxy_target(&locations, "/c"), None);
    let mut selector = BackendSelector::Table(locations);
    assert_eq!(selector.select(&request_for("/c")), None);
    assert_eq!(unmatched_response(), "");
}

#[test]
fn first_location_of_a_path_wins() {
    let locations = vec![
        location("/b", "http://u0/b"),
        location("/a", "http://u1/a"),
        location("/a", "http://u2/other"),
    ];
    assert_eq!(proxy_target(&locations, "/a"), Some("http://u1/a"));
    let mut selector = BackendSelector::Table(locations);
    assert_eq!(selector.select(&request_for("/a")), Some("http://u1/a".to_string()));
    assert_eq!(selector.select(&request_for("/a")), Some("http://u1/a".to_string()));
    assert_eq!(selector.select(&request_for("/b")), Some("http://u0/b".to_string()));
}

#[test]
fn locations_match_exactly() {
    let locations = vec![location("/a", "http://u1/a")];
    assert_eq!(proxy_target(&locations, "/a/"), None);
    assert_eq!(proxy_target(&locations, "/A"), None);
    assert_eq!(proxy_target(&locations, "/"), None);
    assert_eq!(proxy_target(&locations, "/a?x=1"), None);
    assert_eq!(proxy_target(&Vec::new(), "/a"), None);
}

#[test]
fn balanced_selector_walks_the_pool() {
    let proxy = proxy_with(&[("web", &["10.0.0.1:80", "10.0.0.2:80"])]);
    let mut selector = proxy.selector(&Forward::LoadBalancer("web".to_string())).unwrap();
    let request = request_for("/x");
    assert_eq!(selector.select(&request), Some("http://10.0.0.1:80/x".to_string()));
    assert_eq!(selector.select(&request), Some("http://10.0.0.2:80/x".to_string()));
    assert_eq!(selector.select(&request_for("/y")), Some("http://10.0.0.1:80/y".to_string()));
}

#[test]
fn selectors_of_two_listeners_do_not_share_an_index() {
    let proxy = proxy_with(&[("web", &["a:1", "b:2"])]);
    let forward = Forward::LoadBalancer("web".to_string());
    let mut first = proxy.selector(&forward).unwrap();
    let mut second = proxy.selector(&forward).unwrap();
    let request = request_for("/");
    assert_eq!(first.select(&request), Some("http://a:1/".to_string()));
    assert_eq!(second.select(&request), Some("http://a:1/".to_string()));
    assert_eq!(first.select(&request), Some("http://b:2/".to_string()));
}

#[test]
fn listener_with_unknown_pool_cannot_start() {
    let proxy = proxy_with(&[("web", &["a:1"])]);
    let made = proxy.selector(&Forward::LoadBalancer("api".to_string()));
    assert_eq!(made.err(), Some(ConfigurationError::UnknownPool));
    assert_eq!(proxy.cfg.pool("api").err(), Some(ConfigurationError::UnknownPool));
}

#[test]
fn listener_with_empty_pool_cannot_start() {
    let proxy = proxy_with(&[("web", &[])]);
    let made = proxy.selector(&Forward::LoadBalancer("web".to_string()));
    assert_eq!(made.err(), Some(ConfigurationError::EmptyPool));
    assert_eq!(proxy.cfg.pool("web").err(), Some(ConfigurationError::EmptyPool));
}

#[test]
fn pool_is_found_by_name() {
    let proxy = proxy_with(&[("web", &["a:1", "b:2"]), ("api", &["c:3"])]);
    assert_eq!(proxy.cfg.pool("api").unwrap(), &pool(&["c:3"]));
    assert_eq!(proxy.cfg.pool("web").unwrap(), &pool(&["a:1", "b:2"]));
}

#[test]
fn table_selector_copies_the_locations() {
    let mut cfg = Config::new();
    let forward = Forward::Locations(vec![location("/a", "http://u1/a")]);
    cfg.servers.push(Server { listen: 8080, forward: forward.clone() });
    let proxy = Proxy::new(cfg);
    assert_eq!(proxy.cfg.servers.len(), 1);
    assert_eq!(proxy.cfg.servers[0].listen, 8080);
    let mut selector = proxy.selector(&forward).unwrap();
    assert_eq!(selector.select(&request_for("/a")), Some("http://u1/a".to_string()));
    assert_eq!(selector.select(&request_for("/b")), None);
}

#[test]
fn answer_is_composed() {
    let proxy = Proxy::new(Config::new());
    let reply = UpstreamReply::Answer { status: 200, body: "hi".to_string() };
    assert_eq!(proxy.forward_request(reply), "HTTP/1.1 200 OK\r\nContent-Length: 2\r\n\r\nhi");
}

#[test]
fn failure_gives_the_fallback() {
    let proxy = Proxy::new(Config::new());
    assert_eq!(proxy.forward_request(UpstreamReply::Failure), "internal server error");
}

#[test]
fn status_text_comes_with_the_reason() {
    let proxy = Proxy::new(Config::new());
    let not_found = UpstreamReply::Answer { status: 404, body: String::new() };
    assert_eq!(
        proxy.forward_request(not_found),
        "HTTP/1.1 404 Not Found\r\nContent-Length: 0\r\n\r\n"
    );
    let unassigned = UpstreamReply::Answer { status: 799, body: "x".to_string() };
    assert_eq!(
        proxy.forward_request(unassigned),
        "HTTP/1.1 799 <unknown status code>\r\nContent-Length: 1\r\n\r\nx"
    );
}

#[test]
fn answer_with_a_number_that_is_no_status_gives_the_fallback() {
    let proxy = Proxy::new(Config::new());
    for status in [0u16, 99, 1000, u16::MAX] {
        let reply = UpstreamReply::Answer { status, body: "hi".to_string() };
        assert_eq!(proxy.forward_request(reply), "internal server error");
    }
    for status in [100u16, 999] {
        let reply = UpstreamReply::Answer { status, body: "hi".to_string() };
        assert!(proxy.forward_request(reply).starts_with(&format!("HTTP/1.1 {} ", status)));
    }
}

#[test]
fn content_length_counts_bytes() {
    assert_eq!(
        compose_response("200 OK", "gr\u{fc}\u{df}e"),
        "HTTP/1.1 200 OK\r\nContent-Length: 7\r\n\r\ngr\u{fc}\u{df}e"
    );
    let long = "x".repeat(1234);
    assert_eq!(
        compose_response("200 OK", &long),
        format!("HTTP/1.1 200 OK\r\nContent-Length: 1234\r\n\r\n{}", long)
    );
}

#[test]
fn short_chunk_completes_the_message() {
    let mut buffer = BytesMut::new();
    assert!(accept_chunk(&mut buffer, b"GET / HTTP/1.1\r\n\r\n"));
    assert_eq!(&buffer[..], b"GET / HTTP/1.1\r\n\r\n");
}

#[test]
fn full_chunk_asks_for_more() {
    let mut buffer = BytesMut::new();
    let full = vec![b'a'; MAX_CHUNK_SIZE];
    assert!(!accept_chunk(&mut buffer, &full));
    assert!(!accept_chunk(&mut buffer, &full));
    assert!(accept_chunk(&mut buffer, b"tail"));
    assert_eq!(buffer.len(), 2 * MAX_CHUNK_SIZE + 4);
    assert_eq!(&buffer[2 * MAX_CHUNK_SIZE..], b"tail");
}

#[test]
fn message_of_exact_chunk_size_ends_with_the_empty_read() {
    let mut buffer = BytesMut::new();
    let full = vec![b'a'; MAX_CHUNK_SIZE];
    assert!(!accept_chunk(&mut buffer, &full));
    assert!(accept_chunk(&mut buffer, &[]));
    assert_eq!(&buffer[..], &full[..]);
}

#[test]
fn empty_read_completes_at_once() {
    let mut buffer = BytesMut::new();
    assert!(accept_chunk(&mut buffer, &[]));
    assert!(buffer.is_empty());
}

#[test]
fn chunk_of_one_byte_less_than_full_completes() {
    let mut buffer = BytesMut::from(&b"seen"[..]);
    assert!(accept_chunk(&mut buffer, &vec![b'b'; MAX_CHUNK_SIZE - 1]));
    assert_eq!(buffer.len(), MAX_CHUNK_SIZE + 3);
    assert_eq!(&buffer[..4], b"seen");
}

#[test]
fn outbound_headers_carry_the_request_headers() {
    let mut request = HTTPRequest::new();
    request.headers.insert("Host".to_string(), "x".to_string());
    request.headers.insert("X-Trace".to_string(), "a b\tc".to_string());
    let carried = outbound_headers(&request).unwrap();
    assert_eq!(carried.len(), 2);
    assert_eq!(carried.get("host").unwrap().as_bytes(), b"x");
    assert_eq!(carried.get("x-trace").unwrap().as_bytes(), b"a b\tc");
    let names: Vec<String> = carried.keys().map(|k| k.as_str().to_string()).collect();
    assert!(names.contains(&"host".to_string()));
}

#[test]
fn outbound_headers_file_names_that_differ_in_case_together() {
    let mut request = HTTPRequest::new();
    request.headers.insert("Host".to_string(), "first".to_string());
    request.headers.insert("host".to_string(), "second".to_string());
    let carried = outbound_headers(&request).unwrap();
    assert_eq!(carried.len(), 1);
    assert_eq!(carried.get("HOST").unwrap().as_bytes(), b"second");
}

#[test]
fn outbound_headers_of_no_headers_are_empty() {
    let carried = outbound_headers(&HTTPRequest::new()).unwrap();
    assert!(carried.is_empty());
}

#[test]
fn outbound_headers_refuse_a_bad_name() {
    for name in ["bad name", "", "caf\u{e9}", "a:b"] {
        let mut request = HTTPRequest::new();
        request.headers.insert("Fine".to_string(), "1".to_string());
        request.headers.insert(name.to_string(), "1".to_string());
        assert!(outbound_headers(&request).is_none());
    }
}

#[test]
fn outbound_headers_refuse_a_bad_value() {
    for value in ["line\nbreak", "bell\u{7}", "del\u{7f}"] {
        let mut request = HTTPRequest::new();
        request.headers.insert("A".to_string(), value.to_string());
        assert!(outbound_headers(&request).is_none());
    }
    let mut request = HTTPRequest::new();
    request.headers.insert("A".to_string(), "gr\u{fc}\u{df}e".to_string());
    let carried = outbound_headers(&request).unwrap();
    assert_eq!(carried.get("a").unwrap().as_bytes(), "gr\u{fc}\u{df}e".as_bytes());
}

#[test]
fn configuration_is_checked_listener_by_listener() {
    let mut cfg = Config::new();
    assert!(cfg.is_well_formed());
    cfg.upstream.insert("web".to_string(), pool(&["a:1"]));
    cfg.upstream.insert("idle".to_string(), Vec::new());
    cfg.servers.push(Server { listen: 80, forward: Forward::LoadBalancer("web".to_string()) });
    cfg.servers.push(Server { listen: 81, forward: Forward::Locations(Vec::new()) });
    assert!(cfg.is_well_formed());
    cfg.servers.push(Server { listen: 82, forward: Forward::LoadBalancer("idle".to_string()) });
    assert!(!cfg.is_well_formed());
    let mut other = Config::new();
    other.servers.push(Server { listen: 83, forward: Forward::LoadBalancer("gone".to_string()) });
    assert!(!other.is_well_formed());
}

#[test]
fn header_written_last_goes_out_among_names_of_one_key() {
    let wire = b"GET / HTTP/1.1\r\nHost: a\r\nhost: b\r\nHost: c\r\nX-Other: o\r\n\r\n";
    let mut request = HTTPRequest::new();
    assert_eq!(request.parse(&BytesMut::from(&wire[..])), Ok(()));
    let carried = outbound_headers(&request).unwrap();
    assert_eq!(carried.len(), 2);
    assert_eq!(carried.get("host").unwrap().as_bytes(), b"c");
    assert_eq!(carried.get("x-other").unwrap().as_bytes(), b"o");

    let mut other = HTTPRequest::new();
    other.headers.insert("host".to_string(), "1".to_string());
    other.headers.insert("HOST".to_string(), "2".to_string());
    other.headers.insert("host".to_string(), "3".to_string());
    other.headers.insert("Host".to_string(), "4".to_string());
    other.headers.insert("HOST".to_string(), "5".to_string());
    let carried = outbound_headers(&other).unwrap();
    assert_eq!(carried.len(), 1);
    assert_eq!(carried.get("host").unwrap().as_bytes(), b"5");
}

#[test]
fn outbound_headers_have_room_for_many_headers() {
    let mut request = HTTPRequest::new();
    for i in 0..rproxy::upstream::HEADER_ROOM {
        request.headers.insert(format!("x-{}", i), format!("{}", i));
    }
    assert_eq!(request.headers.len(), 3276);
    let carried = outbound_headers(&request).unwrap();
    assert_eq!(carried.len(), 3276);
    assert_eq!(carried.get("x-0").unwrap().as_bytes(), b"0");
    assert_eq!(carried.get("x-3275").unwrap().as_bytes(), b"3275");
}
