use http::{HeaderMap, HeaderValue};
use tango_bridge::proxy::{proxy_failure, proxy_headers, proxy_request, proxy_target, ProxyStage, ProxyTarget, PROXY_HOST};

#[test]
fn paths_stay_on_the_web_site() {
    assert_eq!(PROXY_HOST, "https://tangoapp.dev");
    let target = proxy_request("/").unwrap();
    assert_eq!(target.url, "https://tangoapp.dev/");
    assert_eq!(target.host, Some("tangoapp.dev".to_string()));
    for path in ["/a/b?c=d", "/../..", "/a@b:80/", "/http://other.example/", "/%2f%2fother.example"] {
        let target = proxy_request(path).unwrap();
        assert_eq!(target.host, Some("tangoapp.dev".to_string()));
        assert!(target.url.starts_with("https://tangoapp.dev/"));
    }
    assert_eq!(proxy_request("/a/./b/../c?x=1#y").unwrap().url, "https://tangoapp.dev/a/c?x=1#y");
}

#[test]
fn whole_addresses_are_taken_as_they_are() {
    let target = proxy_request("http://other.example/a").unwrap();
    assert_eq!(target.url, "http://other.example/a");
    assert_eq!(target.host, Some("other.example".to_string()));
    let target = proxy_request("data:text").unwrap();
    assert_eq!(target.host, None);
}

#[test]
fn what_is_no_address_is_refused() {
    let e = proxy_request("http://[").unwrap_err();
    assert_eq!((e.status, e.message.as_str()), (400, "Bad Request"));
    let e = proxy_target(None).unwrap_err();
    assert_eq!((e.status, e.message.as_str()), (400, "Bad Request"));
    let target = proxy_target(Some(("u".to_string(), None))).unwrap();
    assert_eq!((target.url.as_str(), target.host), ("u", None));
}

#[test]
fn each_stage_has_its_refusal() {
    let refusal = |stage| {
        let e = proxy_failure(stage);
        (e.status, e.message)
    };
    assert_eq!(refusal(ProxyStage::Address), (400, "Bad Request".to_string()));
    assert_eq!(refusal(ProxyStage::Build), (400, "Bad Request".to_string()));
    assert_eq!(refusal(ProxyStage::Upstream), (502, "Bad Gateway".to_string()));
}

fn target(host: Option<&str>) -> ProxyTarget {
    ProxyTarget { url: "https://tangoapp.dev/".to_string(), host: host.map(str::to_string) }
}

#[test]
fn host_is_replaced_and_other_fields_stay() {
    let mut headers: HeaderMap<HeaderValue> = HeaderMap::new();
    headers.append("host", HeaderValue::from_static("localhost:15037"));
    headers.append("host", HeaderValue::from_static("twice"));
    headers.append("accept", HeaderValue::from_static("a"));
    headers.append("accept", HeaderValue::from_static("b"));
    assert!(proxy_headers(&mut headers, &target(Some("tangoapp.dev"))));
    let hosts: Vec<&[u8]> = headers.get_all("host").iter().map(|v| v.as_bytes()).collect();
    assert_eq!(hosts, vec![&b"tangoapp.dev"[..]]);
    let accepted: Vec<&[u8]> = headers.get_all("accept").iter().map(|v| v.as_bytes()).collect();
    assert_eq!(accepted, vec![&b"a"[..], &b"b"[..]]);
    assert_eq!(headers.len(), 3);
}

#[test]
fn host_is_added_where_there_is_none() {
    let mut headers: HeaderMap<HeaderValue> = HeaderMap::new();
    assert!(proxy_headers(&mut headers, &target(Some("é\t"))));
    assert_eq!(headers.get("host").unwrap().as_bytes(), "é\t".as_bytes());
}

#[test]
fn fields_stay_where_no_host_can_be_set() {
    for host in [None, Some("a\nb"), Some("\u{7f}")] {
        let mut headers: HeaderMap<HeaderValue> = HeaderMap::new();
        headers.append("host", HeaderValue::from_static("before"));
        assert!(!proxy_headers(&mut headers, &target(host)));
        assert_eq!(headers.get("host").unwrap().as_bytes(), b"before");
        assert_eq!(headers.len(), 1);
    }
}

#[test]
fn many_fields_leave_room_for_the_host() {
    let mut headers: HeaderMap<HeaderValue> = HeaderMap::new();
    for i in 0..6553 {
        let name = http::HeaderName::from_bytes(format!("x-{i}").as_bytes()).unwrap();
        headers.insert(name, HeaderValue::from_static("v"));
    }
    assert!(proxy_headers(&mut headers, &target(Some("tangoapp.dev"))));
    assert_eq!(headers.len(), 6554);
}
