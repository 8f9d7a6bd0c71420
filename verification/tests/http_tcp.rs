use rustlab::http::{
    content_length, find_value, form_pairs, parse_request, route, HttpRequest, HttpResponse,
    RequestErrorKind,
};
use rustlab::tcp::{
    echo_reply, segment_fits, Client, Phase, Server, TcpFlag, TcpState, CLIENT_ISN, SERVER_ISN,
};

fn request(method: &str, path: &str, headers: &[(&str, &str)], body: &[u8]) -> HttpRequest {
    HttpRequest {
        method: method.to_string(),
        path: path.to_string(),
        version: "HTTP/1.1".to_string(),
        headers: headers.iter().map(|(k, v)| (k.to_string(), v.to_string())).collect(),
        body: body.to_vec(),
    }
}

#[test]
fn response_bytes_on_the_wire() {
    let r = HttpResponse::ok("hi".to_string());
    assert_eq!(
        r.to_bytes(),
        b"HTTP/1.1 200 OK\r\nContent-Type: text/plain; charset=utf-8\r\nContent-Length: 2\r\nConnection: close\r\n\r\nhi"
            .to_vec()
    );
    let nf = HttpResponse::not_found();
    assert_eq!(nf.status, 404);
    assert_eq!(nf.reason, "Not Found");
    assert_eq!(nf.body, "404 Not Found\n");
    let jp = HttpResponse::html("秒".to_string()).to_bytes();
    let text = String::from_utf8(jp).unwrap();
    assert!(text.starts_with("HTTP/1.1 200 OK\r\nContent-Type: text/html; charset=utf-8\r\n"));
    assert!(text.contains("Content-Length: 3\r\n"));
    assert!(text.ends_with("\r\n\r\n秒"));
}

#[test]
fn parse_simple_get() {
    let raw = b"GET /hello HTTP/1.1\r\nHost: 127.0.0.1:7878\r\nUser-Agent:  curl/8.0 \r\n\r\n";
    let req = match parse_request(raw, false) {
        Some(Ok(Some(req))) => req,
        _ => panic!("expected a request"),
    };
    assert_eq!(req.method, "GET");
    assert_eq!(req.path, "/hello");
    assert_eq!(req.version, "HTTP/1.1");
    assert_eq!(
        req.headers,
        vec![
            ("Host".to_string(), "127.0.0.1:7878".to_string()),
            ("User-Agent".to_string(), "curl/8.0".to_string()),
        ]
    );
    assert!(req.body.is_empty());
}

#[test]
fn parse_needs_more_or_ends() {
    assert!(parse_request(b"GET / HTTP/1.1\r\nHost: x\r\n", false).is_none());
    assert!(parse_request(b"GET / HTT", false).is_none());
    assert!(parse_request(b"", false).is_none());
    assert!(matches!(parse_request(b"", true), Some(Ok(None))));
    match parse_request(b"GET / HTTP/1.1\r\nHost: x\r\n", true) {
        Some(Ok(Some(req))) => assert_eq!(req.headers.len(), 1),
        _ => panic!("headers end with the input"),
    }
}

#[test]
fn parse_refusals() {
    match parse_request(b"GET\r\n\r\n", false) {
        Some(Err(e)) => {
            assert!(e.kind == RequestErrorKind::BadRequestLine);
            assert_eq!(e.line, "GET");
        }
        _ => panic!("expected a bad request line"),
    }
    match parse_request(b"GET  HTTP/1.1\n\n", false) {
        Some(Err(e)) => assert_eq!(e.line, "GET  HTTP/1.1"),
        _ => panic!("empty path"),
    }
    match parse_request(b"GET /\xff HTTP/1.1\r\n\r\n", false) {
        Some(Err(e)) => assert!(e.kind == RequestErrorKind::InvalidUtf8),
        _ => panic!("invalid UTF-8"),
    }
    let post = b"POST /submit HTTP/1.1\r\ncontent-length: 7\r\n\r\nname=a";
    assert!(parse_request(post, false).is_none());
    match parse_request(post, true) {
        Some(Err(e)) => assert!(e.kind == RequestErrorKind::UnexpectedEof),
        _ => panic!("short body"),
    }
}

#[test]
fn parse_post_body() {
    let raw = b"POST /submit HTTP/1.1\r\nContent-Length: 17\r\nno colon here\r\n\r\nname=alice&age=30EXTRA";
    let req = match parse_request(raw, false) {
        Some(Ok(Some(req))) => req,
        _ => panic!("expected a request"),
    };
    assert_eq!(req.body, b"name=alice&age=30".to_vec());
    assert_eq!(req.headers.len(), 1);
    assert_eq!(content_length(&req.headers), 17);
    let odd = vec![("CONTENT-LENGTH".to_string(), "x".to_string())];
    assert_eq!(content_length(&odd), 0);
}

#[test]
fn query_pairs() {
    let pairs = form_pairs("a=1&b&c=3=4&=5");
    assert_eq!(
        pairs,
        vec![
            ("a".to_string(), "1".to_string()),
            ("c".to_string(), "3=4".to_string()),
            ("".to_string(), "5".to_string()),
        ]
    );
    assert!(form_pairs("").is_empty());
    assert_eq!(find_value(&pairs, "c"), Some("3=4".to_string()));
    assert_eq!(find_value(&pairs, "zz"), None);
}

#[test]
fn routing() {
    let hello = route(&request("GET", "/hello", &[], b""), "127.0.0.1", 0);
    assert_eq!((hello.status, hello.body.as_str()), (200, "Hello, world!\n"));
    let home = route(&request("GET", "/?x=1", &[], b""), "127.0.0.1", 0);
    assert_eq!(home.content_type, "text/html; charset=utf-8");
    assert!(home.body.contains("<h1>Hello from net-02!</h1>"));
    let echo = route(&request("GET", "/echo?x=1&msg=hi", &[], b""), "127.0.0.1", 0);
    assert_eq!(echo.body, "hi\n");
    let hello = route(&request("GET", "/echo?msg=hello", &[], b""), "127.0.0.1:5000", 0);
    assert_eq!((hello.status, hello.body.as_str()), (200, "hello\n"));
    let missing = route(&request("GET", "/echo", &[], b""), "127.0.0.1", 0);
    assert_eq!(missing.status, 400);
    assert_eq!(missing.reason, "Bad Request");
    assert_eq!(missing.body, "400 Bad Request: msg パラメータがありません\n");
    let time = route(&request("GET", "/time", &[], b""), "127.0.0.1", 1234);
    assert_eq!(time.body, "UNIX time: 1234秒\n");
    let ip = route(&request("GET", "/ip", &[], b""), "10.1.2.3", 0);
    assert_eq!(ip.body, "クライアントのIPアドレス: 10.1.2.3\n");
    let headers = route(&request("GET", "/headers", &[("Host", "x"), ("A", "b")], b""), "", 0);
    assert_eq!(headers.body, "受信したヘッダー:\n  Host: x\n  A: b\n");
    let form = route(&request("GET", "/form", &[], b""), "", 0);
    assert!(form.body.contains("action=\"/submit\""));
    let submit = route(&request("POST", "/submit", &[], b"name=alice&age=30"), "", 0);
    assert_eq!(submit.body, "受け取ったフォームデータ:\n  name: alice\n  age: 30\n");
    let lossy = route(&request("POST", "/submit", &[], b"k=\xff"), "", 0);
    assert_eq!(lossy.body, "受け取ったフォームデータ:\n  k: \u{fffd}\n");
    let nf = route(&request("POST", "/hello", &[], b""), "", 0);
    assert_eq!(nf.status, 404);
}

#[test]
fn echo_rule() {
    assert_eq!(echo_reply("Hello, Server!"), Some("Hello, Server!\n".to_string()));
    assert_eq!(echo_reply(""), None);
}

#[test]
fn state_names() {
    assert_eq!(TcpState::SynSent.name(), "SYN_SENT");
    assert_eq!(TcpState::Established.name(), "ESTABLISHED");
    assert_eq!(TcpState::FinWait.name(), "FIN_WAIT");
}

#[test]
fn lossless_handshake_exchange() {
    let mut server = Server::new();
    server.listen();
    assert!(server.state == TcpState::Listen);
    let mut client = Client::new("Hello, TCP!".to_string());
    let syn = client.connect();
    assert!(client.state == TcpState::SynSent);
    let to_client = server.on_segment(Some(syn));
    assert!(server.state == TcpState::SynReceived);
    assert!(matches!(to_client[0], TcpFlag::SynAck { seq: 300, ack: 101 }));
    let mut to_server = client.on_segment(to_client.into_iter().next());
    assert!(client.state == TcpState::Established);
    assert!(matches!(to_server[0], TcpFlag::Ack { seq: 101, ack: 301 }));
    let data = to_server.pop();
    let ack = to_server.pop();
    assert!(server.on_segment(ack).is_empty());
    assert!(server.state == TcpState::Established);
    let mut echo = server.on_segment(data);
    match &echo[0] {
        TcpFlag::Data { seq, payload } => {
            assert_eq!(*seq, SERVER_ISN + 1);
            assert_eq!(payload, "Hello, TCP!");
        }
        _ => panic!("expected the echo"),
    }
    let fin = client.on_segment(echo.pop());
    assert!(client.state == TcpState::FinWait);
    assert!(matches!(fin[0], TcpFlag::Fin { seq: 102 }));
    let mut close = server.on_segment(fin.into_iter().next());
    assert!(server.state == TcpState::Closed);
    assert!(server.phase == Phase::Done);
    let last = close.pop();
    assert!(client.on_segment(close.pop()).is_empty());
    assert!(client.on_segment(last).is_empty());
    assert!(client.state == TcpState::Closed);
    assert!(client.phase == Phase::Done);
    assert_eq!(CLIENT_ISN, 100);
}

#[test]
fn server_ignores_non_syn() {
    let mut server = Server::new();
    server.listen();
    assert!(server.on_segment(Some(TcpFlag::Fin { seq: 1 })).is_empty());
    assert!(server.phase == Phase::Done);
    assert!(server.state == TcpState::Listen);
}

#[test]
fn segments_that_fit() {
    assert!(segment_fits(&None));
    assert!(segment_fits(&Some(TcpFlag::Syn { seq: 100 })));
    assert!(!segment_fits(&Some(TcpFlag::Syn { seq: u32::MAX })));
    assert!(!segment_fits(&Some(TcpFlag::Fin { seq: u32::MAX })));
    assert!(segment_fits(&Some(TcpFlag::Ack { seq: u32::MAX, ack: 0 })));
}
