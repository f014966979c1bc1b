use download_parallel::reqwest::{address, build_header, request_line_exec, Reqwest, SizeStatus, Step};
use download_parallel::structs::ReqError;

const UA: &str = "User-Agent: Mozilla/5.0 (X11; Linux x86_64) AppleWebKit/537.36 (KHTML, like Gecko) Chrome/112.0.0.0 Safari/537.36\r\n";

#[test]
fn new_request_parts() {
    let r = Reqwest::new("https://host.org/files/a.iso").unwrap();
    assert_eq!(r.get_filesize(), 0);
    let u = r.url_items();
    assert_eq!((u.dns, u.path, u.port, u.is_secure), ("host.org", "files/a.iso", "443", true));
}

#[test]
fn recorded_file_size() {
    let r = Reqwest::new("http://host.org:8080/a").unwrap();
    let r = r.with_file_size(Some(1234)).unwrap();
    assert_eq!(r.get_filesize(), 1234);
    let e = Reqwest::new("http://host.org/a").unwrap().with_file_size(None);
    assert_eq!(e.unwrap_err(), ReqError::ErrorFound("File Size ERRor!!!!!!"));
}

#[test]
fn request_header_text() {
    let r = Reqwest::new("http://example.com/img/x.jpg").unwrap();
    let h = r.header("GET /img/x.jpg HTTP/1.0\r\n");
    assert_eq!(h, format!("GET /img/x.jpg HTTP/1.0\r\nHost: example.com\r\n{UA}\r\n"));
    assert_eq!(r.head_request(), format!("HEAD /img/x.jpg HTTP/1.0\r\nHost: example.com\r\n{UA}\r\n"));
    assert_eq!(build_header("h", "X\r\n"), format!("X\r\nHost: h\r\n{UA}\r\n"));
    let bare = r.header("GET /image/img.jpg HTTP/1.0");
    assert_eq!(bare, format!("GET /image/img.jpg HTTP/1.0\r\nHost: example.com\r\n{UA}\r\n"));
    assert_eq!(bare.lines().next(), Some("GET /image/img.jpg HTTP/1.0"));
    assert_eq!(build_header("h", "X\n"), format!("X\n\r\nHost: h\r\n{UA}\r\n"));
    assert_eq!(request_line_exec("GET", "a/b"), "GET /a/b HTTP/1.0\r\n");
}

#[test]
fn range_goes_after_user_agent() {
    let target = "GET / HTTP/1.0\r\nHost: h\r\nUser-Agent: z\r\n\r\n".to_string();
    let r = Reqwest::header_add_range(target, 0, 267);
    assert_eq!(r, "GET / HTTP/1.0\r\nHost: h\r\nUser-Agent: z\r\nRange: bytes=0-267\r\n\r\n");
}

#[test]
fn ranged_request_keeps_lines() {
    let r = Reqwest::new("http://example.com/v.mkv").unwrap();
    let req = r.range_request(10, 20);
    let mut expected: Vec<String> = r.header("GET /v.mkv HTTP/1.0\r\n").lines().map(|l| l.to_string()).collect();
    let pos = expected.iter().position(|l| l.contains("User-Agent")).unwrap();
    expected.insert(pos + 1, "Range: bytes=10-20".to_string());
    let got: Vec<String> = req.lines().map(|l| l.to_string()).collect();
    assert_eq!(got, expected);
}

#[test]
fn connection_address() {
    let r = Reqwest::new("http://h.net:81/a").unwrap();
    assert_eq!(address(&r.url_items()), "h.net:81");
}

#[test]
fn transfer_over_tls() {
    let r = Reqwest::new("https://h.net/a").unwrap();
    let mut t = r.bytes(0, 9);
    assert_eq!(t.request(), r.range_request(0, 9));
    assert_eq!(t.on_read(b"HTTP/1.0 206\r\n", false), Step::Continue);
    assert_eq!(t.on_read(b"\r\nabc", false), Step::Report(5));
    assert_eq!(t.on_read(b"de", false), Step::Report(2));
    assert_eq!(t.on_read(b"fg", true), Step::Done);
    assert_eq!(t.on_read(b"", false), Step::Done);
    assert!(t.has_header_end());
    assert_eq!(t.body(), b"abcde".to_vec());
}

#[test]
fn transfer_plain_reports_every_fiftieth() {
    let r = Reqwest::new("http://h.net/a").unwrap();
    let mut t = r.bytes(0, 9);
    assert_eq!(t.on_read(b"X\r\n\r\n", false), Step::Continue);
    let mut reports = vec![];
    for i in 2..=120 {
        if let Step::Report(n) = t.on_read(b"y", true) {
            reports.push((i, n));
        }
    }
    assert_eq!(reports, vec![(51, 1), (101, 1)]);
    assert_eq!(t.body().len(), 119);
}

#[test]
fn transfer_without_header_end() {
    let r = Reqwest::new("http://h.net/a").unwrap();
    let mut t = r.bytes(0, 9);
    t.on_read(b"partial\r\n", false);
    assert!(!t.has_header_end());
}

#[test]
fn size_lookup_secure() {
    let ok = "HTTP/1.1 200 OK\r\nServer: x\r\ncontent-length:  4096 \r\n\r\n";
    assert_eq!(Reqwest::get_size_status_s(ok), Some(SizeStatus::Found(4096)));
    assert_eq!(Reqwest::get_size_status_s("HTTP/1.1 302 Found\r\nLocation: x\r\n\r\n"), Some(SizeStatus::Failed));
    assert_eq!(Reqwest::get_size_status_s("HTTP/1.1 404 Not Found\r\n\r\n"), Some(SizeStatus::Failed));
    assert_eq!(Reqwest::get_size_status_s("HTTP/1.1 200 OK\r\n\r\n"), None);
    assert_eq!(Reqwest::get_size_status_s("HTTP/1.1 200 OK\r\nContent-Length: many\r\n"), None);
    assert_eq!(Reqwest::get_size_status_s(""), None);
}

#[test]
fn size_lookup_plain() {
    assert_eq!(Reqwest::get_size_status_u("HTTP/1.0 200 OK\r\nContent-Length: 77\r\n\r\n"), Some(77));
    assert_eq!(Reqwest::get_size_status_u("HTTP/1.0 404 NF\r\nCONTENT-LENGTH: 9\r\n"), Some(9));
    assert_eq!(Reqwest::get_size_status_u("HTTP/1.0 200 OK\r\n\r\n"), None);
}

#[test]
fn redirect_followed() {
    let r = Reqwest::new("https://old.org/a.iso").unwrap();
    let moved = r.redirect_target("HTTP/1.1 302 Found\r\nlocation: http://new.org:8080/b/a.iso\r\n\r\n").unwrap();
    assert_eq!((moved.dns, moved.path, moved.port, moved.is_secure), ("new.org", "b/a.iso", "8080", false));
    let same = r.redirect_target("HTTP/1.1 200 OK\r\n\r\n").unwrap();
    assert_eq!((same.dns, same.path, same.port, same.is_secure), ("old.org", "a.iso", "443", true));
    assert!(r.redirect_target("HTTP/1.1 302 Found\r\n\r\n").is_none());
    assert!(r.redirect_target("").is_none());
    assert!(r.redirect_target("HTTP/1.1 302 Found\r\nLocation: nowhere\r\n").is_none());
}
