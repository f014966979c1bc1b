use download_parallel::functions::{
    chunk_order, download_folder_from, saved_path, temp_folder_in, text_less, url_is_supported,
    Joiner, PieceJoin,
    LocalFunctions,
};
use download_parallel::structs::{ReqError, UrlItems};

fn parts(u: UrlItems) -> (&'static str, &'static str, &'static str, bool) {
    (u.dns, u.path, u.port, u.is_secure)
}

#[test]
fn get_slice_between_markers() {
    assert_eq!("https://host.com/a/b".get_slice("//", "/"), Some(("host.com", "a/b")));
    assert_eq!("<a href=\"x.mkv\">".get_slice("\"", "\""), Some(("x.mkv", ">")));
    assert_eq!("no markers".get_slice("//", "/"), None);
    assert_eq!("//only".get_slice("//", "/"), None);
}

#[test]
fn split_url_https() {
    let u = "https://nothing.com/dir/file.iso".split_url().unwrap();
    assert_eq!(parts(u), ("nothing.com", "dir/file.iso", "443", true));
}

#[test]
fn split_url_http_with_port() {
    let u = "http://nothing.com:3587/movies/a.mkv".split_url().unwrap();
    assert_eq!(parts(u), ("nothing.com", "movies/a.mkv", "3587", false));
}

#[test]
fn split_url_http_default_port() {
    let u = "HTTP://nothing.com/x".split_url().unwrap();
    assert_eq!(parts(u), ("nothing.com", "x", "80", false));
}

#[test]
fn split_url_ftp() {
    let u = "ftp://192.199.257/folder/f".split_url().unwrap();
    assert_eq!(parts(u), ("192.199.257", "folder/f", "21", false));
}

#[test]
fn url_support_check() {
    assert!(url_is_supported("https://a/b"));
    assert!(!url_is_supported("gopher://a/b"));
    assert!(!url_is_supported("https://no-slash-after-host"));
}

#[test]
fn error_value() {
    let e = ReqError::ErrorFound("x");
    assert_eq!(e, ReqError::ErrorFound("x"));
}

#[test]
fn download_folder_first_home_variable() {
    let vars = vec![
        ("PATH".to_string(), "/bin".to_string()),
        ("HOMEBREW_PREFIX".to_string(), "/opt".to_string()),
        ("home".to_string(), "/lower".to_string()),
        ("HOME".to_string(), "/home/me".to_string()),
        ("HOME".to_string(), "/other".to_string()),
    ];
    assert_eq!(download_folder_from(&vars), Some("/home/me/Downloads".to_string()));
    let none = vec![("USER".to_string(), "me".to_string()), ("HOMEPATH".to_string(), "x".to_string())];
    assert_eq!(download_folder_from(&none), None);
}

#[test]
fn folder_paths() {
    assert_eq!(temp_folder_in("/tmp"), "/tmp/temp_folder");
    assert_eq!(saved_path("/home/me/Downloads", "f.iso"), "/home/me/Downloads/f.iso");
}

#[test]
fn chunk_order_sorts_like_std() {
    let names = vec![
        "10_temp_file.temp".to_string(),
        "02_temp_file.temp".to_string(),
        "00_temp_file.temp".to_string(),
        "01_temp_file.temp".to_string(),
    ];
    let mut expected = names.clone();
    expected.sort();
    assert_eq!(chunk_order(names), expected);
    assert_eq!(chunk_order(vec![]), Vec::<String>::new());
}

#[test]
fn text_order() {
    assert!(text_less("ab", "b"));
    assert!(text_less("ab", "abc"));
    assert!(!text_less("abc", "abc"));
    assert!(!text_less("b", "ab"));
}

#[test]
fn joining_pieces() {
    let mut j = Joiner::new("/d/f.iso".to_string());
    assert!(j.on_piece(PieceJoin::Written));
    assert!(j.on_piece(PieceJoin::Unreadable));
    assert!(j.on_piece(PieceJoin::Written));
    assert_eq!(j.finish(), Some("/d/f.iso".to_string()));

    let mut k = Joiner::new("/d/g.iso".to_string());
    assert!(k.on_piece(PieceJoin::Written));
    assert!(!k.on_piece(PieceJoin::WriteFailed));
    assert_eq!(k.finish(), None);
}
