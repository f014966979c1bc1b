use download_parallel::list_page_urls::SiteUrls;
use download_parallel::ui::{
    button_press, destination, error_message, file_name_of, finished_message, folder_choice,
    speed_parallels,
};

const PAGE: &str = "<html><a href=\"Season%201/\">S1</a><a href=\"Season%202/\">S2</a><a href=\"../\">up</a></html>";

#[test]
fn links_of_listing() {
    assert!(SiteUrls::links_are_quoted(PAGE, "Season"));
    let links = SiteUrls::filter_links(PAGE, "Season").unwrap();
    assert_eq!(links, vec!["Season%201/", "Season%202/"]);
    assert_eq!(SiteUrls::filter_links(PAGE, "Movie"), None);
}

#[test]
fn unquoted_link_detected() {
    assert!(!SiteUrls::links_are_quoted("<a href=Season1>", "Season"));
}

#[test]
fn page_answer_parts() {
    assert_eq!(SiteUrls::page_parts("HTTP/1.0 200 OK\r\nX: y\r\n\r\n<html>"), Some(Ok(("HTTP/1.0 200 OK\r\nX: y", "<html>"))));
    assert_eq!(SiteUrls::page_parts("HTTP/1.0 404 Not Found\r\n\r\nno"), Some(Err("HTTP/1.0 404 Not Found")));
    assert_eq!(SiteUrls::page_parts("no header end"), None);
    assert_eq!(SiteUrls::page_parts("\r\n\r\nbody"), None);
}

#[test]
fn page_request_text() {
    let r = SiteUrls::page_request("site.org", "tv/");
    assert!(r.starts_with("GET /tv/ HTTP/1.0\r\nHost: site.org\r\nUser-Agent: Mozilla/5.0"));
    assert!(r.ends_with("Safari/537.36\r\n\r\n"));
}

#[test]
fn speeds() {
    assert_eq!(speed_parallels("Normal"), 1);
    assert_eq!(speed_parallels(" Fast0 "), 5);
    assert_eq!(speed_parallels("Fast1"), 10);
    assert_eq!(speed_parallels("Fast2"), 15);
    assert_eq!(speed_parallels("Super"), 30);
    assert_eq!(speed_parallels("Ultra"), 60);
}

#[test]
fn saved_file_location() {
    assert_eq!(file_name_of("http://a.org/x/y/file.iso"), "file.iso");
    assert_eq!(destination("/home/me", "http://a.org/x/file.iso"), "/home/me/file.iso");
}

#[test]
fn button_toggles() {
    let s = button_press("Download");
    assert!(s.starts);
    assert_eq!((s.label, s.tooltip), ("STOP", "Stop download!!!"));
    let t = button_press("STOP");
    assert!(!t.starts);
    assert_eq!((t.label, t.tooltip), ("Download", "Select destine and begin to download!!!"));
}

#[test]
fn dialog_and_messages() {
    assert_eq!(folder_choice(String::new()), None);
    assert_eq!(folder_choice("/x".to_string()), Some("/x".to_string()));
    assert_eq!(finished_message("/d/f.iso"), "Download Finished\n/d/f.iso");
    assert_eq!(error_message("boom"), "Error Download\nboom");
}
