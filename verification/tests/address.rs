use url::Url;
use vivoh_quic_dash::address::{extend_path, publisher_url, try_publisher_url};
use vivoh_quic_dash::VqdError;

fn href(server_url: &str) -> String {
    let tried = try_publisher_url(server_url).unwrap().unwrap();
    let address = publisher_url(server_url).unwrap();
    assert_eq!(address.href, tried.href);
    assert_eq!(address.path, tried.path);
    assert_eq!(address.opaque, tried.opaque);
    let parsed = Url::parse(&address.href).unwrap();
    assert_eq!(parsed.as_str(), address.href);
    assert_eq!(parsed.path(), address.path);
    assert_eq!(parsed.cannot_be_a_base(), address.opaque);
    address.href
}

/// The steps that the address is made by, on the URL itself.
fn by_hand(server_url: &str) -> String {
    let mut url = Url::parse(server_url).unwrap();
    if !url.path().ends_with("/pub") {
        let mut path = url.path().to_string();
        path.push_str(if path.ends_with('/') { "pub" } else { "/pub" });
        url.set_path(&path);
    }
    url.to_string()
}

#[test]
fn publishers_connect_below_pub() {
    assert_eq!(href("https://example.com"), "https://example.com/pub");
    assert_eq!(href("https://example.com/"), "https://example.com/pub");
    assert_eq!(href("https://example.com/live"), "https://example.com/live/pub");
    assert_eq!(href("https://example.com/live/"), "https://example.com/live/pub");
    assert_eq!(href("https://example.com/pub"), "https://example.com/pub");
    assert_eq!(href("https://example.com/live/pub"), "https://example.com/live/pub");
    assert_eq!(href("https://example.com/pub/"), "https://example.com/pub/pub");
    assert_eq!(href("https://example.com/apub"), "https://example.com/apub/pub");
    assert_eq!(href("HTTPS://Example.COM:443/a b"), "https://example.com/a%20b/pub");
    assert_eq!(href("https://example.com/live?key=1#x"), "https://example.com/live/pub?key=1#x");
    assert_eq!(href("https://example.com/a/../b"), "https://example.com/b/pub");
}

#[test]
fn addresses_agree_with_the_steps_by_hand() {
    let urls = [
        "https://example.com",
        "https://[::1]:4433/x/",
        "https://user:secret@h/%2F",
        "file:///C:/x",
        "custom:/a/b",
        "custom://h",
        "mailto:someone",
        "mailto:someone/",
        "data:",
        "https://h/\u{e9}",
    ];
    for u in urls {
        assert_eq!(href(u), by_hand(u), "{u}");
    }
}

#[test]
fn paths_end_with_pub() {
    for u in ["https://h", "https://h/a//", "mailto:someone", "mailto:someone/", "custom:/a"] {
        assert!(publisher_url(u).unwrap().path.ends_with("/pub"), "{u}");
    }
    assert_eq!(publisher_url("data:").unwrap().path, "%2Fpub");
    assert!(publisher_url("data:").unwrap().opaque);
    assert!(!publisher_url("https://h").unwrap().opaque);
}

#[test]
fn text_that_is_no_url_is_an_error() {
    for u in ["", "example.com", "https://", "https://h:99999", "https://[::1"] {
        let wanted = Url::parse(u).unwrap_err().to_string();
        match try_publisher_url(u) {
            Some(Err(VqdError::Other(message))) => assert_eq!(message, wanted),
            other => panic!("{other:?}"),
        }
    }
    match publisher_url("example.com") {
        Err(e) => assert_eq!(e.message(), "Other error: relative URL without a base"),
        Ok(address) => panic!("{address:?}"),
    }
}

#[test]
fn paths_are_extended_once() {
    assert_eq!(extend_path(""), "/pub");
    assert_eq!(extend_path("/"), "/pub");
    assert_eq!(extend_path("/pub"), "/pub");
    assert_eq!(extend_path("/live"), "/live/pub");
    assert_eq!(extend_path("/live/"), "/live/pub");
    assert_eq!(extend_path(&extend_path("/live")), "/live/pub");
}

#[test]
fn path_of_the_server_is_kept() {
    let urls = [
        "https://h",
        "https://h/a%2Fb/%7Bx%7D/",
        "https://h/C:/../x",
        "https://h//x//",
        "https://h/a|b\\c",
        "custom://h",
        "custom:/.//x",
        "custom:/a\\b",
        "mailto:someone",
        "data:x y?q",
    ];
    for u in urls {
        let given = Url::parse(u).unwrap();
        assert_eq!(publisher_url(u).unwrap().path, extend_path(given.path()), "{u}");
    }
}

#[test]
fn drive_letter_of_a_file_may_be_rewritten() {
    let u = "file:////C|/x";
    let given = Url::parse(u).unwrap();
    let address = publisher_url(u).unwrap();
    assert_eq!(address.path, "/C:/x/pub");
    assert_ne!(address.path, extend_path(given.path()));
}

#[test]
fn address_of_an_address_is_itself() {
    for u in ["https://example.com/live?key=1#x", "https://[::1]:4433/", "custom://h/a"] {
        let first = href(u);
        assert_eq!(href(&first), first);
    }
}
