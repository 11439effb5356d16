use z0rdl::digits::parse_trailing_number;
use z0rdl::discovery::{find_max_id, max_id_from_page, DiscoveryError, HtmlNode};
use z0rdl::scan::{archive_name_id, present_ids};

const MARKER: &str = "&laquo; Previous";

fn node(text: &str, is_tag: bool, href: Option<&str>) -> HtmlNode {
    HtmlNode { text: text.to_string(), is_tag, href: href.map(|h| h.to_string()) }
}

#[test]
fn page_without_marker_fails() {
    let page = "<html><body><a href=\"/5\">Next &raquo;</a><p>hi</p></body></html>";
    assert!(matches!(max_id_from_page(page, MARKER), Err(DiscoveryError::MarkerNotFound)));
    let nodes = vec![node("Next", true, Some("/5"))];
    assert!(matches!(find_max_id(&nodes, MARKER), Err(DiscoveryError::MarkerNotFound)));
    assert!(matches!(find_max_id(&vec![], MARKER), Err(DiscoveryError::MarkerNotFound)));
}

#[test]
fn page_with_marker_gives_its_number() {
    let page = "<html><body><div><span>page</span>\
                <a href=\"/7312\">&laquo; Previous</a></div></body></html>";
    assert_eq!(max_id_from_page(page, MARKER).ok(), Some(7312));
    let bare = "<p><b>x</b><a href=\"7312\">&laquo; Previous</a></p>";
    assert_eq!(max_id_from_page(bare, MARKER).ok(), Some(7312));
}

#[test]
fn page_marker_without_link_value() {
    let page = "<p><b>x</b><a href>&laquo; Previous</a></p>";
    assert!(matches!(max_id_from_page(page, MARKER), Err(DiscoveryError::MissingLink)));
    let page = "<p><b>x</b><a class=\"nav\">&laquo; Previous</a></p>";
    assert!(matches!(max_id_from_page(page, MARKER), Err(DiscoveryError::MissingLink)));
}

#[test]
fn discovery_error_per_node_shape() {
    let nodes = vec![node("other", true, Some("/1")), node(MARKER, false, None)];
    assert!(matches!(find_max_id(&nodes, MARKER), Err(DiscoveryError::NotALink)));
    let nodes = vec![node(MARKER, true, None)];
    assert!(matches!(find_max_id(&nodes, MARKER), Err(DiscoveryError::MissingLink)));
    let nodes = vec![node(MARKER, true, Some("/next"))];
    assert!(matches!(find_max_id(&nodes, MARKER), Err(DiscoveryError::LinkNotNumeric)));
    let nodes = vec![node(MARKER, true, Some("/99999999999999999999999"))];
    assert!(matches!(find_max_id(&nodes, MARKER), Err(DiscoveryError::LinkNotNumeric)));
    let nodes = vec![
        node("x", true, Some("/3")),
        node(MARKER, true, Some("/page/41")),
        node(MARKER, true, Some("/9")),
    ];
    assert_eq!(find_max_id(&nodes, MARKER).ok(), Some(41));
}

#[test]
fn trailing_numbers() {
    assert_eq!(parse_trailing_number("/L/z0r-de_123"), Some(123));
    assert_eq!(parse_trailing_number("0"), Some(0));
    assert_eq!(parse_trailing_number("007"), Some(7));
    assert_eq!(parse_trailing_number("12a"), None);
    assert_eq!(parse_trailing_number(""), None);
    assert_eq!(parse_trailing_number("18446744073709551615"), Some(usize::MAX));
    assert_eq!(parse_trailing_number("18446744073709551616"), None);
}

#[test]
fn archive_names() {
    assert_eq!(archive_name_id("42.swf", "swf"), Some(42));
    assert_eq!(archive_name_id("0.swf", "swf"), Some(0));
    assert_eq!(archive_name_id(".swf", "swf"), None);
    assert_eq!(archive_name_id("42.swf.part", "swf"), None);
    assert_eq!(archive_name_id("4a.swf", "swf"), None);
    assert_eq!(archive_name_id("42swf", "swf"), None);
    assert_eq!(archive_name_id("+42.swf", "swf"), None);
    assert_eq!(archive_name_id("42.SWF", "swf"), None);
}

#[test]
fn directory_listing_ids() {
    let names: Vec<String> = ["12.swf", "notes.txt", "3.swf", "x.swf", "99999999999999999999999.swf", "7.swf"]
        .iter()
        .map(|s| s.to_string())
        .collect();
    assert_eq!(present_ids(&names, "swf"), vec![12, 3, 7]);
    assert_eq!(present_ids(&vec![], "swf"), Vec::<usize>::new());
}
