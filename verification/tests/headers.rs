use http_range::headers::{canonical, ACCEPT_RANGES, CONTENT_RANGE, RANGE};
use http_range::Headers;

#[test]
fn headers_insert_replaces() {
    let mut headers = Headers::new();
    assert_eq!(headers.get(RANGE), None);
    assert_eq!(headers.last(RANGE), None);
    headers.insert(RANGE, "bytes=1-5");
    headers.insert(RANGE, "bytes=6-7");
    assert_eq!(headers.get(RANGE), Some(&vec![String::from("bytes=6-7")]));
    assert_eq!(headers.last(RANGE), Some("bytes=6-7"));
}

#[test]
fn headers_append_keeps_order() {
    let mut headers = Headers::new();
    headers.append(RANGE, "a");
    headers.insert(CONTENT_RANGE, "x");
    headers.append(RANGE, "b");
    headers.append(ACCEPT_RANGES, "none");
    headers.append(RANGE, "c");
    assert_eq!(
        headers.get(RANGE),
        Some(&vec![String::from("a"), String::from("b"), String::from("c")])
    );
    assert_eq!(headers.last(RANGE), Some("c"));
    assert_eq!(headers.last(CONTENT_RANGE), Some("x"));
    assert_eq!(headers.last(ACCEPT_RANGES), Some("none"));
    headers.insert(RANGE, "d");
    assert_eq!(headers.get(RANGE), Some(&vec![String::from("d")]));
    assert_eq!(headers.last(CONTENT_RANGE), Some("x"));
}

#[test]
fn headers_names_ignore_case() {
    let mut headers = Headers::new();
    headers.insert("Content-Range", "bytes */10");
    assert_eq!(headers.last(CONTENT_RANGE), Some("bytes */10"));
    assert_eq!(headers.last("CONTENT-RANGE"), Some("bytes */10"));
    headers.append("content-RANGE", "bytes */11");
    assert_eq!(headers.get("Content-range").unwrap().len(), 2);
    assert_eq!(canonical("Accept-Ranges"), "accept-ranges");
    assert_eq!(canonical("AZ@[az`{-_09"), "az@[az`{-_09");
    assert_eq!(canonical("É"), "É");
}
