use std::cmp::Ordering;

use arxburn::net::{final_url, hrefs, natural_newer, size_in_headers};
use arxburn::percent::{percent_decode, percent_encode, percent_readable};

#[test]
fn a_redirects_zero_length_is_never_mistaken_for_the_size() {
    // exactly what github answers for a release download: a 302 with no body, then the file
    let head = "HTTP/2 302\r\ncontent-length: 0\r\n\r\nHTTP/2 206\r\n\
                    content-range: bytes 0-0/4100096\r\ncontent-length: 1\r\n";
    assert_eq!(size_in_headers(head), Some(4_100_096));
}

#[test]
fn a_plain_download_reports_its_content_length() {
    let head = "HTTP/1.1 200 OK\r\nContent-Length: 4223172608\r\n";
    assert_eq!(size_in_headers(head), Some(4_223_172_608));
}

#[test]
fn headers_that_say_nothing_useful_give_no_answer_rather_than_zero() {
    assert_eq!(size_in_headers("HTTP/2 200\r\ncontent-length: 0\r\n"), None);
    assert_eq!(size_in_headers(""), None);
}

#[test]
fn versions_sort_like_versions_not_like_strings() {
    assert_eq!(natural_newer("24.10", "9.10"), Ordering::Greater);
    assert_eq!(natural_newer("2026.09.01", "2026.08.31"), Ordering::Greater);
    assert_eq!(natural_newer("Fedora-43", "Fedora-9"), Ordering::Greater);
    assert_eq!(natural_newer("1.2.3", "1.2.3"), Ordering::Equal);
}

#[test]
fn hrefs_come_out_of_real_index_pages() {
    let page = r#"<a href="../">..</a><a href='archlinux-2026.09.01-x86_64.iso'>iso</a>
                      <a href=plain.iso>x</a>"#;
    let h = hrefs(page);
    assert!(h.contains(&"archlinux-2026.09.01-x86_64.iso".to_string()));
    assert!(h.contains(&"plain.iso".to_string()));
}

#[test]
fn the_order_of_names_is_an_order() {
    let names = ["", "a", "a1", "a01", "a2", "a10", "a99999999999999999999999", "b", "-"];
    for x in names {
        for y in names {
            assert_eq!(natural_newer(x, y), natural_newer(y, x).reverse());
            for z in names {
                if natural_newer(x, y) == Ordering::Less && natural_newer(y, z) == Ordering::Less {
                    assert_eq!(natural_newer(x, z), Ordering::Less);
                }
            }
        }
    }
    assert_eq!(natural_newer("a1", "a01"), Ordering::Equal);
    assert_eq!(natural_newer("a", "a1"), Ordering::Less);
}

#[test]
fn links_are_read_in_any_case_and_in_any_quotes() {
    assert_eq!(hrefs("<A HREF=\"x\">"), vec!["x"]);
    assert_eq!(hrefs("href='a b' href=c>d"), vec!["a b", "c"]);
    assert!(hrefs("nothing here").is_empty());
}

#[test]
fn a_link_lands_only_on_an_address() {
    assert_eq!(final_url(" https://x/y.iso \n", true), Some("https://x/y.iso".to_string()));
    assert_eq!(final_url("https://x/y.iso", false), None);
    assert_eq!(final_url("", true), None);
}

#[test]
fn percent_signs_are_read_and_written() {
    assert!(percent_readable("a%20b"));
    assert_eq!(percent_decode("a%20b%2e"), "a b.");
    assert_eq!(percent_decode("100%"), "100%");
    assert_eq!(percent_decode("%zz"), "%zz");
    assert_eq!(percent_decode("%C3%A9%2B"), "\u{e9}+");
    assert_eq!(percent_decode("%ff."), "\u{fffd}.");
    assert_eq!(percent_encode("a b/\u{e9}~"), "a%20b/%C3%A9~");
    for s in ["", "plain", "a b+c%20", "\u{e9}\u{1F600}/x"] {
        let e = percent_encode(s);
        assert!(percent_readable(&e));
        assert_eq!(percent_decode(&e), s);
    }
    assert!(!percent_readable("%a\u{e9}x"));
}
