use arxburn::builtin::builtin;
use arxburn::catalog::{all, layer, overlay_paths, parse_tsv, position_of, Family, Iso, Source};
use arxburn::pick::{join, largest_iso, newest, newest_dir, readable_page, rejected, sha_from_sums};
use arxburn::resolve::{can_use, resolve, resolve_reply, Request, Resolved, Step, Waiting};

#[test]
fn newest_picks_the_newest_not_the_last() {
    let page = r#"<a href="archlinux-2026.08.01-x86_64.iso">a</a>
                      <a href="archlinux-2026.09.01-x86_64.iso">b</a>
                      <a href="archlinux-2026.07.01-x86_64.iso">c</a>
                      <a href="archlinux-bootstrap-2026.09.01-x86_64.tar.zst">d</a>"#;
    assert!(readable_page(page));
    assert_eq!(
        newest(page, "archlinux-", "-x86_64.iso", "").unwrap().0,
        "archlinux-2026.09.01-x86_64.iso"
    );
}

#[test]
fn versioned_directories_beat_string_order() {
    let page = r#"<a href="9.10/">9.10</a><a href="24.04/">24.04</a><a href="sources/">sources</a>"#;
    assert_eq!(newest_dir(page, "", "").unwrap(), "24.04");
}

#[test]
fn checksums_are_read_from_both_common_layouts() {
    let plain = "abc  other.iso\n1111111111111111111111111111111111111111111111111111111111111111  x.iso\n";
    assert_eq!(sha_from_sums(plain, "x.iso").unwrap(), "1".repeat(64));
    let bsd = "SHA256 (y.iso) = 2222222222222222222222222222222222222222222222222222222222222222\n";
    assert_eq!(sha_from_sums(bsd, "y.iso").unwrap(), "2".repeat(64));
}

#[test]
fn a_user_catalog_overrides_a_builtin_entry() {
    let tsv = "arch\tArch mine\tlinux\tlocal mirror\tdirect:http://x/y.iso\t\nzed\tZed\tlinux\tn\tindex:http://d/|p|.iso\t";
    let got = parse_tsv(tsv);
    assert_eq!(got.len(), 2);
    assert_eq!(got[0].id, "arch");
    assert!(matches!(got[1].src, Source::Index { .. }));
}

#[test]
fn a_reject_keeps_the_variant_out() {
    // Debian ships debian-mac-13.7.0-amd64-netinst.iso next to the normal one, and "m"
    // sorts after "1", so without the reject the mac build wins every time.
    let page = r#"<a href="debian-13.7.0-amd64-netinst.iso">a</a>
                      <a href="debian-mac-13.7.0-amd64-netinst.iso">b</a>"#;
    assert!(readable_page(page));
    let got = newest(page, "debian-", "-amd64-netinst.iso", "debian-mac").unwrap();
    assert_eq!(got.0, "debian-13.7.0-amd64-netinst.iso");
    let without = newest(page, "debian-", "-amd64-netinst.iso", "").unwrap();
    assert_eq!(without.0, "debian-mac-13.7.0-amd64-netinst.iso");
}

#[test]
fn the_largest_iso_in_an_archive_item_wins() {
    let meta = r#"{"files":[{"name":"small.iso","size":"100"},{"name":"readme.txt","size":"999999"},{"name":"big.iso","size":"5000"}]}"#;
    assert_eq!(largest_iso(meta).unwrap(), "big.iso");
}

#[test]
fn an_archive_item_without_an_image_has_none() {
    assert_eq!(largest_iso(r#"{"files":[{"name":"a.txt","size":"5"}]}"#), None);
    assert_eq!(largest_iso(r#"{"files":[{"name":"dir\/A.ISO"}]}"#).unwrap(), "dir/A.ISO");
}

#[test]
fn a_checksum_file_that_does_not_name_the_image_gives_nothing() {
    assert_eq!(sha_from_sums("zz  x.iso\n", "x.iso"), None);
    assert_eq!(sha_from_sums(&format!("{}  other.iso\n", "a".repeat(64)), "x.iso"), None);
    assert_eq!(sha_from_sums(&format!("{}  x.iso\n", "AB".repeat(32)), "x.iso").unwrap(), "ab".repeat(32));
    // only a line about this very file counts
    let (a, b) = ("a".repeat(64), "b".repeat(64));
    assert_eq!(sha_from_sums(&format!("{a}  box.iso\n{b}  x.iso\n"), "x.iso"), Some(b.clone()));
    assert_eq!(sha_from_sums(&format!("{a}  x.iso.sig\n{a}  my x.iso\n{b} *./x.iso\n"), "x.iso"), Some(b.clone()));
    assert_eq!(sha_from_sums(&format!("{b} *my x.iso\n"), "my x.iso"), Some(b.clone()));
    // whatever directory it is in
    assert_eq!(sha_from_sums(&format!("{a}  dir/box.iso\n{b}  dir/x.iso\n"), "x.iso"), Some(b.clone()));
    assert_eq!(sha_from_sums(&format!("SHA256 (/a/dir/x.iso) = {b}\n"), "x.iso"), Some(b.clone()));
    assert_eq!(sha_from_sums(&format!("SHA256 (box.iso) = {a}\nSHA256 (x.iso) = {b}\n"), "x.iso"), Some(b.clone()));
    assert_eq!(sha_from_sums(&format!("SHA256 (x (1).iso) = {b}\n"), "x (1).iso"), Some(b.clone()));
    assert_eq!(sha_from_sums(&format!("x.iso = {b}\n"), "x.iso"), Some(b));
}

#[test]
fn reject_lists_are_comma_separated() {
    let name: Vec<char> = "debian-edu-13.iso".chars().collect();
    assert!(rejected(&name, "mac, edu"));
    assert!(!rejected(&name, "mac,,live"));
    assert!(!rejected(&name, ""));
}

#[test]
fn addresses_are_joined_with_one_slash() {
    assert_eq!(join("http://a/b", "c.iso"), "http://a/b/c.iso");
    assert_eq!(join("http://a/b/", "./c.iso"), "http://a/b/c.iso");
    assert_eq!(join("http://a/b/", "https://cdn/c.iso"), "https://cdn/c.iso");
}

#[test]
fn the_built_in_catalog_has_distinct_ids() {
    let list = builtin();
    assert_eq!(list.len(), 35);
    for i in 0..list.len() {
        for j in 0..i {
            assert_ne!(list[i].id, list[j].id);
        }
    }
    assert_eq!(list[position_of(&list, "arch").unwrap()].family, Family::Linux);
    assert_eq!(position_of(&list, "no-such-image"), None);
}

#[test]
fn an_overlay_replaces_by_id_and_adds_the_rest() {
    let table = "arch\tArch (local)\tlinux\tfrom the LAN\tdirect:http://m/a.iso\nmine\tOur build\ttool\tnightly\tarchive:x\tsums.txt\n";
    let list = all(&vec![table.to_string()]);
    assert_eq!(list.len(), builtin().len() + 1);
    let a = &list[position_of(&list, "arch").unwrap()];
    assert_eq!(a.name, "Arch (local)");
    assert!(matches!(&a.src, Source::Direct(u) if u == "http://m/a.iso"));
    assert_eq!(a.sums, None);
    let m = &list[position_of(&list, "mine").unwrap()];
    assert_eq!(m.family, Family::Tool);
    assert_eq!(m.sums.as_deref(), Some("sums.txt"));
    assert_eq!(all(&vec![]).len(), builtin().len());
    let mut again = builtin();
    layer(&mut again, table);
    assert_eq!(again.len(), list.len());
}

#[test]
fn lines_that_describe_nothing_are_left_out() {
    let t = "# a comment\n\nshort\tline\nid\tn\tlinux\tnote\tnosuch:thing\nid2\tn\tlinux\tnote\tindex:only|two\nok\tn\twindows\tnote\tgithub:o/r|.iso\nw\tn\tWINDOWS\tnote\tfwlink:http://f\nc\tn\tx\tnote\tchain:r|d|s|p|x|rej\nv\tn\tx\tnote\twindows:http://p";
    let got = parse_tsv(t);
    let ids: Vec<&str> = got.iter().map(|i| i.id.as_str()).collect();
    assert_eq!(ids, vec!["ok", "w", "c", "v"]);
    assert_eq!(got[0].family.label(), "windows");
    assert_eq!(got[1].family, Family::Windows);
    assert!(matches!(&got[2].src, Source::Chain { reject, .. } if reject == "rej"));
    assert!(matches!(&got[3].src, Source::Windows(u) if u == "http://p"));
}

#[test]
fn overlays_are_looked_for_in_three_places() {
    let p = overlay_paths(Some("/x.tsv".into()), Some("/home/me".into()));
    assert_eq!(p, vec!["/x.tsv", "/home/me/.config/arxburn/catalog.tsv", "/etc/arxburn/catalog.tsv"]);
    assert_eq!(overlay_paths(None, None), vec!["/etc/arxburn/catalog.tsv"]);
}

fn entry(src: Source, sums: Option<&str>) -> Iso {
    Iso {
        id: "i".into(),
        name: "n".into(),
        family: Family::Linux,
        note: "".into(),
        src,
        sums: sums.map(String::from),
    }
}

fn asked(s: Step) -> (String, Waiting) {
    match s {
        Step::Ask { request, waiting } => {
            let what = match request {
                Request::Text(u) => format!("text {u}"),
                Request::TextWith { url, headers } => format!("with {url} {}", headers.join("|")),
                Request::FinalUrl(u) => format!("final {u}"),
                Request::SessionId => "session".to_string(),
            };
            (what, waiting)
        }
        Step::Found(r) => panic!("found {}", r.url),
        Step::Failed(e) => panic!("failed {e}"),
    }
}

fn found(s: Step) -> Resolved {
    match s {
        Step::Found(r) => r,
        Step::Failed(e) => panic!("failed {e}"),
        Step::Ask { .. } => panic!("asked"),
    }
}

fn failed(s: Step) -> String {
    match s {
        Step::Failed(e) => e,
        Step::Found(r) => panic!("found {}", r.url),
        Step::Ask { .. } => panic!("asked"),
    }
}

fn reply(w: Waiting, r: Result<String, String>) -> Step {
    assert!(can_use(&w, &r));
    resolve_reply(w, r)
}

#[test]
fn a_direct_link_is_found_at_once_or_after_its_checksums() {
    let r = found(resolve(&entry(Source::Direct("http://h/d/x.iso".into()), None)));
    assert_eq!((r.url.as_str(), r.filename.as_str(), r.sha256), ("http://h/d/x.iso", "x.iso", None));
    let (q, w) = asked(resolve(&entry(Source::Direct("http://h/d/x.iso".into()), Some("SUMS"))));
    assert_eq!(q, "text http://h/d/SUMS");
    let r = found(reply(w, Ok(format!("{}  x.iso\n", "c".repeat(64)))));
    assert_eq!(r.sha256, Some("c".repeat(64)));
    let (_, w) = asked(resolve(&entry(Source::Direct("http://h/d/x.iso".into()), Some("SUMS"))));
    assert_eq!(found(reply(w, Err("no".into()))).sha256, None);
}

#[test]
fn a_chain_goes_from_the_newest_directory_to_its_newest_image() {
    let src = Source::Chain {
        root: "http://h/".into(),
        dir_prefix: "".into(),
        sub: "iso".into(),
        prefix: "p-".into(),
        suffix: ".iso".into(),
        reject: "beta".into(),
    };
    let (q, w) = asked(resolve(&entry(src, None)));
    assert_eq!(q, "text http://h/");
    let (q, w) = asked(reply(w, Ok(r#"<a href="9/"><a href="10/"><a href="11-beta/">"#.into())));
    assert_eq!(q, "text http://h/10/iso/");
    let r = found(reply(w, Ok(r#"<a href="p-1.iso"><a href="p-2.iso">"#.into())));
    assert_eq!(r.url, "http://h/10/iso/p-2.iso");
    assert_eq!(r.filename, "p-2.iso");
}

#[test]
fn a_page_or_listing_with_nothing_on_it_says_so() {
    let src = Source::Index { dir: "http://d".into(), prefix: "a".into(), suffix: ".iso".into(), reject: "".into() };
    let (_, w) = asked(resolve(&entry(src, None)));
    assert_eq!(failed(reply(w, Ok("".into()))), "no image matching a*.iso at http://d");
    let src = Source::Chain {
        root: "http://r".into(),
        dir_prefix: "".into(),
        sub: "".into(),
        prefix: "".into(),
        suffix: "".into(),
        reject: "".into(),
    };
    let (_, w) = asked(resolve(&entry(src, None)));
    assert_eq!(failed(reply(w, Ok("".into()))), "no versioned directory under http://r");
    let (_, w) = asked(resolve(&entry(Source::Archive("it".into()), None)));
    assert_eq!(failed(reply(w, Ok("{}".into()))), "archive.org item it has no .iso");
    let (_, w) = asked(resolve(&entry(Source::Github { repo: "o/r".into(), suffix: ".iso".into() }, None)));
    assert_eq!(failed(reply(w, Ok("{}".into()))), "newest o/r release has no asset ending in .iso");
    let (_, w) = asked(resolve(&entry(Source::Fwlink("http://f".into()), None)));
    assert_eq!(failed(reply(w, Err("".into()))), "Microsoft's link did not redirect anywhere");
    let (_, w) = asked(resolve(&entry(Source::Archive("it".into()), None)));
    assert_eq!(failed(reply(w, Err("curl could not read it".into()))), "curl could not read it");
}

#[test]
fn releases_archives_and_links_are_read() {
    let (q, w) = asked(resolve(&entry(Source::Github { repo: "o/r".into(), suffix: ".iso".into() }, None)));
    assert_eq!(q, "text https://api.github.com/repos/o/r/releases/latest");
    let body = r#"{"assets":[{"browser_download_url":"http://g/a.txt"},{"browser_download_url":"http://g/a.iso"}]}"#;
    let r = found(reply(w, Ok(body.into())));
    assert_eq!((r.url.as_str(), r.filename.as_str()), ("http://g/a.iso", "a.iso"));
    let (q, w) = asked(resolve(&entry(Source::Archive("item".into()), None)));
    assert_eq!(q, "text https://archive.org/metadata/item");
    let r = found(reply(w, Ok(r#"{"name":"a b.iso","size":"5"}"#.into())));
    assert_eq!(r.url, "https://archive.org/download/item/a%20b.iso");
    assert_eq!(r.filename, "a b.iso");
    let (q, w) = asked(resolve(&entry(Source::Fwlink("http://f".into()), None)));
    assert_eq!(q, "final http://f");
    let r = found(reply(w, Ok("https://x/y/win.iso?t=1/2".into())));
    assert_eq!(r.filename, "win.iso");
}

#[test]
fn windows_is_found_the_way_a_browser_does() {
    let page = "https://www.microsoft.com/p";
    let (q, w) = asked(resolve(&entry(Source::Windows(page.into()), None)));
    assert_eq!(q, "session");
    let (q, w) = asked(reply(w, Ok("abc-1\n".into())));
    assert!(q.starts_with("with https://www.microsoft.com/p User-Agent: Mozilla/5.0"));
    let (q, w) = asked(reply(w, Ok(r#"<option value="x"><option value="2618">"#.into())));
    assert_eq!(q, "text https://vlscppe.microsoft.com/fp/tags?org_id=y6jn8c31&session_id=abc-1");
    let (q, w) = asked(reply(w, Err("ignored".into())));
    assert!(q.contains("ProductEditionId=2618&SKU=undefined"));
    assert!(q.contains("Referer: https://www.microsoft.com/p|Accept: "));
    let skus = r#"{"Skus":[{"Id":"1","Language":"Arabic"},{"Id":"2","Language":"English International"},{"Id":"3","Language":"English"}]}"#;
    let (q, w) = asked(reply(w, Ok(skus.into())));
    assert!(q.contains("SKU=3&friendlyFileName=undefined&Locale=en-US&sessionID=abc-1"));
    let r = found(reply(w, Ok(r#"{"Uri":"https:\/\/s\/Win11.iso?t=1&e=2"}"#.into())));
    assert_eq!(r.url, "https://s/Win11.iso?t=1&e=2");
    assert_eq!(r.filename, "Win11.iso");
}

#[test]
fn windows_says_why_it_was_turned_away() {
    let go = |n: usize, last: Result<String, String>| -> String {
        let (_, mut w) = asked(resolve(&entry(Source::Windows("PAGE".into()), None)));
        let good = ["id", "option value=\"1\"", "", "{\"Id\":\"7\",\"Language\":\"Dutch\""];
        for g in good.iter().take(n) {
            w = asked(reply(w, Ok(g.to_string()))).1;
        }
        failed(reply(w, last))
    };
    let tail = "\n     Microsoft hands consumer images out through a browser session, and refuses requests it thinks are automated.\n     Either download it from PAGE yourself and run `arxburn write <file> --to <device>`,\n     or use the official evaluation image, which needs no account: `arxburn get win11-eval`";
    assert_eq!(go(0, Err("gone".into())), format!("no uuid source: gone{tail}"));
    assert_eq!(go(1, Err("down".into())), format!("down{tail}"));
    assert_eq!(go(1, Ok("".into())), format!("Microsoft's page no longer lists a product edition{tail}"));
    assert_eq!(go(3, Ok("SentinelReject".into())), format!("Microsoft's anti-bot rejected this request{tail}"));
    assert_eq!(go(3, Ok("".into())), format!("Microsoft listed no edition to download{tail}"));
    assert_eq!(go(4, Ok("x SentinelReject".into())), format!("Microsoft's anti-bot rejected this request{tail}"));
    assert_eq!(go(4, Ok("".into())), format!("Microsoft returned no download link{tail}"));
}
