use arxburn::builtin::builtin;
use arxburn::catalog::{Family, Iso, Source};
use arxburn::cli::{block_size, command, first_plain, flag, next_chunk, opt, subject, Command};
use arxburn::dev::Device;
use arxburn::gui::{
    arrange, burn_args, detail, download_args, finished, image_dirs, is_image, job_command, judge,
    local_images, may_start, one_shot, passed_on, start_error, version, Keyed, LocalImage,
};
use arxburn::listing::{
    asked_for, describe_image, introduce_image, list_devices, list_images, list_networks, mentions,
    Filter,
};
use arxburn::resolve::Resolved;
use arxburn::say::Note;
use arxburn::update::{
    accept, advance, asset_url, consider, feed_url, latest_release, newer, published_hash,
    replacement, start, Chore, Progress, Replacement, Report,
};

fn args(v: &[&str]) -> Vec<String> {
    v.iter().map(|s| s.to_string()).collect()
}

fn lines(notes: &Vec<Note>) -> Vec<String> {
    notes
        .iter()
        .map(|n| match n {
            Note::Good(s) => format!("ok {s}"),
            Note::Bad(s) => format!("!! {s}"),
            Note::Step(s) => format!(">> {s}"),
            Note::Plain(s) => format!("-- {s}"),
            Note::Event(s) => s.clone(),
        })
        .collect()
}

#[test]
fn flags_options_and_subjects_are_read() {
    let a = args(&["x.iso", "--to", "sdc", "--yes"]);
    assert!(flag(&a, "--yes") && !flag(&a, "--loop"));
    assert_eq!(opt(&a, "--to").as_deref(), Some("sdc"));
    assert_eq!(opt(&a, "--yes"), None);
    assert_eq!(opt(&a, "--out"), None);
    assert_eq!(subject(&a).as_deref(), Some("x.iso"));
    assert_eq!(subject(&args(&["--to", "sdc"])), None);
    assert_eq!(subject(&args(&[])), None);
    assert_eq!(first_plain(&args(&["--windows", "term"])).as_deref(), Some("term"));
    assert_eq!(first_plain(&args(&["--windows"])), None);
}

#[test]
fn words_stand_for_commands() {
    let c = |s: &str| command(&Some(s.to_string()));
    assert_eq!(c("hash"), Command::Hash);
    assert_eq!(c("scheme"), Command::Inspect);
    assert_eq!(c("self-update"), Command::Update);
    assert_eq!(c("net"), Command::Networks);
    assert_eq!(c("ls"), Command::List);
    assert_eq!(c("catalog"), Command::Images);
    assert_eq!(c("download"), Command::Get);
    assert_eq!(c("w"), Command::Write);
    assert_eq!(c("check"), Command::Verify);
    assert_eq!(c("-V"), Command::Version);
    assert_eq!(c("nonsense"), Command::Usage);
    assert_eq!(command(&None), Command::Usage);
}

#[test]
fn blocks_stay_within_bounds() {
    assert_eq!(block_size(&None), 8 * 1024 * 1024);
    assert_eq!(block_size(&Some("1".into())), 64 * 1024);
    assert_eq!(block_size(&Some("999999999999".into())), 64 * 1024 * 1024);
    assert_eq!(block_size(&Some("1048576".into())), 1048576);
    assert_eq!(block_size(&Some("big".into())), 8 * 1024 * 1024);
    assert_eq!(next_chunk(10, 64), 10);
    assert_eq!(next_chunk(100, 64), 64);
}

fn device(name: &str, removable: bool, holds_root: bool, mounts: &[&str]) -> Device {
    Device {
        name: name.into(),
        path: format!("/dev/{name}"),
        size: 1 << 30,
        removable,
        model: "A model whose name is far too long to fit".into(),
        mounts: args(mounts),
        holds_root,
    }
}

#[test]
fn devices_are_listed_for_people_and_for_programs() {
    let v = vec![device("sda", false, true, &["/"]), device("sdc", true, false, &[]), device("sdd", true, false, &["/m", "/n"]), device("sde", false, false, &[])];
    let l = lines(&list_devices(&v, false));
    assert_eq!(l[0], "-- \x1b[1m  device      size        type       model                     status\x1b[0m");
    assert_eq!(l[1], "--   sda         1.0 GB      SYSTEM     A model whose name is far \x1b[31mcarries the running system (/)\x1b[0m");
    assert_eq!(l[2], "--   sdc         1.0 GB      removable  A model whose name is far \x1b[32mwritable\x1b[0m");
    assert!(l[3].ends_with("\x1b[33mwritable, mounted at /m, /n\x1b[0m"));
    assert!(l[4].contains("internal   "));
    let j = lines(&list_devices(&v[2..3].to_vec(), true));
    assert_eq!(
        j,
        vec![r#"{"event":"devices","devices":[{"name":"sdd","path":"/dev/sdd","size":1073741824,"size_human":"1.0 GB","model":"A model whose name is far too long to fit","removable":true,"holds_root":false,"mounts":["/m","/n"],"refusal":null,"refusal_internal_allowed":null}]}"#]
    );
    assert!(lines(&list_devices(&v, true))[0].contains(r#""refusal":"carries the running system (/)""#));
    assert_eq!(lines(&list_devices(&vec![], false)), vec!["!! no block devices found"]);
    assert_eq!(lines(&list_devices(&vec![], true)), vec![r#"{"event":"devices","devices":[]}"#]);
}

#[test]
fn networks_are_listed() {
    assert_eq!(
        lines(&list_networks(&args(&["eth0"]), false)),
        vec!["-- \x1b[1m  downloads will use\x1b[0m", "--     eth0", "--   \x1b[2m4 connections over eth0\x1b[0m"]
    );
    assert_eq!(lines(&list_networks(&vec![], false)), vec!["!! no network interface is up"]);
    assert_eq!(lines(&list_networks(&args(&["a"]), true)), vec![r#"{"event":"networks","networks":["a"]}"#]);
}

fn filter(term: Option<&str>, windows: bool, linux: bool, tools: bool) -> Filter {
    Filter { term: term.map(String::from), windows, linux, tools }
}

fn iso(id: &str, name: &str, family: Family, note: &str) -> Iso {
    Iso { id: id.into(), name: name.into(), family, note: note.into(), src: Source::Direct("u".into()), sums: None }
}

#[test]
fn images_are_filtered_by_family_and_term() {
    let v = vec![iso("arch", "Arch", Family::Linux, "rolling"), iso("win", "Windows", Family::Windows, "official \u{c9}"), iso("zz", "Rescue", Family::Tool, "repair")];
    let n = |f: &Filter| list_images(&v, f, false).len();
    assert_eq!(n(&filter(None, false, false, false)), 1 + 3 + 3);
    assert_eq!(n(&filter(None, true, false, false)), 1 + 1 + 3);
    assert_eq!(n(&filter(Some("RESC"), false, false, false)), 1 + 1 + 3);
    // capital and small letters are the same, in any script
    assert_eq!(n(&filter(Some("\u{e9}"), false, false, false)), 1 + 1 + 3);
    let l = lines(&list_images(&v, &filter(Some("ROLL"), false, true, false), false));
    assert_eq!(l[1], "--   arch              Arch                           \x1b[32mlinux\x1b[0m \x1b[2mrolling\x1b[0m");
    assert_eq!(l[2], "-- ");
    assert_eq!(lines(&list_images(&v, &filter(Some("nope"), false, false, false), false))[1], "!! nothing matches");
    assert_eq!(
        lines(&list_images(&v, &filter(Some("REPAIR"), false, false, true), true)),
        vec![r#"{"event":"images","images":[{"id":"zz","name":"Rescue","family":"tool","note":"repair"}]}"#]
    );
    assert_eq!(
        lines(&list_images(&v, &filter(Some("arch"), false, false, true), true)),
        vec![r#"{"event":"images","images":[]}"#]
    );
    assert!(mentions("b", "abc", "", "") && mentions("b", "", "", "b") && !mentions("b", "a", "c", "d"));
    assert_eq!(asked_for(&v, &Some("win".into())), Some(1));
    assert_eq!(asked_for(&v, &Some("wi".into())), None);
    assert_eq!(asked_for(&v, &None), None);
    assert!(list_images(&builtin(), &filter(Some("security"), false, false, false), false).len() > 2);
}

#[test]
fn an_image_that_was_looked_up_is_described() {
    let i = iso("arch", "Arch", Family::Linux, "rolling");
    let r = Resolved { url: "http://u/a.iso".into(), filename: "a.iso".into(), sha256: Some("ab".into()) };
    assert_eq!(lines(&introduce_image(&i, false)), vec![">> Arch (arch)", "--   \x1b[2mrolling\x1b[0m"]);
    assert!(introduce_image(&i, true).is_empty());
    assert_eq!(
        lines(&describe_image(&i, &r, Some(1024), true)),
        vec![r#"{"event":"image","id":"arch","name":"Arch","filename":"a.iso","url":"http://u/a.iso","size":1024,"sha256":"ab"}"#]
    );
    assert_eq!(
        lines(&describe_image(&i, &r, Some(1024), false)),
        vec![
            "ok newest: a.iso",
            "--      http://u/a.iso",
            "--      size   1.0 KB",
            "--      sha256 ab \x1b[2m(published by the project)\x1b[0m",
            "-- ",
            "--   \x1b[1marxburn get arch --to <device>\x1b[0m",
        ]
    );
    let r = Resolved { url: "u".into(), filename: "f".into(), sha256: None };
    let l = lines(&describe_image(&i, &r, None, false));
    assert_eq!(l.len(), 5);
    assert!(l[2].contains("no published sha256"));
    assert!(lines(&describe_image(&i, &r, None, true))[0].contains(r#""size":null,"sha256":null"#));
}

#[test]
fn versions_are_compared_as_numbers() {
    assert!(newer("0.10.0", "0.9.0"));
    assert!(!newer("0.9.0", "0.10.0"));
    assert!(!newer("1.0", "1.0.0") && !newer("1.0.0", "1.0"));
    assert!(newer("1.0.1", "1.0"));
    assert!(!newer("1.x", "1.0"));
    assert!(newer("2", "1.99.99"));
}

#[test]
fn the_newest_release_is_read_and_considered() {
    assert_eq!(latest_release(r#"{"tag_name":"v1.2.3","x":1}"#).as_deref(), Some("1.2.3"));
    assert_eq!(latest_release(r#"{"tag_name":null}"#), None);
    assert_eq!(latest_release("{}"), None);
    let (go, n) = consider("1.0.0", &Some("1.1.0".into()), false, false);
    assert!(go);
    assert_eq!(lines(&n), vec!["ok 1.1.0 is available (you have 1.0.0)"]);
    assert!(!consider("1.0.0", &Some("1.1.0".into()), true, false).0);
    let (go, n) = consider("1.0.0", &Some("1.0.0".into()), false, false);
    assert!(!go);
    assert_eq!(lines(&n), vec!["ok 1.0.0 is the newest release"]);
    assert_eq!(
        lines(&consider("1.0.0", &Some("1.1.0".into()), true, true).1),
        vec![r#"{"event":"update","current":"1.0.0","latest":"1.1.0","available":true}"#]
    );
    assert_eq!(lines(&consider("1.0.0", &None, false, false).1), vec!["!! cannot reach the release feed"]);
    assert_eq!(lines(&consider("1.0.0", &None, false, true).1), vec![r#"{"event":"update","error":"cannot reach the release feed"}"#]);
    assert_eq!(feed_url(), "https://api.github.com/repos/0xb0rn3/arxburn/releases/latest");
    assert_eq!(asset_url("SHA256SUMS"), "https://github.com/0xb0rn3/arxburn/releases/latest/download/SHA256SUMS");
}

#[test]
fn only_what_was_published_replaces_anything() {
    let sums = "cc  not-x-linux\naa  x-linux\nbb  gui-x-linux\n";
    assert_eq!(published_hash(sums, "gui-x-linux").as_deref(), Some("bb"));
    assert_eq!(published_hash(sums, "x-linux").as_deref(), Some("aa"));
    assert_eq!(published_hash(sums, "mac"), None);
    assert_eq!(published_hash("aa *dist/x-linux\n", "x-linux").as_deref(), Some("aa"));
    assert_eq!(published_hash("aa  x-linux \n", "x-linux"), None);
    assert!(matches!(replacement("x-linux", false, sums), Replacement::Skip));
    assert!(matches!(replacement("mac", true, sums), Replacement::Unknown(Note::Bad(m)) if m == "no published hash for mac, skipped"));
    assert!(matches!(replacement("x-linux", true, sums), Replacement::Fetch { want, .. } if want == "aa"));
    assert_eq!(accept("a", "h", "h"), Ok(()));
    assert_eq!(accept("a", "h", "i"), Err("a does not match its published sha256; nothing was replaced".to_string()));
}

#[test]
fn the_window_reads_one_line_of_an_answer() {
    assert_eq!(one_shot("noise\n{\"a\":1}\n{\"b\":2}\nmore\n", ""), Ok("{\"b\":2}".to_string()));
    assert_eq!(one_shot("nothing", "  went wrong \n"), Err("went wrong".to_string()));
    assert_eq!(one_shot("", " \n"), Err("arxburn said nothing".to_string()));
    let e = one_shot("{\"a\":", "").unwrap_err();
    assert_eq!(e, "cannot read arxburn's answer: EOF while parsing a value at line 1 column 5");
    assert_eq!(judge("{".into(), &Some("bad".into())), Err("cannot read arxburn's answer: bad".to_string()));
    assert_eq!(judge("{}".into(), &None), Ok("{}".to_string()));
    assert!(passed_on("{\"event\":\"step\"}") && passed_on("12") && !passed_on("plain words"));
}

#[test]
fn what_the_program_says_is_json() {
    let i = iso("a\"\\\n\t\u{7}", "n\u{e9}\u{1F600}", Family::Linux, "\r");
    for n in list_images(&vec![i], &filter(None, false, false, false), true) {
        if let Note::Event(line) = n {
            assert!(passed_on(&line));
            assert!(!line.contains('\n'));
            let v: serde_json::Value = serde_json::from_str(&line).unwrap();
            assert_eq!(v["images"][0]["id"].as_str(), Some("a\"\\\n\t\u{7}"));
            assert_eq!(v["images"][0]["name"].as_str(), Some("n\u{e9}\u{1F600}"));
            assert_eq!(v["images"][0]["note"].as_str(), Some("\r"));
        }
    }
}

#[test]
fn the_window_starts_jobs() {
    assert_eq!(burn_args("i", "sdc", false, true), args(&["write", "i", "--to", "sdc", "--yes"]));
    assert_eq!(burn_args("i", "sdc", true, false), args(&["write", "i", "--to", "sdc", "--yes", "--allow-internal", "--no-verify"]));
    assert_eq!(download_args("arch", "/d"), args(&["get", "arch", "--out", "/d"]));
    assert_eq!(job_command("/bin/arxburn", &args(&["x"]), true), ("pkexec".to_string(), args(&["/bin/arxburn", "x", "--json"])));
    assert_eq!(job_command("/bin/arxburn", &args(&["x"]), false), ("/bin/arxburn".to_string(), args(&["x", "--json"])));
    assert_eq!(may_start(true), Err("something is already running".to_string()));
    assert_eq!(may_start(false), Ok(()));
    assert_eq!(start_error(false, "e"), "cannot run arxburn: e");
    assert_eq!(start_error(true, "e"), "cannot start pkexec: e. Install polkit, or burn from a terminal with sudo.");
    assert_eq!(detail(&args(&["a", "b", " "])), "b");
    assert_eq!(detail(&args(&[])), "");
    assert_eq!(finished(-1, "x"), r#"{"event":"finished","code":-1,"detail":"x"}"#);
    assert_eq!(finished(0, ""), r#"{"event":"finished","code":0,"detail":""}"#);
    assert_eq!(version(&Some(" arxburn 1\n".into())), "arxburn 1");
    assert_eq!(version(&Some("\n".into())), "arxburn (not installed)");
    assert_eq!(version(&None), "arxburn (not installed)");
}

fn file(name: &str, path: &str) -> LocalImage {
    LocalImage { name: name.into(), path: path.into(), size: 1 }
}

#[test]
fn images_on_disk_are_offered_by_name() {
    let found = vec![file("b.iso", "/1/b.iso"), file("notes.txt", "/1/notes.txt"), file("A.IMG", "/1/A.IMG"), file("b.iso", "/1/b.iso"), file("B.iso", "/2/B.iso")];
    let paths: Vec<String> = local_images(&found).iter().map(|i| i.path.clone()).collect();
    assert_eq!(paths, vec!["/1/A.IMG", "/1/b.iso", "/2/B.iso"]);
    assert!(is_image("x.iso") && is_image("x.img") && !is_image("x.iso.txt"));
    let many: Vec<LocalImage> = (0..100).map(|i| file("x.iso", &format!("/{i}"))).collect();
    assert_eq!(local_images(&many).len(), 60);
    let k = |key: &str, path: &str| Keyed { key: key.into(), image: file("n", path) };
    let order: Vec<String> = arrange(vec![k("b", "1"), k("a", "2"), k("b", "3"), k("a", "2")]).iter().map(|i| i.path.clone()).collect();
    assert_eq!(order, vec!["2", "1", "3"]);
    assert_eq!(image_dirs("/h", "/w"), args(&["/h/Downloads", "/h/iso", "/h", "/w"]));
    assert_eq!(image_dirs("", ""), args(&["/Downloads", "/iso"]));
}

#[test]
fn an_update_replaces_what_is_installed_and_published() {
    let sums = "aa  arxburn-x86_64-linux\nbb  arxburn-gui-x86_64-linux\n";
    let go = |p: Progress, r: Report| advance("1.0.0", false, false, p, r);
    let t = start();
    assert!(matches!(&t.chore, Chore::Read(u) if *u == feed_url()));
    let t = go(t.progress, Report::Text(Ok(r#"{"tag_name":"v1.1.0"}"#.into())));
    assert!(matches!(t.chore, Chore::TryDirectory));
    let t = go(t.progress, Report::Directory(Ok(())));
    assert!(matches!(&t.chore, Chore::Read(u) if *u == asset_url("SHA256SUMS")));
    let t = go(t.progress, Report::Text(Ok(sums.into())));
    assert!(matches!(t.chore, Chore::Find(0)));
    let t = go(t.progress, Report::Installed(true));
    assert!(matches!(&t.chore, Chore::Fetch { asset: 0, url } if *url == asset_url("arxburn-x86_64-linux")));
    let t = go(t.progress, Report::Fetched(Ok(())));
    assert!(matches!(t.chore, Chore::Hash(0)));
    let t = go(t.progress, Report::Hashed(Ok("aa".into())));
    assert!(matches!(t.chore, Chore::Find(1)));
    // nothing is replaced before the other program was looked at
    let t = go(t.progress, Report::Installed(true));
    let t = go(t.progress, Report::Fetched(Ok(())));
    let t = go(t.progress, Report::Hashed(Ok("bb".into())));
    assert!(matches!(t.chore, Chore::Replace(0)));
    let t = go(t.progress, Report::Replaced(Ok("/usr/bin/arxburn".into())));
    assert_eq!(lines(&t.notes), vec!["ok /usr/bin/arxburn updated"]);
    assert!(matches!(t.chore, Chore::Replace(1)));
    let t = go(t.progress, Report::Replaced(Ok("/usr/bin/arxburn-gui".into())));
    assert!(matches!(t.chore, Chore::End(true)));
}

#[test]
fn a_bad_second_download_leaves_the_first_program_as_it_is() {
    let sums = "aa  arxburn-x86_64-linux\nbb  arxburn-gui-x86_64-linux\n".to_string();
    let go = |p: Progress, r: Report| advance("1.0.0", false, false, p, r);
    let t = go(Progress::Hashing { sums: sums.clone(), asset: 1, want: "bb".into(), ready: vec![0] }, Report::Hashed(Ok("cc".into())));
    assert_eq!(lines(&t.notes), vec!["!! arxburn-gui-x86_64-linux does not match its published sha256; nothing was replaced"]);
    assert!(matches!(t.chore, Chore::Discard(v) if v == vec![0, 1]));
    let t = go(Progress::Fetching { sums: sums.clone(), asset: 1, want: "bb".into(), ready: vec![0] }, Report::Fetched(Err("lost".into())));
    assert!(matches!(t.chore, Chore::Discard(v) if v == vec![0, 1]));
    // only the second one is installed, or only the first
    let t = go(Progress::Finding { sums: sums.clone(), asset: 1, ready: vec![0] }, Report::Installed(false));
    assert!(matches!(t.chore, Chore::Replace(0)));
    let t = go(Progress::Hashing { sums: sums.clone(), asset: 1, want: "bb".into(), ready: vec![] }, Report::Hashed(Ok("bb".into())));
    assert!(matches!(t.chore, Chore::Replace(1)));
    // what cannot be put in its place is removed with what was to follow
    let t = go(Progress::Replacing { sums, ready: vec![0, 1], next: 0 }, Report::Replaced(Err("busy".into())));
    assert_eq!(lines(&t.notes), vec!["!! busy"]);
    assert!(matches!(t.chore, Chore::Discard(v) if v == vec![0, 1]));
}

#[test]
fn an_update_stops_where_something_is_wrong() {
    let go = |p: Progress, r: Report| advance("1.0.0", false, false, p, r);
    assert!(matches!(go(Progress::Feed, Report::Text(Err("down".into()))).chore, Chore::End(false)));
    assert!(matches!(advance("1.0.0", false, true, Progress::Feed, Report::Text(Err("down".into()))).chore, Chore::End(true)));
    assert!(matches!(go(Progress::Feed, Report::Text(Ok(r#"{"tag_name":"v1.0.0"}"#.into()))).chore, Chore::End(true)));
    assert!(matches!(advance("1.0.0", true, false, Progress::Feed, Report::Text(Ok(r#"{"tag_name":"v2"}"#.into()))).chore, Chore::End(true)));
    let t = go(Progress::Directory, Report::Directory(Err("cannot write".into())));
    assert_eq!(lines(&t.notes), vec!["!! cannot write"]);
    assert!(matches!(t.chore, Chore::End(false)));
    assert!(matches!(go(Progress::Sums, Report::Text(Err("x".into()))).chore, Chore::End(false)));
    let t = go(Progress::Finding { sums: "".into(), asset: 1, ready: vec![] }, Report::Installed(true));
    assert_eq!(lines(&t.notes), vec!["!! no published hash for arxburn-gui-x86_64-linux, skipped"]);
    assert!(matches!(t.chore, Chore::End(true)));
    let t = go(Progress::Hashing { sums: "".into(), asset: 0, want: "aa".into(), ready: vec![] }, Report::Hashed(Ok("ab".into())));
    assert_eq!(lines(&t.notes), vec!["!! arxburn-x86_64-linux does not match its published sha256; nothing was replaced"]);
    assert!(matches!(t.chore, Chore::Discard(v) if v == vec![0]));
    let t = go(Progress::Fetching { sums: "".into(), asset: 0, want: "aa".into(), ready: vec![] }, Report::Fetched(Err("lost".into())));
    assert!(matches!(t.chore, Chore::Discard(v) if v == vec![0]));
    let t = go(Progress::Hashing { sums: "".into(), asset: 0, want: "aa".into(), ready: vec![] }, Report::Hashed(Err("io".into())));
    assert_eq!(lines(&t.notes), vec!["!! cannot read the download: io"]);
    assert!(matches!(t.chore, Chore::Discard(v) if v == vec![0]));
    let t = go(Progress::Replacing { sums: "".into(), ready: vec![0], next: 0 }, Report::Replaced(Err("busy".into())));
    assert!(matches!(t.chore, Chore::Discard(v) if v == vec![0]));
    assert!(matches!(go(Progress::Over, Report::Installed(true)).chore, Chore::End(false)));
}

#[test]
fn the_window_runs_the_installed_program_first() {
    let beside = Some("/build/arxburn".to_string());
    assert_eq!(arxburn::gui::cli(true, &beside), "arxburn");
    assert_eq!(arxburn::gui::cli(false, &beside), "/build/arxburn");
    assert_eq!(arxburn::gui::cli(true, &None), "arxburn");
    assert_eq!(arxburn::gui::cli(false, &None), "arxburn");
}
