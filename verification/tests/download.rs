use std::collections::HashMap;

use arxburn::fetch::{
    aside_name, before_read, can_prepare, describe, in_parallel, interfaces, load_done, networks, outcome,
    prepare, probe, range_args, range_outcome, save_done, state_name, streams_option, Attempt,
    Before, Opts, Probe,
};
use arxburn::get::{
    can_go_on, fall_back, find_image, judge, keep, late_total, stated_size, tell_download, tell_engine,
    tell_ready, tell_size, Local,
};
use arxburn::acquire::{advance, start, Move, Outcome, Phase, Place, Task, Wish};
use arxburn::builtin::builtin;
use arxburn::resolve::Resolved;
use arxburn::plan::{
    stream_nets, Block, Idle, Job, Plan, Settled, Speed, Status, Work, MAX_ATTEMPTS_PER_BLOCK,
    MAX_HEDGES_PER_BLOCK,
};
use arxburn::say::{show, Note, Shown};

fn plan(states: &[(Status, Option<&str>)]) -> Plan {
    let blocks = states
        .iter()
        .enumerate()
        .map(|(i, (s, avoid))| Block {
            index: i,
            start: i as u64 * 100,
            end: i as u64 * 100 + 99,
            status: *s,
            got: 0,
            avoid: avoid.map(String::from),
            hedges: 0,
            fails: 0,
            attempts: Vec::new(),
        })
        .collect();
    Plan { blocks, idle_by_net: Idle::new(), speed: HashMap::new() }
}

#[test]
fn a_network_that_failed_a_block_leaves_it_to_another_one() {
    let mut p = plan(&[(Status::Pending, Some("wlan0")), (Status::Pending, None)]);
    p.idle_by_net.insert("eth0".into(), 1);
    // wlan0 skips the block it already failed, because eth0 is free to take it
    assert_eq!(p.next_waiting("wlan0"), Some(1));
    // eth0 has no such history, so it takes the first one
    assert_eq!(p.next_waiting("eth0"), Some(0));
}

#[test]
fn a_block_is_never_stranded_when_no_other_network_is_free() {
    let mut p = plan(&[(Status::Pending, Some("wlan0"))]);
    p.idle_by_net.insert("wlan0".into(), 1);
    assert_eq!(p.next_waiting("wlan0"), Some(0), "with nobody else free it must be taken anyway");
}

#[test]
fn hedging_never_steals_from_work_that_still_needs_doing() {
    let now: u64 = 60_000;
    let mut p = plan(&[(Status::Running, None), (Status::Pending, None)]);
    p.blocks[0].attempts.push((1, "wlan0".into(), now - 60_000));
    assert!(
        p.next_hedge(2, "eth0", now).is_none(),
        "a block is still waiting, so a second attempt must not be started"
    );
}

#[test]
fn a_slow_holder_gets_hedged_once_nothing_is_waiting() {
    let now: u64 = 60_000;
    let mut p = plan(&[(Status::Running, None)]);
    p.blocks[0].attempts.push((1, "wlan0".into(), now - 60_000));
    p.speed.insert(1, Speed { bytes: 1, ms: 1000 }); // one byte a second: it will never finish
    assert_eq!(p.next_hedge(2, "eth0", now), Some(0));
    // but not past the cap
    p.blocks[0].hedges = MAX_HEDGES_PER_BLOCK;
    assert!(p.next_hedge(2, "eth0", now).is_none());
}

#[test]
fn a_holder_that_is_nearly_finished_is_left_alone() {
    let now: u64 = 60_000;
    let mut p = plan(&[(Status::Running, None)]);
    p.blocks[0].attempts.push((1, "wlan0".into(), now - 60_000));
    p.speed.insert(1, Speed { bytes: 1_000_000, ms: 1000 }); // 100 bytes left: done in a blink
    assert!(p.next_hedge(2, "eth0", now).is_none());
}

#[test]
fn the_slowest_of_several_holders_is_hedged() {
    let now: u64 = 60_000;
    let mut p = plan(&[(Status::Running, None), (Status::Running, None), (Status::Running, None)]);
    for i in 0..3 {
        p.blocks[i].attempts.push((i, "wlan0".into(), 0));
    }
    p.speed.insert(0, Speed { bytes: 9000, ms: 1000 });
    p.speed.insert(1, Speed { bytes: 3, ms: 1000 });
    p.speed.insert(2, Speed { bytes: 2, ms: 1000 });
    assert_eq!(p.next_hedge(7, "eth0", now), Some(2));
    p.speed.insert(0, Speed { bytes: 1, ms: 5000 });
    assert_eq!(p.next_hedge(7, "eth0", now), Some(0));
    assert_eq!(p.next_hedge(0, "eth0", now), Some(2));
    p.blocks[0].avoid = Some("eth0".into());
    assert_eq!(p.next_hedge(7, "eth0", now), Some(2));
    assert_eq!(p.next_hedge(7, "eth0", 7_999), None);
    // the network of the holders waits while another one has a stream free
    p.idle_by_net.insert("eth0".into(), 1);
    assert_eq!(p.next_hedge(7, "wlan0", now), Some(0));
    p.idle_by_net.insert("usb0".into(), 1);
    assert_eq!(p.next_hedge(7, "wlan0", now), None);
}

#[test]
fn blocks_cover_a_file_and_resume_where_the_record_says() {
    let nets = vec!["eth0".to_string(), "wlan0".to_string()];
    let streams = stream_nets(&nets, 2);
    assert_eq!(streams, vec!["eth0", "eth0", "wlan0", "wlan0"]);
    let p = Plan::new(250, 100, &vec![1], &streams);
    let spans: Vec<(u64, u64, Status)> = p.blocks.iter().map(|b| (b.start, b.end, b.status)).collect();
    assert_eq!(spans, vec![(0, 99, Status::Pending), (100, 199, Status::Done), (200, 249, Status::Pending)]);
    assert_eq!(p.resumed(250, 100, &vec![1]), 100);
    assert_eq!(p.idle_by_net.get("eth0"), Some(2));
    assert_eq!(p.idle_by_net.get("lo"), None);
    assert!(Plan::new(0, 100, &vec![], &streams).finished());
    assert_eq!(Plan::new(200, 100, &vec![], &streams).blocks.len(), 2);
    assert_eq!(p.blocks[2].len(), 50);
}

fn job(index: usize, start: u64, end: u64) -> Job {
    Job { index, start, end }
}

#[test]
fn a_holder_and_its_hedge_count_the_same_bytes_once() {
    let streams = vec!["a".to_string(), "b".to_string()];
    let mut p = Plan::new(100, 100, &vec![], &streams);
    let mut failed: Option<String> = None;
    assert_eq!(p.take(0, "a", 0), Some(job(0, 0, 99)));
    assert_eq!(p.take(1, "b", 10_000), Some(job(0, 0, 99)));
    assert!(matches!(p.settle(job(0, 0, 99), 0, "a", &Ok(60), &mut failed), Settled::Going));
    assert!(matches!(p.settle(job(0, 0, 99), 1, "b", &Ok(60), &mut failed), Settled::Going));
    assert!(!p.finished());
    assert_eq!(p.blocks[0].got, 60);
    // the rest of it is still owed
    assert_eq!(p.take(0, "a", 10_001), Some(job(0, 60, 99)));
    assert!(matches!(p.settle(job(0, 60, 99), 0, "a", &Ok(40), &mut failed), Settled::Saved(v) if v == vec![0]));
    assert!(p.finished());
    // one that falls behind takes nothing back, and one that sends too much adds nothing
    let mut q = Plan::new(200, 100, &vec![], &streams);
    q.take(0, "a", 0);
    q.take(1, "b", 0);
    q.take(2, "b", 10_000);
    q.settle(job(0, 0, 99), 0, "a", &Ok(80), &mut failed);
    q.settle(job(0, 0, 99), 2, "b", &Ok(30), &mut failed);
    assert_eq!(q.blocks[0].got, 80);
    q.settle(job(1, 100, 199), 1, "b", &Ok(u64::MAX), &mut failed);
    assert_eq!(q.blocks[1].got, 100);
    assert!(!q.has_room(job(0, 81, 99), "a") && q.has_room(job(0, 80, 99), "a") && !q.has_room(job(9, 0, 1), "a"));
}

#[test]
fn an_attempt_that_just_ends_counts_as_empty() {
    let streams = vec!["eth0".to_string()];
    let mut p = Plan::new(100, 100, &vec![], &streams);
    let mut failed: Option<String> = None;
    for n in 1..=MAX_ATTEMPTS_PER_BLOCK {
        let j = p.take(0, "eth0", 0).unwrap();
        let s = p.settle(j, 0, "eth0", &Ok(0), &mut failed);
        assert_eq!(matches!(s, Settled::GiveUp), n == MAX_ATTEMPTS_PER_BLOCK);
        assert_eq!(p.blocks[0].fails, n);
    }
    assert_eq!(p.blocks[0].avoid.as_deref(), Some("eth0"));
    assert_eq!(failed, None);
}

#[test]
fn a_block_goes_from_waiting_to_done() {
    let streams = vec!["eth0".to_string(), "eth0".to_string()];
    let mut p = Plan::new(150, 100, &vec![], &streams);
    let mut failed: Option<String> = None;
    assert_eq!(p.take(0, "eth0", 5), Some(Job { index: 0, start: 0, end: 99 }));
    assert_eq!(p.idle_by_net.get("eth0"), Some(1));
    assert_eq!(p.take(1, "eth0", 5), Some(Job { index: 1, start: 100, end: 149 }));
    assert_eq!(p.take(2, "eth0", 5), None);
    assert_eq!(p.pick(2, "eth0", 9_000), Work::Hedge(0));
    // a partial answer is continued where it stopped
    let (first, second) = (job(0, 0, 99), job(1, 100, 149));
    assert!(p.has_room(first, "eth0"));
    assert!(matches!(p.settle(first, 0, "eth0", &Ok(40), &mut failed), Settled::Going));
    assert_eq!(p.take(0, "eth0", 6), Some(Job { index: 0, start: 40, end: 99 }));
    assert!(matches!(p.settle(job(0, 40, 99), 0, "eth0", &Ok(60), &mut failed), Settled::Saved(v) if v == vec![0]));
    assert!(!p.finished());
    assert!(matches!(p.settle(second, 1, "eth0", &Ok(50), &mut failed), Settled::Saved(v) if v == vec![0, 1]));
    assert!(p.finished());
    assert_eq!(failed, None);
    assert!(matches!(p.settle(second, 5, "eth0", &Ok(9), &mut failed), Settled::Going));
    assert!(p.finished());
}

#[test]
fn a_block_that_cannot_be_fetched_stops_the_download() {
    let streams = vec!["eth0".to_string()];
    let mut p = Plan::new(100, 100, &vec![], &streams);
    let mut failed: Option<String> = None;
    for n in 1..=MAX_ATTEMPTS_PER_BLOCK {
        assert_eq!(p.take(0, "eth0", 0), Some(Job { index: 0, start: 0, end: 99 }));
        let e: Result<u64, String> = Err(format!("error {n}"));
        assert!(p.has_room(job(0, 0, 99), "eth0"));
        let s = p.settle(job(0, 0, 99), 0, "eth0", &e, &mut failed);
        assert_eq!(matches!(s, Settled::GiveUp), n == MAX_ATTEMPTS_PER_BLOCK);
        assert_eq!(p.blocks[0].avoid.as_deref(), Some("eth0"));
    }
    assert_eq!(failed.as_deref(), Some("error 1"));
    assert_eq!(MAX_ATTEMPTS_PER_BLOCK, 5);
    // one that delivered something is not counted
    let mut q = Plan::new(100, 100, &vec![], &streams);
    q.take(0, "eth0", 0);
    q.settle(job(0, 0, 99), 0, "eth0", &Ok(10), &mut failed);
    q.take(0, "eth0", 0);
    assert!(matches!(q.settle(job(0, 10, 99), 0, "eth0", &Err("x".into()), &mut failed), Settled::Going));
    assert_eq!(q.blocks[0].fails, 0);
}

#[test]
fn no_block_is_hedged_more_than_twice() {
    let streams = vec!["a".to_string(), "b".to_string(), "c".to_string()];
    let mut p = Plan::new(100, 100, &vec![], &streams);
    let mut failed: Option<String> = None;
    p.take(0, "a", 0);
    for k in 0..2 {
        assert!(p.take(1, "b", 10_000).is_some(), "{k}");
        p.settle(job(0, 0, 99), 1, "c", &Err("slow".into()), &mut failed);
    }
    assert_eq!(p.blocks[0].hedges, 2);
    assert_eq!(p.take(1, "b", 10_000), None);
}

#[test]
fn a_probe_reads_the_size_and_whether_ranges_work() {
    let head = "HTTP/2 302\r\ncontent-length: 0\r\n\r\nHTTP/2 206\r\nContent-Range: bytes 0-0/4223172608\r\nContent-Length: 1\r\n";
    assert_eq!(probe(head), Probe { size: 4223172608, ranges: true });
    assert_eq!(probe("HTTP/1.1 200 OK\r\nContent-Length: 77\r\n"), Probe { size: 77, ranges: false });
    assert_eq!(probe(""), Probe { size: 0, ranges: false });
}

#[test]
fn only_real_networks_that_are_up_are_used() {
    let routes = "Iface\tDestination\nwlan0\t0\nlo\t0\neth0\t0\nwlan0\t1\ndocker0\t0\nvirbr0\t0\nbr-1\t0\n\n";
    let found = interfaces(routes);
    assert_eq!(found, vec!["wlan0", "eth0", "docker0", "virbr0", "br-1"]);
    let up = |s: &str| Some(s.to_string());
    let states = vec![up("up\n"), up("down\n"), up("up"), up("up"), up("up")];
    assert_eq!(networks(&found, &states), vec!["wlan0"]);
    let states = vec![up("unknown"), up("up"), None, None, None];
    assert_eq!(networks(&found, &states), vec!["wlan0", "eth0"]);
    assert!(interfaces("").is_empty());
}

#[test]
fn the_engine_describes_itself() {
    let two = vec!["eth0".to_string(), "wlan0".to_string()];
    assert_eq!(describe(&two, 4), "8 connections over eth0, wlan0");
    assert_eq!(describe(&vec!["eth0".to_string()], 1), "1 connection over eth0");
    assert_eq!(describe(&vec![], 4), "no network interface is up");
}

#[test]
fn a_record_reads_back_and_is_not_trusted_for_another_file() {
    let r = save_done("http://x/y.iso", 500, 20, &vec![0, 3, 12]);
    assert_eq!(r, "http://x/y.iso\n500\n20\n0,3,12\n");
    assert_eq!(load_done(&r, "http://x/y.iso", 500, 20), vec![0, 3, 12]);
    assert!(load_done(&r, "http://x/z.iso", 500, 20).is_empty());
    assert!(load_done(&r, "http://x/y.iso", 501, 20).is_empty());
    assert!(load_done(&r, "http://x/y.iso", 500, 40).is_empty());
    assert!(load_done(&save_done("u", 1, 1, &vec![]), "u", 1, 1).is_empty());
    assert_eq!(load_done("u\n1\n9\n2,x,,4", "u", 1, 9), vec![2, 4]);
    assert!(load_done("", "u", 1, 1).is_empty());
    assert!(load_done("u\n1\n0,1", "u", 1, 1).is_empty());
    assert_eq!(state_name("a.iso"), ".a.iso.arxburn");
    assert_eq!(aside_name("a.iso"), ".a.iso.arxburn-anew");
}

#[test]
fn a_download_is_made_ready() {
    let opts = Opts::default();
    let found = vec!["eth0".to_string()];
    let size: u64 = 1 << 30;
    assert!(can_prepare("u", size, &opts, &found, &None, None));
    let record = Some(save_done("u", size, 64 << 20, &vec![0]));
    let r = match prepare("u", size, &opts, &found, &record, Some(size)) {
        Ok(r) => r,
        Err(e) => panic!("{e}"),
    };
    assert_eq!(r.block, 64 << 20);
    assert_eq!(r.record, save_done("u", size, 64 << 20, &vec![0]));
    // blocks of another size are gone on with as they were cut
    let other = Some(save_done("u", size, 32 << 20, &vec![0, 5]));
    assert!(can_prepare("u", size, &opts, &found, &other, Some(size)));
    assert!(matches!(
        prepare("u", size, &opts, &found, &other, Some(size)),
        Ok(x) if x.resumed == 64 << 20 && x.block == 32 << 20 && x.plan.blocks.len() == 32 && Some(&x.record) == other.as_ref()
    ));
    // a record with nothing done, of no blocks, of another file, or of one that is gone, says nothing
    let empty = Some(save_done("u", size, 32 << 20, &vec![]));
    assert!(matches!(prepare("u", size, &opts, &found, &empty, Some(size)), Ok(x) if x.resumed == 0 && x.block == 64 << 20));
    let none_at_all = Some(save_done("u", size, 0, &vec![0]));
    assert!(matches!(prepare("u", size, &opts, &found, &none_at_all, Some(size)), Ok(x) if x.resumed == 0 && x.block == 64 << 20));
    assert!(matches!(prepare("v", size, &opts, &found, &record, Some(size)), Ok(x) if x.resumed == 0));
    assert!(matches!(prepare("u", size, &opts, &found, &record, None), Ok(x) if x.resumed == 0));
    assert!(matches!(prepare("u", size, &opts, &found, &record, Some(5)), Ok(x) if x.resumed == 0));
    assert_eq!(r.streams.len(), 4);
    assert_eq!(r.plan.blocks.len(), 16);
    assert_eq!(r.resumed, 64 << 20);
    let r = match prepare("u", 20 << 20, &opts, &vec![], &None, None) {
        Ok(r) => r,
        Err(e) => panic!("{e}"),
    };
    assert_eq!(r.streams, vec!["", "", "", ""]);
    assert_eq!(r.plan.blocks.len(), 3);
    let none = Opts { streams_per_network: 0, ..Default::default() };
    assert!(matches!(prepare("u", 5, &none, &found, &None, None), Err(e) if e == "no usable network"));
}

#[test]
fn a_range_is_asked_for_and_judged() {
    let a = range_args("http://u", "eth0", 5, 9);
    assert_eq!(a[8..], ["-r", "5-9", "--interface", "eth0", "http://u"].map(String::from));
    assert_eq!(range_args("http://u", "", 5, 9).len(), 11);
    assert!(matches!(before_read(true, 0, ""), Before::Stop));
    assert!(matches!(before_read(false, 20_000_000_000, ""), Before::Read));
    assert!(matches!(before_read(false, 20_000_000_001, ""), Before::Stalled(e) if e == "a connection stalled"));
    assert!(matches!(before_read(false, 30_000_000_000, "w0"), Before::Stalled(e) if e == "a connection on w0 stalled"));
    let mut t = Attempt::new(100);
    t.came(50);
    assert_eq!((t.at, t.written), (150, 50));
    assert_eq!(t.speed(0), Speed { bytes: 50, ms: 1 });
    assert_eq!(range_outcome(false, 3, "", "x"), Ok(3));
    assert_eq!(range_outcome(true, 0, "", ""), Ok(0));
    assert_eq!(range_outcome(false, 0, "e", "\n curl: (6) no\nmore"), Err("curl failed on e: curl: (6) no".into()));
    assert_eq!(range_outcome(false, 0, "", ""), Err("curl failed: no detail".into()));
}

#[test]
fn a_download_that_did_not_finish_says_how_far_it_came() {
    assert_eq!(outcome(true, &Some("x".into()), 1, 2), Ok(()));
    assert_eq!(outcome(false, &None, 1, 2), Err("the download did not finish (1 of 2 bytes fetched; run it again to resume)".into()));
    assert_eq!(outcome(false, &Some("gone".into()), 1, 2), Err("gone (1 of 2 bytes fetched; run it again to resume)".into()));
}

#[test]
fn many_connections_only_where_they_help() {
    assert_eq!(streams_option(&None), 4);
    assert_eq!(streams_option(&Some("0".into())), 1);
    assert_eq!(streams_option(&Some("99".into())), 16);
    assert_eq!(streams_option(&Some("x".into())), 4);
    let big = Probe { size: (32 << 20) + 1, ranges: true };
    assert!(in_parallel(false, &big));
    assert!(!in_parallel(true, &big));
    assert!(!in_parallel(false, &Probe { size: 32 << 20, ranges: true }));
    assert!(!in_parallel(false, &Probe { size: 1 << 40, ranges: false }));
}

fn said(notes: &Vec<Note>, json: bool) -> Vec<String> {
    notes
        .iter()
        .filter_map(|n| match show(n, json) {
            Shown::Out(s) => Some(s),
            Shown::Complaint(s) => Some(format!("E{s}")),
            Shown::Nothing => None,
        })
        .collect()
}

#[test]
fn an_image_is_meant_by_its_id_or_by_a_clear_part_of_it() {
    let list = builtin();
    let at = |id: &str| find_image(&list, id).map(|i| list[i].id.clone());
    assert_eq!(at("arch"), Ok("arch".to_string()));
    assert_eq!(at("tumbl"), Ok("tumbleweed".to_string()));
    assert_eq!(at("win"), Err("no image called 'win' (see: arxburn iso)".to_string()));
    assert_eq!(at("zzz"), Err("no image called 'zzz' (see: arxburn iso)".to_string()));
}

#[test]
fn what_is_here_already_is_kept_only_when_it_is_right() {
    let h = |s: &str, n: u64| Local { hashed: Some((s.to_string(), n)), len: Some(n) };
    let (k, n) = keep("d.iso", &h("aa", 512), &Some("aa".into()), None, false);
    assert!(k);
    assert_eq!(said(&n, false), vec!["  \x1b[32mok\x1b[0m already downloaded and verified: d.iso (512 B)"]);
    let (k, n) = keep("d.iso", &h("ab", 512), &Some("aa".into()), Some(512), false);
    assert!(!k);
    assert_eq!(said(&n, false), vec!["E  \x1b[31m!!\x1b[0m a file of that name is here but its hash is wrong; downloading again"]);
    assert!(keep("d.iso", &h("ab", 512), &None, Some(512), false).0);
    assert!(!keep("d.iso", &h("ab", 512), &None, Some(513), false).0);
    assert!(!keep("d.iso", &h("ab", 512), &None, None, false).0);
    assert!(keep("d.iso", &Local { hashed: None, len: Some(5) }, &Some("aa".into()), Some(5), false).0);
    // the record of an unfinished download says more than a length, and a hash says more than a record
    assert!(!keep("d.iso", &h("ab", 512), &None, Some(512), true).0);
    assert!(keep("d.iso", &h("ab", 512), &None, Some(512), true).1.is_empty());
    assert!(keep("d.iso", &h("aa", 512), &Some("aa".into()), Some(512), true).0);
    assert!(can_go_on(&h("ab", 5), &None, Some(6), false) && !can_go_on(&h("ab", 5), &None, Some(6), true));
    assert!(!can_go_on(&h("ab", 6), &None, Some(6), false) && !can_go_on(&h("ab", 7), &None, Some(6), false));
    assert!(can_go_on(&h("ab", 5), &None, None, false) && !can_go_on(&h("ab", 5), &Some("aa".into()), None, false));
}

#[test]
fn a_download_is_told_and_judged() {
    assert_eq!(stated_size(&Probe { size: 0, ranges: true }), None);
    assert_eq!(said(&tell_size(Some(2048)), true), vec![r#"{"event":"size","bytes":2048}"#]);
    assert_eq!(said(&tell_size(Some(2048)), false), vec!["     2.0 KB"]);
    assert_eq!(said(&tell_size(None), true), vec![r#"{"event":"step","message":"the mirror did not say; the download will report its own size"}"#]);
    assert_eq!(said(&tell_download("u", "d\"", None), true)[1], r#"{"event":"download","url":"u","dest":"d\"","size":null}"#);
    assert_eq!(said(&tell_engine(&vec![], 4), true)[1], r#"{"event":"engine","connections":4,"networks":[]}"#);
    assert_eq!(said(&tell_engine(&vec!["a".into(), "b".into()], 3), true)[1], r#"{"event":"engine","connections":6,"networks":["a","b"]}"#);
    let (ok, n) = judge("d", &Some("aa".into()), "aa", 5);
    assert!(ok && said(&n, true)[0].contains("sha256 matches"));
    let (ok, n) = judge("d", &Some("aa".into()), "bb", 5);
    assert!(!ok);
    assert_eq!(said(&n, false)[1], "E  \x1b[31m!!\x1b[0m DOWNLOAD IS NOT WHAT THE PROJECT PUBLISHED\n     published aa\n     downloaded bb\n     delete it and try another mirror");
    assert!(judge("d", &None, "bb", 5).0);
    assert_eq!(said(&tell_ready("/d.iso", 7), true), vec![r#"{"event":"ready","path":"/d.iso","bytes":7}"#]);
    assert_eq!(late_total(5, 6), 11);
    assert_eq!(said(&vec![fall_back("no")], false), vec!["E  \x1b[31m!!\x1b[0m no\n     falling back to a single connection"]);
}

fn wish(id: Option<&str>, to: Option<&str>) -> Wish {
    Wish { id: id.map(String::from), out: None, to: to.map(String::from), single: false, streams: None }
}

fn build(sha: Option<&str>) -> Resolved {
    Resolved { url: "http://m/a.iso".into(), filename: "a.iso".into(), sha256: sha.map(String::from) }
}

fn place(local: Option<Local>) -> Option<Place> {
    Some(Place { dest: "./a.iso".into(), local, record: false, nets: vec!["eth0".into()] })
}

fn bad(m: &Move) -> String {
    assert!(matches!(m.task, Task::End(false)));
    match m.notes.last() {
        Some(Note::Bad(s)) => s.clone(),
        _ => String::new(),
    }
}

#[test]
fn an_image_is_found_fetched_checked_and_burned() {
    let list = builtin();
    let w = wish(Some("arch"), Some("sdc"));
    let m = start(&list, &w);
    assert!(matches!(m.task, Task::Resolve(i) if list[i].id == "arch"));
    let m = advance(&w, m.phase, Outcome::Resolved(Ok(build(Some("aa")))));
    assert!(matches!(&m.task, Task::Probe(u) if u == "http://m/a.iso"));
    let m = advance(&w, m.phase, Outcome::Probed(Probe { size: 1 << 30, ranges: true }));
    assert!(matches!(&m.task, Task::Look { dir, name } if dir == "." && name == "a.iso"));
    let m = advance(&w, m.phase, Outcome::Looked(place(None)));
    assert!(matches!(&m.task, Task::Parallel { streams: 4, size, .. } if *size == 1 << 30));
    let m = advance(&w, m.phase, Outcome::Fetched(Err("stalled".into())));
    assert!(matches!(&m.task, Task::Single { url, dest, anew: true, .. } if url == "http://m/a.iso" && dest == "./a.iso"));
    assert_eq!(said(&m.notes, false), vec!["E  \x1b[31m!!\x1b[0m stalled\n     falling back to a single connection"]);
    let m = advance(&w, m.phase, Outcome::Fetched(Ok(())));
    assert!(matches!(&m.task, Task::Hash(d) if d == "./a.iso"));
    let m = advance(&w, m.phase, Outcome::Hashed(Ok(("aa".into(), 5))));
    assert!(matches!(&m.task, Task::Burn { image, target, hash } if image == "./a.iso" && target == "sdc" && hash == "aa"));
}

#[test]
fn an_image_that_is_not_genuine_is_never_burned() {
    let w = wish(Some("arch"), Some("sdc"));
    let m = advance(&w, Phase::Checking { found: build(Some("aa")), dest: "d".into() }, Outcome::Hashed(Ok(("bb".into(), 5))));
    assert!(bad(&m).starts_with("DOWNLOAD IS NOT WHAT THE PROJECT PUBLISHED"));
    let w = wish(Some("arch"), None);
    let m = advance(&w, Phase::Checking { found: build(None), dest: "d".into() }, Outcome::Hashed(Ok(("bb".into(), 5))));
    assert!(matches!(m.task, Task::End(true)));
}

#[test]
fn an_image_that_is_here_is_checked_again_and_not_fetched_again() {
    let w = wish(Some("arch"), None);
    let here = Local { hashed: Some(("aa".into(), 9)), len: Some(9) };
    let p = Probe { size: 1 << 30, ranges: true };
    let m = advance(&w, Phase::Looking { found: build(Some("aa")), probe: p }, Outcome::Looked(place(Some(here))));
    assert!(matches!(&m.task, Task::Hash(d) if d == "./a.iso"));
    let wrong = Local { hashed: Some(("ab".into(), 9)), len: Some(9) };
    let small = Probe { size: 9, ranges: true };
    let m = advance(&w, Phase::Looking { found: build(Some("aa")), probe: small }, Outcome::Looked(place(Some(wrong))));
    assert!(matches!(&m.task, Task::Single { anew: true, .. }));
}

#[test]
fn what_an_interrupted_download_left_is_downloaded_on() {
    let big: u64 = 1 << 30;
    let p = Probe { size: big, ranges: true };
    let local = || Some(Local { hashed: Some(("ab".into(), big)), len: Some(big) });
    let left = |record: bool| Some(Place { dest: "./a.iso".into(), local: local(), record, nets: vec![] });
    let w = wish(Some("arch"), None);
    let look = |w: &Wish, place| advance(w, Phase::Looking { found: build(None), probe: p }, Outcome::Looked(place)).task;
    assert!(matches!(look(&w, left(false)), Task::Hash(_)));
    assert!(matches!(look(&w, left(true)), Task::Parallel { .. }));
    let mut one = wish(Some("arch"), None);
    one.single = true;
    assert!(matches!(look(&one, left(true)), Task::Single { anew: true, .. }));
    // a shorter file is the beginning of the image, and one connection goes on from its end
    let begun = Some(Place { dest: "./a.iso".into(), local: Some(Local { hashed: None, len: Some(9) }), record: false, nets: vec![] });
    assert!(matches!(look(&one, begun), Task::Single { anew: false, .. }));
    assert!(matches!(look(&one, place(None)), Task::Single { anew: false, .. }));
}

#[test]
fn getting_an_image_fails_with_a_reason() {
    let list = builtin();
    assert_eq!(bad(&start(&list, &wish(None, None))), "usage: arxburn get <id> [--to <device>]   (see: arxburn iso)");
    assert_eq!(bad(&start(&list, &wish(Some("zzz"), None))), "no image called 'zzz' (see: arxburn iso)");
    let w = wish(Some("arch"), None);
    assert_eq!(bad(&advance(&w, Phase::Resolving, Outcome::Resolved(Err("gone".into())))), "gone");
    let p = Probe { size: 0, ranges: false };
    assert_eq!(bad(&advance(&w, Phase::Looking { found: build(None), probe: p }, Outcome::Looked(None))), "no such directory: .");
    let mut o = wish(Some("arch"), None);
    o.out = Some("/nope".into());
    assert_eq!(bad(&advance(&o, Phase::Looking { found: build(None), probe: p }, Outcome::Looked(None))), "no such directory: /nope");
    assert_eq!(bad(&advance(&w, Phase::Fetching { found: build(None), dest: "d".into() }, Outcome::Fetched(Err("failed".into())))), "failed");
    assert_eq!(bad(&advance(&w, Phase::Checking { found: build(None), dest: "d".into() }, Outcome::Hashed(Err("io".into())))), "cannot read the download: io");
    assert_eq!(bad(&advance(&w, Phase::Over, Outcome::Probed(p))), "");
}
