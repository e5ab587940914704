use arxburn::burn::{
    advance, drained, flushing, start, writer_ended, Act, Event, Order, Stage, Turn, Wrote,
};
use arxburn::check::{
    check_fit, check_match, inspect, report_hash, verify, Check, Checked, Finding,
};
use arxburn::dev::Device;
use arxburn::meter::{draw, due, flushed, progress, unflushed, unflushed_checked};
use arxburn::layout::{at_left, at_right, clipped, two_digits, with_commas};
use arxburn::say::{show, Note, Shown};
use arxburn::sha256::{engine, hex, Sha256, Tally};

const SAMPLE: &str = "MemTotal:       16316772 kB\n\
                          Cached:          4212344 kB\n\
                          Dirty:           1048576 kB\n\
                          Writeback:         65536 kB\n\
                          WritebackTmp:          0 kB\n";

#[test]
fn what_the_kernel_still_owes_the_device_is_dirty_plus_writeback() {
    // 1048576 kB + 65536 kB, in bytes
    assert_eq!(unflushed(SAMPLE), (1_048_576 + 65_536) * 1024);
}

#[test]
fn writeback_tmp_is_not_counted_as_outstanding() {
    // it starts with "Writeback" but it is tmpfs accounting, not bytes owed to a disk;
    // counting it would make the flush countdown stall short of zero
    let one = "Dirty:  0 kB\nWritebackTmp:  999999 kB\n";
    assert_eq!(unflushed(one), 0);
}

#[test]
fn a_clean_system_owes_nothing_and_unreadable_input_is_not_a_panic() {
    assert_eq!(unflushed("Dirty:   0 kB\nWriteback:   0 kB\n"), 0);
    assert_eq!(unflushed(""), 0);
    assert_eq!(unflushed("Dirty: notanumber kB\n"), 0);
}

#[test]
fn what_is_owed_is_counted_only_when_it_can_be() {
    assert_eq!(unflushed_checked("Dirty: 18446744073709551615 kB\n"), None);
    assert_eq!(unflushed_checked("Dirty: 2 kB\nWriteback: 3 kB"), Some(5120));
    assert_eq!(flushed(100, 30), 70);
    assert_eq!(flushed(100, 130), 0);
}

#[test]
fn the_published_hash_vectors_come_out() {
    let h = |s: &[u8]| {
        let mut x = Sha256::new();
        x.update(s);
        hex(&x.finish())
    };
    assert_eq!(h(b""), "e3b0c44298fc1c149afbf4c8996fb92427ae41e4649b934ca495991b7852b855");
    assert_eq!(h(b"abc"), "ba7816bf8f01cfea414140de5dae2223b00361a396177a9cb410ff61f20015ad");
    assert_eq!(
        h(b"abcdbcdecdefdefgefghfghighijhijkijkljklmklmnlmnomnopnopq"),
        "248d6a61d20638b8e5c026930c3e6039a33ce45964ff2167f6ecedd419db06c1"
    );
    assert_eq!(
        h(&vec![b'a'; 1_000_000]),
        "cdc76e5c9914fb9281a1c7e284d73e67f1809a48a497200e046d39ccc7112cd0"
    );
    assert_eq!(engine(), "portable");
}

#[test]
fn chunk_boundaries_make_no_difference_to_a_hash() {
    let data: Vec<u8> = (0..1000u32).map(|i| (i * 7 % 251) as u8).collect();
    let mut whole = Tally::new();
    whole.add(&data);
    let want = whole.finish();
    assert_eq!(want.1, 1000);
    for size in [1, 3, 55, 56, 63, 64, 65, 127, 128, 500] {
        let mut t = Tally::new();
        for c in data.chunks(size) {
            t.add(c);
        }
        assert_eq!(t.total(), 1000);
        assert_eq!(t.finish(), want, "{size}");
    }
}

#[test]
fn numbers_are_grouped_and_columns_filled() {
    assert_eq!(with_commas(0), "0");
    assert_eq!(with_commas(999), "999");
    assert_eq!(with_commas(1000), "1,000");
    assert_eq!(with_commas(4_223_172_608), "4,223,172,608");
    assert_eq!(with_commas(u64::MAX).replace(',', ""), u64::MAX.to_string());
    assert_eq!(at_left("ab", 4), "ab  ");
    assert_eq!(at_right("ab", 4), "  ab");
    assert_eq!(at_left("abcde", 4), "abcde");
    assert_eq!(clipped("abcde", 2), "ab");
    assert_eq!(two_digits(7), "07");
    assert_eq!(two_digits(123), "123");
}

#[test]
fn the_counter_is_drawn() {
    let full = "\u{25B0}";
    let empty = "\u{25B1}";
    assert_eq!(
        draw(50, 100, 1024, 61, 0),
        format!("\r  \x1b[33m{}{}\x1b[0m  50%             50 / 100              1.0 KB/s  eta 01:01  ", full.repeat(12), empty.repeat(12))
    );
    assert_eq!(
        draw(1234, 0, 0, 0, 120),
        format!("\r  \x1b[33m{}\x1b[0m          1,234 bytes        0 B/s  (total unknown)   ", format!("{empty}{full}").repeat(12))
    );
    assert!(draw(100, 100, 0, 0, 0).contains(&full.repeat(24)));
    assert!(!due(79, 1, 2) && due(80, 1, 2) && due(0, 2, 2));
    assert_eq!(
        progress("write", 1, 2, 3, 4, 5),
        r#"{"event":"progress","phase":"write","done":1,"total":2,"bytes_per_second":3,"eta_seconds":4,"elapsed_ms":5}"#
    );
}

fn order() -> Order {
    Order {
        image: "x.iso".into(),
        image_len: 2048,
        head: None,
        device: Device {
            name: "sdc".into(),
            path: "/dev/sdc".into(),
            size: 4096,
            removable: true,
            model: "Stick".into(),
            mounts: vec![],
            holds_root: false,
        },
        allow_internal: false,
        expect: None,
        known: None,
        root: true,
        yes: false,
        skip_read_back: false,
        scheme: None,
    }
}

fn lines(notes: &Vec<Note>) -> Vec<String> {
    notes
        .iter()
        .map(|n| match n {
            Note::Good(s) => format!("ok {s}"),
            Note::Bad(s) => format!("!! {s}"),
            Note::Step(s) => format!(">> {s}"),
            Note::Plain(s) => format!("-- {s}"),
            Note::Event(s) => s.clone(),
        })
        .collect()
}

fn last(t: &Turn) -> String {
    lines(&t.notes).last().cloned().unwrap_or_default()
}

fn refused(o: &Order) -> String {
    let t = start(o);
    assert!(matches!(t.act, Act::End(false)));
    last(&t)
}

fn wrote(hash: &str) -> Event {
    Event::Wrote(Ok(Wrote { hash: hash.into(), written: 2048, seconds: "1.0".into(), rate: 2048 }))
}

#[test]
fn a_burn_goes_through_every_stage() {
    let mut o = order();
    o.device.mounts = vec!["/a".into(), "/b".into()];
    o.expect = Some(" AbC ".into());
    o.scheme = Some("mbr".into());
    let t = start(&o);
    assert_eq!(
        lines(&t.notes),
        vec![
            ">> image  x.iso (2.0 KB)",
            ">> target /dev/sdc, 4.0 KB removable, model Stick",
            r#"{"event":"target","device":"/dev/sdc","size":4096,"image_size":2048}"#,
            ">> checking the image before anything is erased",
        ]
    );
    assert!(matches!(t.act, Act::HashImage));
    let t = advance(&o, t.stage, Event::Hashed(Ok("abc".into())));
    assert_eq!(lines(&t.notes), vec!["ok sha256 abc", "ok matches --expect", ">> unmounting /a, /b"]);
    assert!(matches!(&t.act, Act::Unmount(m) if m == "/a"));
    let t = advance(&o, t.stage, Event::Unmounted(true));
    assert!(matches!(&t.act, Act::Unmount(m) if m == "/b"));
    let t = advance(&o, t.stage, Event::Unmounted(true));
    assert!(matches!(&t.act, Act::Confirm { prompt, .. } if prompt == "  Type the device name (sdc) to continue: "));
    let t = advance(&o, t.stage, Event::Answered(Some("sdc\n".into())));
    assert!(matches!(t.act, Act::Write));
    assert_eq!(last(&t), ">> writing 2.0 KB to /dev/sdc");
    let t = advance(&o, t.stage, wrote("abc"));
    assert!(matches!(t.act, Act::DropCaches));
    assert_eq!(lines(&t.notes), vec!["ok wrote 2,048 in 1.0s (2.0 KB/s)", ">> verifying: reading the bytes back off the device"]);
    let t = advance(&o, t.stage, Event::Dropped);
    assert!(matches!(t.act, Act::ReadBack(2048)));
    let t = advance(&o, t.stage, Event::ReadBack(Ok("abc".into())));
    assert!(matches!(&t.act, Act::Scheme(s) if s == "mbr"));
    assert_eq!(
        lines(&t.notes),
        vec![
            "ok VERIFIED: /dev/sdc carries the image, byte for byte",
            r#"{"event":"done","verified":true,"sha256":"abc","bytes":2048}"#,
            "--   \x1b[2msha256 abc\x1b[0m",
        ]
    );
    assert!(matches!(t.stage, Stage::Over));
}

#[test]
fn a_burn_is_refused_before_anything_happens() {
    let mut o = order();
    o.device.holds_root = true;
    o.allow_internal = true;
    o.yes = true;
    assert_eq!(refused(&o), "!! refusing /dev/sdc: carries the running system (/)");
    let mut o = order();
    o.device.removable = false;
    assert!(refused(&o).starts_with("!! refusing /dev/sdc: internal disk"));
    let mut o = order();
    o.image_len = 4097;
    assert_eq!(refused(&o), "!! image is 4.0 KB but the device holds 4.0 KB");
    let mut o = order();
    o.known = Some("aa".into());
    o.expect = Some("bb".into());
    assert_eq!(refused(&o), "!! image does NOT match --expect\n     expected bb\n     actual   aa");
    let mut o = order();
    o.known = Some("aa".into());
    o.root = false;
    assert_eq!(refused(&o), "!! writing to a block device needs root: run with sudo");
}

#[test]
fn every_failure_on_the_way_ends_the_burn() {
    let o = order();
    let end = |stage: Stage, e: Event| -> String {
        let t = advance(&o, stage, e);
        assert!(matches!(t.act, Act::End(false)));
        last(&t)
    };
    let h = || "aa".to_string();
    assert_eq!(end(Stage::Hashing, Event::Hashed(Err("io".into()))), "!! cannot read image: io");
    let mut m = order();
    m.device.mounts = vec!["/a".into()];
    let t = advance(&m, Stage::Unmounting { hash: h(), next: 0 }, Event::Unmounted(false));
    assert_eq!(last(&t), "!! could not unmount /a: close anything using it and retry");
    assert_eq!(end(Stage::Confirming { hash: h() }, Event::Answered(Some("y\n".into()))), "!! not confirmed, nothing was written");
    assert_eq!(end(Stage::Confirming { hash: h() }, Event::Answered(None)), "!! not confirmed, nothing was written");
    assert_eq!(end(Stage::Writing { hash: h() }, Event::Wrote(Err("write device: full".into()))), "!! write device: full");
    assert_eq!(end(Stage::Writing { hash: h() }, wrote("ab")), "!! the image changed while it was being written; nothing about this stick can be trusted");
    assert_eq!(end(Stage::ReadingBack { hash: h(), written: 5 }, Event::ReadBack(Err("io".into()))), "!! read back: io");
    assert_eq!(
        end(Stage::ReadingBack { hash: h(), written: 5 }, Event::ReadBack(Ok("ff".into()))),
        r#"{"event":"done","verified":false,"sha256":"ff","expected":"aa"}"#
    );
    assert_eq!(end(Stage::Over, Event::Unmounted(true)), "");
}

#[test]
fn a_burn_can_go_without_questions_and_without_proof() {
    let mut o = order();
    o.yes = true;
    o.skip_read_back = true;
    o.known = Some("aa".into());
    let t = start(&o);
    assert!(matches!(t.act, Act::Write));
    let t = advance(&o, t.stage, wrote("aa"));
    assert!(matches!(t.act, Act::End(true)));
    assert_eq!(last(&t), "!! verification skipped (--no-verify): nothing proves the stick matches the image");
    let mut o = order();
    o.head = Some(vec![0u8; 1024]);
    let n = lines(&start(&o).notes);
    assert_eq!(n[3], ">> image is no partition table: no partition table found; the firmware may still boot it if it is a raw disk image");
    assert!(n[4].starts_with(r#"{"event":"image_scheme","summary":"no partition table""#));
    assert_eq!(lines(&flushing()).len(), 2);
}

#[test]
fn notes_are_shown_to_people_and_to_programs() {
    let out = |n: &Note, j: bool| match show(n, j) {
        Shown::Out(s) => format!("1{s}"),
        Shown::Complaint(s) => format!("2{s}"),
        Shown::Nothing => "0".to_string(),
    };
    assert_eq!(out(&Note::Good("a".into()), false), "1  \x1b[32mok\x1b[0m a");
    assert_eq!(out(&Note::Bad("a".into()), false), "2  \x1b[31m!!\x1b[0m a");
    assert_eq!(out(&Note::Step("a".into()), false), "1\x1b[1m>>\x1b[0m a");
    assert_eq!(out(&Note::Bad("a\nb".into()), true), "1{\"event\":\"error\",\"message\":\"a\\nb\"}");
    assert_eq!(out(&Note::Good("\u{1}".into()), true), "1{\"event\":\"ok\",\"message\":\"\\u0001\"}");
    assert_eq!(out(&Note::Plain("a".into()), true), "0");
    assert_eq!(out(&Note::Event("{}".into()), false), "0");
    assert_eq!(out(&Note::Event("{}".into()), true), "1{}");
}

#[test]
fn a_file_is_checked_against_the_hash_that_was_given() {
    let (v, n) = report_hash("f", "ab", 1000, &Some(" AB\n".into()));
    assert_eq!(v, Some(true));
    assert_eq!(
        lines(&n),
        vec![
            r#"{"event":"hash","sha256":"ab","size":1000,"engine":"portable","path":"f","expected":"ab","matches":true}"#,
            "--   ab  f  (1,000 bytes, portable)",
            "ok matches the hash you gave",
        ]
    );
    let (v, n) = report_hash("f", "ab", 1, &Some("cd".into()));
    assert_eq!(v, Some(false));
    assert_eq!(lines(&n)[2], "!! DOES NOT MATCH\n     you gave  cd\n     this file ab");
    let (v, n) = report_hash("f", "ab", 1, &None);
    assert_eq!((v, n.len()), (None, 2));
}

#[test]
fn a_stick_burned_earlier_is_checked() {
    let d = order().device;
    let (fits, n) = check_fit(&d, "aa", 4096);
    assert!(fits && n.len() == 1);
    let (fits, n) = check_fit(&d, "aa", 5000);
    assert!(!fits);
    assert_eq!(lines(&n)[1], "!! /dev/sdc holds 4.0 KB and the image is 4.9 KB: this stick was never big enough for it");
    let (same, n) = check_match("/dev/sdc", "aa", "aa");
    assert!(same);
    assert_eq!(lines(&n), vec![">> device sha256 aa", "ok /dev/sdc matches the image"]);
    let (same, n) = check_match("/dev/sdc", "aa", "ab");
    assert!(!same);
    assert_eq!(lines(&n)[1], "!! /dev/sdc does NOT match the image");
    // one flipped byte
    let hash = |b: &[u8]| {
        let mut t = Tally::new();
        t.add(b);
        t.finish().0
    };
    let image = vec![5u8; 3000];
    let mut stick = image.clone();
    assert!(check_match("s", &hash(&image), &hash(&stick)).0);
    stick[1234] ^= 1;
    assert!(!check_match("s", &hash(&image), &hash(&stick)).0);
}

#[test]
fn an_image_is_inspected() {
    let mut h = vec![0u8; 1024];
    h[446] = 0x80;
    h[450] = 0x0c;
    h[455] = 8;
    h[459] = 0x10;
    h[510] = 0x55;
    h[511] = 0xaa;
    assert_eq!(
        lines(&inspect("p", &h, false)),
        vec![
            ">> p",
            "ok MBR",
            "--      BIOS only (no EFI partition and no GPT)",
            "--   \x1b[2m1\x1b[0m FAT32                   4,096 sectors at LBA 2048       \x1b[33mbootable\x1b[0m",
        ]
    );
    assert_eq!(
        lines(&inspect("p", &h, true)),
        vec![r#"{"event":"scheme","path":"p","mbr":true,"gpt":false,"el_torito":false,"efi_partition":false,"summary":"MBR","boots":"BIOS only (no EFI partition and no GPT)","partitions":[{"type":12,"type_name":"FAT32","bootable":true,"start_lba":2048,"sectors":4096}]}"#]
    );
}

#[test]
fn a_stick_is_verified_step_by_step() {
    let d = order().device;
    let r = arxburn::check::start();
    assert!(matches!(r.check, Check::HashImage));
    let r = verify(&d, r.checked, Finding::Hashed(Ok(("aa".into(), 4096))));
    assert!(matches!(r.check, Check::DropCaches));
    let r = verify(&d, r.checked, Finding::Dropped);
    assert!(matches!(r.check, Check::ReadBack(4096)));
    let r = verify(&d, r.checked, Finding::ReadBack(Ok("aa".into())));
    assert!(matches!(r.check, Check::End(true)));
    let end = |c: Checked, f: Finding| {
        let r = verify(&d, c, f);
        assert!(matches!(r.check, Check::End(false)));
        lines(&r.notes).last().cloned().unwrap_or_default()
    };
    assert_eq!(end(Checked::Hashing, Finding::Hashed(Err("io".into()))), "!! cannot read image: io");
    assert!(end(Checked::Hashing, Finding::Hashed(Ok(("aa".into(), 4097)))).contains("never big enough"));
    assert_eq!(end(Checked::Reading { hash: "aa".into() }, Finding::ReadBack(Ok("ab".into()))), "!! /dev/sdc does NOT match the image");
    assert_eq!(end(Checked::Reading { hash: "aa".into() }, Finding::ReadBack(Err("io".into()))), "!! read back: io");
    assert_eq!(end(Checked::Over, Finding::Dropped), "");
}

#[test]
fn the_writer_ends_well_or_with_a_reason() {
    assert!(drained(5, 5, false) && drained(6, 5, false) && drained(0, 5, true) && !drained(4, 5, false));
    assert_eq!(writer_ended(Some(Ok(()))), Ok(()));
    assert_eq!(writer_ended(Some(Err("full".into()))), Err("write device: full".to_string()));
    assert_eq!(
        writer_ended(None),
        Err("the writing thread stopped unexpectedly; the stick is not complete".to_string())
    );
}
