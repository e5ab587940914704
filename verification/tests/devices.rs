use arxburn::dev::{
    critical_sources, disks_of_node, human, list, mounts_for, parent_of, resolve, Device, RawDisk, RawPart,
};
use arxburn::parts::{protective_mbr, read, Scheme, SECTOR};
use arxburn::scheme::{apply_scheme, Change};

fn dev(removable: bool, holds_root: bool, size: u64) -> Device {
    Device {
        name: "sdx".into(),
        path: "/dev/sdx".into(),
        size,
        removable,
        model: "test".into(),
        mounts: vec![],
        holds_root,
    }
}

#[test]
fn the_running_system_is_never_a_target() {
    // even with --allow-internal, even when removable: this one is absolute
    assert!(dev(true, true, 1 << 30).refusal(true).is_some());
    assert!(dev(false, true, 1 << 30).refusal(true).is_some());
}

#[test]
fn internal_disks_need_an_explicit_flag() {
    assert!(dev(false, false, 1 << 30).refusal(false).is_some());
    assert!(dev(false, false, 1 << 30).refusal(true).is_none());
}

#[test]
fn a_removable_stick_is_allowed_and_an_empty_reader_is_not() {
    assert!(dev(true, false, 1 << 30).refusal(false).is_none());
    assert!(dev(true, false, 0).refusal(false).is_some()); // card reader with no card
}

#[test]
fn a_btrfs_root_is_still_traced_back_to_its_disk() {
    let mi = "25 1 0:35 /@ / rw,relatime shared:1 - btrfs /dev/nvme0n1p2 rw,ssd,subvol=/@\n\
                  31 25 259:1 / /boot/efi rw - vfat /dev/nvme0n1p1 rw\n\
                  40 25 8:33 / /run/media/me/STICK rw - vfat /dev/sdc1 rw";
    let (nums, srcs) = critical_sources(mi);
    assert!(nums.contains(&(0, 35)), "the anonymous number is still recorded");
    assert!(srcs.contains(&"/dev/nvme0n1p2".to_string()), "the real source must be found");
    assert!(srcs.contains(&"/dev/nvme0n1p1".to_string()), "/boot/efi counts too");
    assert!(!srcs.contains(&"/dev/sdc1".to_string()), "a plugged in stick is not critical");
}

#[test]
fn human_sizes_read_like_a_person_wrote_them() {
    assert_eq!(human(0), "0 B");
    assert_eq!(human(512), "512 B");
    assert_eq!(human(4 * 1024 * 1024 * 1024), "4.0 GB");
}

#[test]
fn human_sizes_are_those_of_floating_point() {
    const U: [&str; 6] = ["B", "KB", "MB", "GB", "TB", "PB"];
    let plain = |bytes: u64| -> String {
        let mut v = bytes as f64;
        let mut i = 0;
        while v >= 1024.0 && i < U.len() - 1 {
            v /= 1024.0;
            i += 1;
        }
        if i == 0 { format!("{bytes} B") } else { format!("{v:.1} {}", U[i]) }
    };
    let mut n: u64 = 1;
    for k in 0..3000u64 {
        assert_eq!(human(n), plain(n), "{n}");
        n = n.wrapping_mul(6364136223846793005).wrapping_add(1442695040888963407 + k) >> (k % 60);
    }
    for n in [1023, 1024, 1075, 1536, 1587, 1588, u64::MAX, u64::MAX - 1023, 1 << 53, (1 << 53) + 1] {
        assert_eq!(human(n), plain(n), "{n}");
    }
}

fn raw(name: &str, sectors: &str, removable: &str, dev: &str) -> RawDisk {
    RawDisk {
        name: name.into(),
        size: Some(sectors.into()),
        removable: Some(removable.into()),
        model: Some("Model X  \n".into()),
        device_name: None,
        dev: Some(dev.into()),
        parts: vec![],
    }
}

#[test]
fn disks_are_listed_by_name_with_what_is_known_of_them() {
    let mut a = raw("sda", "2048\n", "0\n", "8:0\n");
    a.parts.push(RawPart { name: "sda1".into(), dev: Some("8:1\n".into()) });
    let raws = vec![raw("sdc", "4096", "1", "8:32"), a, raw("loop0", "8", "0", "7:0"), raw("sr0", "8", "1", "11:0")];
    for r in &raws {
        assert!(r.sector_count() <= u64::MAX / 512);
    }
    let mi = "25 1 8:1 / / rw - ext4 /dev/sda1 rw";
    let mounts = "/dev/sda1 / ext4 rw 0 0\n/dev/sdc1 /mnt/stick vfat rw 0 0\n";
    let v = list(&raws, mi, &vec![], mounts, false);
    let names: Vec<&str> = v.iter().map(|d| d.name.as_str()).collect();
    assert_eq!(names, vec!["sda", "sdc"]);
    assert!(v[0].holds_root && !v[0].removable);
    assert!(!v[1].holds_root && v[1].removable);
    assert_eq!(v[1].size, 4096 * 512);
    assert_eq!(v[1].path, "/dev/sdc");
    assert_eq!(v[1].model, "Model X");
    assert_eq!(v[1].mounts, vec!["/mnt/stick"]);
    assert_eq!(list(&raws, mi, &vec![], mounts, true).len(), 3);
    let traced = list(&raws, "", &vec!["sdc".to_string()], mounts, false);
    assert!(traced[1].holds_root);
}

#[test]
fn a_target_is_named_by_device_or_by_partition() {
    let v = vec![dev(true, false, 5)];
    assert_eq!(resolve("sdx", &v, &None).unwrap().name, "sdx");
    assert_eq!(resolve("/dev/sdx", &v, &None).unwrap().name, "sdx");
    assert_eq!(resolve("1234-ABCD", &v, &Some("sdx1".into())).unwrap().name, "sdx");
    assert!(resolve("nope", &v, &None).is_err());
}

#[test]
fn a_partition_is_on_the_disk_that_it_is_numbered_on() {
    let named = |n: &str| Device { name: n.into(), path: format!("/dev/{n}"), ..dev(true, false, 5) };
    let v = vec![named("nvme0n1"), named("nvme0n10"), named("sda"), named("sdaa")];
    let of = |part: &str| resolve("1234-ABCD", &v, &Some(part.into())).map(|d| d.name);
    assert_eq!(of("sdaa1").unwrap(), "sdaa");
    assert_eq!(of("sda12").unwrap(), "sda");
    assert_eq!(of("sda").unwrap(), "sda");
    assert_eq!(of("nvme0n10p2").unwrap(), "nvme0n10");
    assert_eq!(of("nvme0n1p2").unwrap(), "nvme0n1");
    assert!(of("sdab1").is_err());
    assert!(of("sdap1").is_err());
}

#[test]
fn mounts_of_a_disk_are_those_of_its_partitions() {
    let mounts = "/dev/sdc1 /a vfat rw 0 0\n/dev/sdcc1 /b vfat rw 0 0\n/dev/sdc /c vfat rw 0 0\n";
    let m = mounts_for("/dev/sdc", mounts);
    assert_eq!(m, vec!["/a", "/c"]);
    assert!(mounts_for("/dev/loop1", "/dev/loop10 /mnt ext4 rw 0 0\n").is_empty());
    assert_eq!(mounts_for("/dev/loop1", "/dev/loop1p10 /mnt ext4 rw 0 0\n"), vec!["/mnt"]);
    assert!(mounts_for("/dev/sda", "/dev/sdap1 /mnt ext4 rw 0 0\n").is_empty());
    assert_eq!(mounts_for("/dev/nvme0n1", "/dev/nvme0n1p2 / ext4 rw 0 0\n/dev/nvme0n10p1 /x ext4 rw 0 0\n"), vec!["/"]);
}

#[test]
fn an_encrypted_root_is_traced_through_its_slaves() {
    let s = |v: &[&str]| v.iter().map(|x| x.to_string()).collect::<Vec<String>>();
    assert_eq!(disks_of_node("dm-0", s(&["sda"]), None, false, false), s(&["sda"]));
    assert_eq!(disks_of_node("sda1", vec![], Some("sda".into()), true, false), s(&["sda"]));
    assert_eq!(disks_of_node("sda", vec![], None, false, true), s(&["sda"]));
    assert!(disks_of_node("x", vec![], None, false, false).is_empty());
    assert_eq!(parent_of(&s(&["..", "block", "sda", "sda1"])).as_deref(), Some("sda"));
    assert_eq!(parent_of(&s(&["sda"])), None);
}

const GPT_MAGIC: &[u8] = b"EFI PART";

fn hybrid_head() -> Vec<u8> {
    let mut h = vec![0u8; 35000];
    // an MBR with a bootable entry and an EFI system partition, the shape a hybrid ISO has
    h[446] = 0x80;
    h[446 + 4] = 0x00;
    h[446 + 8..446 + 12].copy_from_slice(&64u32.to_le_bytes());
    h[446 + 12..446 + 16].copy_from_slice(&7_572_928u32.to_le_bytes());
    h[462 + 4] = 0xef;
    h[462 + 8..462 + 12].copy_from_slice(&7_572_992u32.to_le_bytes());
    h[462 + 12..462 + 16].copy_from_slice(&675_840u32.to_le_bytes());
    h[510] = 0x55;
    h[511] = 0xaa;
    h[SECTOR..SECTOR + 8].copy_from_slice(GPT_MAGIC);
    h[34823..34846].copy_from_slice(b"EL TORITO SPECIFICATION");
    h
}

#[test]
fn a_scheme_is_nothing_at_first() {
    assert_eq!(Scheme::default(), read(&vec![0u8; SECTOR]));
}

#[test]
fn a_hybrid_image_is_recognised_as_booting_both_ways() {
    let s = read(&hybrid_head());
    assert!(s.mbr && s.gpt && s.el_torito && s.efi_partition);
    assert!(!s.protective_only);
    assert_eq!(s.summary(), "MBR + GPT + El Torito");
    assert!(s.boots().starts_with("hybrid"));
    assert_eq!(s.entries.len(), 2);
    assert_eq!(s.entries[1].kind_name(), "EFI system");
}

#[test]
fn a_gpt_only_disk_says_uefi_only() {
    let mut h = vec![0u8; SECTOR * 2];
    h[..SECTOR].copy_from_slice(&protective_mbr(1000));
    h[SECTOR..SECTOR + 8].copy_from_slice(GPT_MAGIC);
    let s = read(&h);
    assert!(s.mbr && s.gpt && s.protective_only);
    assert_eq!(s.boots(), "UEFI only");
    assert_eq!(s.summary(), "protective MBR + GPT");
}

#[test]
fn a_plain_mbr_disk_says_bios_only() {
    let mut h = vec![0u8; SECTOR * 2];
    h[446] = 0x80;
    h[446 + 4] = 0x0c; // FAT32
    h[446 + 12..446 + 16].copy_from_slice(&2048u32.to_le_bytes());
    h[510] = 0x55;
    h[511] = 0xaa;
    let s = read(&h);
    assert!(s.mbr && !s.gpt);
    assert_eq!(s.boots(), "BIOS only (no EFI partition and no GPT)");
    assert_eq!(s.entries[0].kind_name(), "FAT32");
}

#[test]
fn nothing_at_all_is_reported_as_nothing_rather_than_guessed() {
    let s = read(&vec![0u8; SECTOR * 2]);
    assert!(!s.mbr && !s.gpt);
    assert_eq!(s.summary(), "no partition table");
    assert!(s.boots().starts_with("no partition table"));
}

#[test]
fn a_protective_mbr_covers_the_disk_and_claims_no_boot() {
    let m = protective_mbr(1_000_000);
    assert_eq!(m[510], 0x55);
    assert_eq!(m[511], 0xaa);
    assert_eq!(m[446], 0x00, "a protective entry is never bootable");
    assert_eq!(m[446 + 4], 0xee);
    let start = u32::from_le_bytes(m[454..458].try_into().unwrap());
    let span = u32::from_le_bytes(m[458..462].try_into().unwrap());
    assert_eq!(start, 1);
    assert_eq!(span, 999_999);
    // and it reads back as exactly that
    let mut head = vec![0u8; SECTOR * 2];
    head[..SECTOR].copy_from_slice(&m);
    assert!(read(&head).protective_only);
}

#[test]
fn a_disk_bigger_than_a_u32_of_sectors_clamps_instead_of_wrapping() {
    // 4 TB at 512 bytes is more sectors than the field can hold; the convention is to fill it
    let m = protective_mbr(8_000_000_000);
    assert_eq!(u32::from_le_bytes(m[458..462].try_into().unwrap()), u32::MAX);
}

fn patched(disk: &[u8], c: &Change) -> Vec<u8> {
    let mut d = disk.to_vec();
    if let Change::Write { patches, .. } = c {
        for p in patches {
            let at = p.at as usize;
            d[at..at + p.bytes.len()].copy_from_slice(&p.bytes);
        }
    }
    d
}

#[test]
fn asking_for_mbr_clears_only_the_gpt_headers() {
    let mut disk = hybrid_head();
    disk.resize(512 * 100, 7);
    let c = apply_scheme(&disk, disk.len() as u64, "mbr");
    let after = patched(&disk, &c);
    assert!(!read(&after).gpt && read(&after).mbr);
    assert_eq!(read(&after).entries.len(), 2);
    for i in 0..disk.len() {
        if (512..1024).contains(&i) || i >= 512 * 99 {
            assert_eq!(after[i], 0);
        } else {
            assert_eq!(after[i], disk[i]);
        }
    }
    assert!(matches!(&c, Change::Write { done, .. } if done == "scheme: MBR (the GPT headers were cleared; BIOS boot is untouched)"));
    assert!(matches!(apply_scheme(&after, 51200, "mbr"), Change::Keep(m) if m == "already MBR only; nothing to change"));
}

#[test]
fn asking_for_gpt_leaves_a_stick_that_only_uefi_boots() {
    let disk = hybrid_head();
    let c = apply_scheme(&disk, 35000, "gpt");
    let after = patched(&disk, &c);
    assert_eq!(read(&after).boots(), "UEFI only");
    assert_eq!(&after[512..], &disk[512..]);
    let bare = vec![0u8; 2048];
    assert!(matches!(apply_scheme(&bare, 2048, "gpt"), Change::Refuse(m) if m.starts_with("this image has no GPT, so there is nothing to keep: writing a protective MBR would leave")));
}

#[test]
fn other_schemes_are_kept_or_refused() {
    let disk = hybrid_head();
    assert!(matches!(apply_scheme(&disk, 35000, "hybrid"), Change::Keep(m) if m == "scheme: left as the image wrote it (MBR + GPT + El Torito)"));
    assert!(matches!(apply_scheme(&disk, 35000, "apm"), Change::Refuse(m) if m == "unknown scheme 'apm': use gpt, mbr or auto"));
}
