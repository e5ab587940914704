//! The entries that the tool knows without being told.

use vstd::prelude::*;
use vstd::string::*;

use crate::catalog;
use crate::catalog::{Family, Iso, Source};

verus! {

// ---- what the entries are -------------------------------------------------------------------

pub open spec fn iso(
    id: Seq<char>,
    name: Seq<char>,
    family: Family,
    note: Seq<char>,
    src: catalog::SourceView,
    sums: Option<Seq<char>>,
) -> catalog::IsoView {
    catalog::IsoView { id, name, family, note, src, sums }
}

pub open spec fn index(
    dir: Seq<char>,
    prefix: Seq<char>,
    suffix: Seq<char>,
    reject: Seq<char>,
) -> catalog::SourceView {
    catalog::SourceView::Index { dir, prefix, suffix, reject }
}

pub open spec fn chain(
    root: Seq<char>,
    dir_prefix: Seq<char>,
    sub: Seq<char>,
    prefix: Seq<char>,
    suffix: Seq<char>,
    reject: Seq<char>,
) -> catalog::SourceView {
    catalog::SourceView::Chain { root, dir_prefix, sub, prefix, suffix, reject }
}

/// Our own release.
pub open spec fn ours_view() -> Seq<catalog::IsoView> {
    seq![
        iso(
            "arxos"@,
            "ArxOS 0.0.1"@,
            Family::Linux,
            "our own release, hash published with it"@,
            catalog::SourceView::Direct(
                "https://pub-d5ff3efb1d204998aa120ded02d070b9.r2.dev/arxos-0.0.1.iso"@,
            ),
            None,
        ),
    ]
}

/// Rolling and bleeding edge distributions.
pub open spec fn rolling_view() -> Seq<catalog::IsoView> {
    seq![
        iso(
            "arch"@,
            "Arch Linux"@,
            Family::Linux,
            "monthly rolling snapshot"@,
            index(
                "https://geo.mirror.pkgbuild.com/iso/latest/"@,
                "archlinux-"@,
                "-x86_64.iso"@,
                ""@,
            ),
            Some("sha256sums.txt"@),
        ),
        iso(
            "cachyos"@,
            "CachyOS Desktop"@,
            Family::Linux,
            "performance-tuned Arch"@,
            chain(
                "https://mirror.cachyos.org/ISO/desktop/"@,
                "2"@,
                ""@,
                "cachyos-desktop-linux-"@,
                ".iso"@,
                ""@,
            ),
            None,
        ),
        iso(
            "endeavouros"@,
            "EndeavourOS"@,
            Family::Linux,
            "Arch with an installer"@,
            index(
                "https://mirror.alpix.eu/endeavouros/iso/"@,
                "EndeavourOS_"@,
                ".iso"@,
                ""@,
            ),
            None,
        ),
        iso(
            "tumbleweed"@,
            "openSUSE Tumbleweed"@,
            Family::Linux,
            "rolling, always current"@,
            catalog::SourceView::Direct(
                "https://download.opensuse.org/tumbleweed/iso/openSUSE-Tumbleweed-DVD-x86_64-Current.iso"@,
            ),
            Some("openSUSE-Tumbleweed-DVD-x86_64-Current.iso.sha256"@),
        ),
        iso(
            "nixos"@,
            "NixOS unstable"@,
            Family::Linux,
            "minimal, from the unstable channel"@,
            catalog::SourceView::Direct(
                "https://channels.nixos.org/nixos-unstable/latest-nixos-minimal-x86_64-linux.iso"@,
            ),
            None,
        ),
        iso(
            "void"@,
            "Void Linux"@,
            Family::Linux,
            "rolling, musl or glibc live image"@,
            index(
                "https://repo-default.voidlinux.org/live/current/"@,
                "void-live-x86_64-"@,
                ".iso"@,
                "musl"@,
            ),
            Some("sha256sum.txt"@),
        ),
        iso(
            "gentoo"@,
            "Gentoo minimal"@,
            Family::Linux,
            "weekly autobuild"@,
            index(
                "https://distfiles.gentoo.org/releases/amd64/autobuilds/current-install-amd64-minimal/"@,
                "install-amd64-minimal-"@,
                ".iso"@,
                ""@,
            ),
            None,
        ),
        iso(
            "debian-sid"@,
            "Debian testing weekly"@,
            Family::Linux,
            "weekly netinst of testing"@,
            index(
                "https://cdimage.debian.org/cdimage/weekly-builds/amd64/iso-cd/"@,
                "debian-testing-"@,
                "-netinst.iso"@,
                ""@,
            ),
            Some("SHA256SUMS"@),
        ),
        iso(
            "fedora-rawhide"@,
            "Fedora Rawhide"@,
            Family::Linux,
            "Fedora's development branch"@,
            index(
                "https://mirrors.kernel.org/fedora/development/rawhide/Workstation/x86_64/iso/"@,
                "Fedora-Workstation-Live-"@,
                ".iso"@,
                ""@,
            ),
            None,
        ),
        iso(
            "kali-weekly"@,
            "Kali weekly"@,
            Family::Linux,
            "weekly build, ahead of the release"@,
            index(
                "https://cdimage.kali.org/kali-weekly/"@,
                "kali-linux-"@,
                "-installer-amd64.iso"@,
                ""@,
            ),
            Some("SHA256SUMS"@),
        ),
    ]
}

/// Stable releases.
pub open spec fn stable_view() -> Seq<catalog::IsoView> {
    seq![
        iso(
            "debian"@,
            "Debian stable netinst"@,
            Family::Linux,
            "current stable"@,
            index(
                "https://cdimage.debian.org/debian-cd/current/amd64/iso-cd/"@,
                "debian-"@,
                "-amd64-netinst.iso"@,
                "debian-mac,debian-edu"@,
            ),
            Some("SHA256SUMS"@),
        ),
        iso(
            "debian-live"@,
            "Debian stable live"@,
            Family::Linux,
            "current stable, GNOME live"@,
            index(
                "https://cdimage.debian.org/debian-cd/current-live/amd64/iso-hybrid/"@,
                "debian-live-"@,
                "-amd64-gnome.iso"@,
                ""@,
            ),
            Some("SHA256SUMS"@),
        ),
        iso(
            "ubuntu"@,
            "Ubuntu desktop"@,
            Family::Linux,
            "newest release on releases.ubuntu.com"@,
            chain(
                "https://releases.ubuntu.com/"@,
                "2"@,
                ""@,
                "ubuntu-"@,
                "-desktop-amd64.iso"@,
                ""@,
            ),
            Some("SHA256SUMS"@),
        ),
        iso(
            "fedora"@,
            "Fedora Workstation"@,
            Family::Linux,
            "newest stable release"@,
            chain(
                "https://mirrors.kernel.org/fedora/releases/"@,
                ""@,
                "Workstation/x86_64/iso/"@,
                "Fedora-Workstation-Live-"@,
                ".iso"@,
                ""@,
            ),
            None,
        ),
        iso(
            "kali"@,
            "Kali Linux live"@,
            Family::Linux,
            "current release"@,
            index(
                "https://cdimage.kali.org/current/"@,
                "kali-linux-"@,
                "-installer-amd64.iso"@,
                ""@,
            ),
            Some("SHA256SUMS"@),
        ),
        iso(
            "parrot"@,
            "Parrot Security"@,
            Family::Linux,
            "current security edition"@,
            chain(
                "https://deb.parrot.sh/parrot/iso/"@,
                ""@,
                ""@,
                "Parrot-security-"@,
                "_amd64.iso"@,
                ""@,
            ),
            Some("signed-hashes.txt"@),
        ),
        iso(
            "mint"@,
            "Linux Mint Cinnamon"@,
            Family::Linux,
            "newest stable"@,
            chain(
                "https://mirrors.kernel.org/linuxmint/stable/"@,
                "2"@,
                ""@,
                "linuxmint-"@,
                "-cinnamon-64bit.iso"@,
                ""@,
            ),
            Some("sha256sum.txt"@),
        ),
        iso(
            "alpine"@,
            "Alpine standard"@,
            Family::Linux,
            "small, stable branch"@,
            index(
                "https://dl-cdn.alpinelinux.org/alpine/latest-stable/releases/x86_64/"@,
                "alpine-standard-"@,
                "-x86_64.iso"@,
                ""@,
            ),
            None,
        ),
        iso(
            "rocky"@,
            "Rocky Linux minimal"@,
            Family::Linux,
            "RHEL rebuild"@,
            chain(
                "https://download.rockylinux.org/pub/rocky/"@,
                ""@,
                "isos/x86_64/"@,
                "Rocky-"@,
                "-x86_64-minimal.iso"@,
                ""@,
            ),
            Some("CHECKSUM"@),
        ),
        iso(
            "alma"@,
            "AlmaLinux minimal"@,
            Family::Linux,
            "RHEL rebuild"@,
            chain(
                "https://repo.almalinux.org/almalinux/"@,
                ""@,
                "isos/x86_64/"@,
                "AlmaLinux-"@,
                "-x86_64-minimal.iso"@,
                "beta"@,
            ),
            Some("CHECKSUM"@),
        ),
        iso(
            "qubes"@,
            "Qubes OS"@,
            Family::Linux,
            "compartmentalized workstation"@,
            index(
                "https://mirrors.edge.kernel.org/qubes/iso/"@,
                "Qubes-R"@,
                "-x86_64.iso"@,
                "rc"@,
            ),
            None,
        ),
        iso(
            "tails"@,
            "Tails"@,
            Family::Linux,
            "amnesic live system, routes through Tor"@,
            chain(
                "https://mirrors.kernel.org/tails/stable/"@,
                "tails-amd64-"@,
                ""@,
                "tails-amd64-"@,
                ".iso"@,
                ""@,
            ),
            None,
        ),
        iso(
            "proxmox"@,
            "Proxmox VE"@,
            Family::Linux,
            "hypervisor installer"@,
            index(
                "https://enterprise.proxmox.com/iso/"@,
                "proxmox-ve_"@,
                ".iso"@,
                ""@,
            ),
            None,
        ),
        iso(
            "freebsd"@,
            "FreeBSD disc1"@,
            Family::Tool,
            "not Linux, still boots"@,
            chain(
                "https://download.freebsd.org/releases/amd64/amd64/ISO-IMAGES/"@,
                ""@,
                ""@,
                "FreeBSD-"@,
                "-RELEASE-amd64-disc1.iso"@,
                ""@,
            ),
            None,
        ),
    ]
}

/// Rescue tools and firmware.
pub open spec fn rescue_view() -> Seq<catalog::IsoView> {
    seq![
        iso(
            "systemrescue"@,
            "SystemRescue"@,
            Family::Tool,
            "repair, partitioning, data recovery"@,
            index(
                "https://www.system-rescue.org/Download/"@,
                "systemrescue-"@,
                "-amd64.iso"@,
                ""@,
            ),
            None,
        ),
        iso(
            "rescuezilla"@,
            "Rescuezilla"@,
            Family::Tool,
            "backup, imaging and recovery, graphical"@,
            catalog::SourceView::Github {
                repo: "rescuezilla/rescuezilla"@,
                suffix: ".iso"@,
            },
            None,
        ),
        iso(
            "netbootxyz"@,
            "netboot.xyz"@,
            Family::Tool,
            "tiny image that boots anything else over the network"@,
            catalog::SourceView::Github {
                repo: "netbootxyz/netboot.xyz"@,
                suffix: "netboot.xyz-multiarch.iso"@,
            },
            None,
        ),
    ]
}

/// Windows images.
pub open spec fn windows_view() -> Seq<catalog::IsoView> {
    seq![
        iso(
            "win11"@,
            "Windows 11"@,
            Family::Windows,
            "official image; Microsoft often refuses automated requests, then use win11-eval"@,
            catalog::SourceView::Windows(
                "https://www.microsoft.com/en-us/software-download/windows11"@,
            ),
            None,
        ),
        iso(
            "win10"@,
            "Windows 10"@,
            Family::Windows,
            "official image; Microsoft often refuses automated requests, then use win11-eval"@,
            catalog::SourceView::Windows(
                "https://www.microsoft.com/en-us/software-download/windows10ISO"@,
            ),
            None,
        ),
        iso(
            "win11-eval"@,
            "Windows 11 Enterprise (90 day eval)"@,
            Family::Windows,
            "official Microsoft evaluation image, direct download, no account"@,
            catalog::SourceView::Fwlink(
                "https://go.microsoft.com/fwlink/p/?LinkID=2289031"@,
            ),
            None,
        ),
        iso(
            "winserver-eval"@,
            "Windows Server (180 day eval)"@,
            Family::Windows,
            "official Microsoft evaluation image, direct download, no account"@,
            catalog::SourceView::Fwlink(
                "https://go.microsoft.com/fwlink/p/?LinkID=2195280"@,
            ),
            None,
        ),
        iso(
            "tiny11"@,
            "Tiny11 23H2"@,
            Family::Windows,
            "trimmed Windows 11 for old hardware; still needs a Windows licence"@,
            catalog::SourceView::Archive(
                "tiny11-2311"@,
            ),
            None,
        ),
        iso(
            "tiny11-core"@,
            "Tiny11 Core"@,
            Family::Windows,
            "smallest Windows 11 build, test use; still needs a licence"@,
            catalog::SourceView::Archive(
                "tiny-11-core-x-64-beta-1"@,
            ),
            None,
        ),
        iso(
            "tiny10"@,
            "Tiny10 x64"@,
            Family::Windows,
            "trimmed Windows 10; still needs a Windows licence"@,
            catalog::SourceView::Archive(
                "tiny-10-23-h2"@,
            ),
            None,
        ),
    ]
}

/// Every built-in entry.
pub open spec fn builtin_view() -> Seq<catalog::IsoView> {
    ours_view() + rolling_view() + stable_view() + rescue_view() + windows_view()
}

// ---- making them ----------------------------------------------------------------------------

fn e(
    id: &str,
    name: &str,
    family: Family,
    note: &str,
    src: Source,
    sums: Option<&str>,
) -> (r: Iso)
    ensures
        r@ == iso(
            id@,
            name@,
            family,
            note@,
            src@,
            match sums {
                Some(s) => Some(s@),
                None => None,
            },
        ),
{
    Iso {
        id: id.to_owned(),
        name: name.to_owned(),
        family,
        note: note.to_owned(),
        src,
        sums: match sums {
            Some(s) => Some(s.to_owned()),
            None => None,
        },
    }
}

fn from_index(dir: &str, prefix: &str, suffix: &str, reject: &str) -> (r: Source)
    ensures
        r@ == index(dir@, prefix@, suffix@, reject@),
{
    Source::Index {
        dir: dir.to_owned(),
        prefix: prefix.to_owned(),
        suffix: suffix.to_owned(),
        reject: reject.to_owned(),
    }
}

fn from_chain(
    root: &str,
    dir_prefix: &str,
    sub: &str,
    prefix: &str,
    suffix: &str,
    reject: &str,
) -> (r: Source)
    ensures
        r@ == chain(root@, dir_prefix@, sub@, prefix@, suffix@, reject@),
{
    Source::Chain {
        root: root.to_owned(),
        dir_prefix: dir_prefix.to_owned(),
        sub: sub.to_owned(),
        prefix: prefix.to_owned(),
        suffix: suffix.to_owned(),
        reject: reject.to_owned(),
    }
}

fn from_github(repo: &str, suffix: &str) -> (r: Source)
    ensures
        r@ == (catalog::SourceView::Github { repo: repo@, suffix: suffix@ }),
{
    Source::Github { repo: repo.to_owned(), suffix: suffix.to_owned() }
}

fn add_entry(list: &mut Vec<Iso>, entry: Iso)
    ensures
        catalog::isos_view(final(list)@) == catalog::isos_view(old(list)@).push(entry@),
{
    let ghost before = catalog::isos_view(list@);
    let ghost ev = entry@;
    list.push(entry);
    assert(catalog::isos_view(list@) =~= before.push(ev));
}

fn add_ours(list: &mut Vec<Iso>)
    ensures
        catalog::isos_view(final(list)@) == catalog::isos_view(old(list)@) + ours_view(),
{
    let ghost before = catalog::isos_view(list@);
    add_entry(
        list,
        e(
            "arxos",
            "ArxOS 0.0.1",
            Family::Linux,
            "our own release, hash published with it",
            Source::Direct(
                "https://pub-d5ff3efb1d204998aa120ded02d070b9.r2.dev/arxos-0.0.1.iso".to_owned(),
            ),
            None,
        ),
    );
    assert(catalog::isos_view(list@) =~= before + ours_view());
}

fn add_rolling(list: &mut Vec<Iso>)
    ensures
        catalog::isos_view(final(list)@) == catalog::isos_view(old(list)@) + rolling_view(),
{
    let ghost before = catalog::isos_view(list@);
    add_entry(
        list,
        e(
            "arch",
            "Arch Linux",
            Family::Linux,
            "monthly rolling snapshot",
            from_index(
                "https://geo.mirror.pkgbuild.com/iso/latest/",
                "archlinux-",
                "-x86_64.iso",
                "",
            ),
            Some("sha256sums.txt"),
        ),
    );
    add_entry(
        list,
        e(
            "cachyos",
            "CachyOS Desktop",
            Family::Linux,
            "performance-tuned Arch",
            from_chain(
                "https://mirror.cachyos.org/ISO/desktop/",
                "2",
                "",
                "cachyos-desktop-linux-",
                ".iso",
                "",
            ),
            None,
        ),
    );
    add_entry(
        list,
        e(
            "endeavouros",
            "EndeavourOS",
            Family::Linux,
            "Arch with an installer",
            from_index(
                "https://mirror.alpix.eu/endeavouros/iso/",
                "EndeavourOS_",
                ".iso",
                "",
            ),
            None,
        ),
    );
    add_entry(
        list,
        e(
            "tumbleweed",
            "openSUSE Tumbleweed",
            Family::Linux,
            "rolling, always current",
            Source::Direct(
                "https://download.opensuse.org/tumbleweed/iso/openSUSE-Tumbleweed-DVD-x86_64-Current.iso".to_owned(),
            ),
            Some("openSUSE-Tumbleweed-DVD-x86_64-Current.iso.sha256"),
        ),
    );
    add_entry(
        list,
        e(
            "nixos",
            "NixOS unstable",
            Family::Linux,
            "minimal, from the unstable channel",
            Source::Direct(
                "https://channels.nixos.org/nixos-unstable/latest-nixos-minimal-x86_64-linux.iso".to_owned(),
            ),
            None,
        ),
    );
    add_entry(
        list,
        e(
            "void",
            "Void Linux",
            Family::Linux,
            "rolling, musl or glibc live image",
            from_index(
                "https://repo-default.voidlinux.org/live/current/",
                "void-live-x86_64-",
                ".iso",
                "musl",
            ),
            Some("sha256sum.txt"),
        ),
    );
    add_entry(
        list,
        e(
            "gentoo",
            "Gentoo minimal",
            Family::Linux,
            "weekly autobuild",
            from_index(
                "https://distfiles.gentoo.org/releases/amd64/autobuilds/current-install-amd64-minimal/",
                "install-amd64-minimal-",
                ".iso",
                "",
            ),
            None,
        ),
    );
    add_entry(
        list,
        e(
            "debian-sid",
            "Debian testing weekly",
            Family::Linux,
            "weekly netinst of testing",
            from_index(
                "https://cdimage.debian.org/cdimage/weekly-builds/amd64/iso-cd/",
                "debian-testing-",
                "-netinst.iso",
                "",
            ),
            Some("SHA256SUMS"),
        ),
    );
    add_entry(
        list,
        e(
            "fedora-rawhide",
            "Fedora Rawhide",
            Family::Linux,
            "Fedora's development branch",
            from_index(
                "https://mirrors.kernel.org/fedora/development/rawhide/Workstation/x86_64/iso/",
                "Fedora-Workstation-Live-",
                ".iso",
                "",
            ),
            None,
        ),
    );
    add_entry(
        list,
        e(
            "kali-weekly",
            "Kali weekly",
            Family::Linux,
            "weekly build, ahead of the release",
            from_index(
                "https://cdimage.kali.org/kali-weekly/",
                "kali-linux-",
                "-installer-amd64.iso",
                "",
            ),
            Some("SHA256SUMS"),
        ),
    );
    assert(catalog::isos_view(list@) =~= before + rolling_view());
}

fn add_stable(list: &mut Vec<Iso>)
    ensures
        catalog::isos_view(final(list)@) == catalog::isos_view(old(list)@) + stable_view(),
{
    let ghost before = catalog::isos_view(list@);
    add_entry(
        list,
        e(
            "debian",
            "Debian stable netinst",
            Family::Linux,
            "current stable",
            from_index(
                "https://cdimage.debian.org/debian-cd/current/amd64/iso-cd/",
                "debian-",
                "-amd64-netinst.iso",
                "debian-mac,debian-edu",
            ),
            Some("SHA256SUMS"),
        ),
    );
    add_entry(
        list,
        e(
            "debian-live",
            "Debian stable live",
            Family::Linux,
            "current stable, GNOME live",
            from_index(
                "https://cdimage.debian.org/debian-cd/current-live/amd64/iso-hybrid/",
                "debian-live-",
                "-amd64-gnome.iso",
                "",
            ),
            Some("SHA256SUMS"),
        ),
    );
    add_entry(
        list,
        e(
            "ubuntu",
            "Ubuntu desktop",
            Family::Linux,
            "newest release on releases.ubuntu.com",
            from_chain(
                "https://releases.ubuntu.com/",
                "2",
                "",
                "ubuntu-",
                "-desktop-amd64.iso",
                "",
            ),
            Some("SHA256SUMS"),
        ),
    );
    add_entry(
        list,
        e(
            "fedora",
            "Fedora Workstation",
            Family::Linux,
            "newest stable release",
            from_chain(
                "https://mirrors.kernel.org/fedora/releases/",
                "",
                "Workstation/x86_64/iso/",
                "Fedora-Workstation-Live-",
                ".iso",
                "",
            ),
            None,
        ),
    );
    add_entry(
        list,
        e(
            "kali",
            "Kali Linux live",
            Family::Linux,
            "current release",
            from_index(
                "https://cdimage.kali.org/current/",
                "kali-linux-",
                "-installer-amd64.iso",
                "",
            ),
            Some("SHA256SUMS"),
        ),
    );
    add_entry(
        list,
        e(
            "parrot",
            "Parrot Security",
            Family::Linux,
            "current security edition",
            from_chain(
                "https://deb.parrot.sh/parrot/iso/",
                "",
                "",
                "Parrot-security-",
                "_amd64.iso",
                "",
            ),
            Some("signed-hashes.txt"),
        ),
    );
    add_entry(
        list,
        e(
            "mint",
            "Linux Mint Cinnamon",
            Family::Linux,
            "newest stable",
            from_chain(
                "https://mirrors.kernel.org/linuxmint/stable/",
                "2",
                "",
                "linuxmint-",
                "-cinnamon-64bit.iso",
                "",
            ),
            Some("sha256sum.txt"),
        ),
    );
    add_entry(
        list,
        e(
            "alpine",
            "Alpine standard",
            Family::Linux,
            "small, stable branch",
            from_index(
                "https://dl-cdn.alpinelinux.org/alpine/latest-stable/releases/x86_64/",
                "alpine-standard-",
                "-x86_64.iso",
                "",
            ),
            None,
        ),
    );
    add_entry(
        list,
        e(
            "rocky",
            "Rocky Linux minimal",
            Family::Linux,
            "RHEL rebuild",
            from_chain(
                "https://download.rockylinux.org/pub/rocky/",
                "",
                "isos/x86_64/",
                "Rocky-",
                "-x86_64-minimal.iso",
                "",
            ),
            Some("CHECKSUM"),
        ),
    );
    add_entry(
        list,
        e(
            "alma",
            "AlmaLinux minimal",
            Family::Linux,
            "RHEL rebuild",
            from_chain(
                "https://repo.almalinux.org/almalinux/",
                "",
                "isos/x86_64/",
                "AlmaLinux-",
                "-x86_64-minimal.iso",
                "beta",
            ),
            Some("CHECKSUM"),
        ),
    );
    add_entry(
        list,
        e(
            "qubes",
            "Qubes OS",
            Family::Linux,
            "compartmentalized workstation",
            from_index(
                "https://mirrors.edge.kernel.org/qubes/iso/",
                "Qubes-R",
                "-x86_64.iso",
                "rc",
            ),
            None,
        ),
    );
    add_entry(
        list,
        e(
            "tails",
            "Tails",
            Family::Linux,
            "amnesic live system, routes through Tor",
            from_chain(
                "https://mirrors.kernel.org/tails/stable/",
                "tails-amd64-",
                "",
                "tails-amd64-",
                ".iso",
                "",
            ),
            None,
        ),
    );
    add_entry(
        list,
        e(
            "proxmox",
            "Proxmox VE",
            Family::Linux,
            "hypervisor installer",
            from_index(
                "https://enterprise.proxmox.com/iso/",
                "proxmox-ve_",
                ".iso",
                "",
            ),
            None,
        ),
    );
    add_entry(
        list,
        e(
            "freebsd",
            "FreeBSD disc1",
            Family::Tool,
            "not Linux, still boots",
            from_chain(
                "https://download.freebsd.org/releases/amd64/amd64/ISO-IMAGES/",
                "",
                "",
                "FreeBSD-",
                "-RELEASE-amd64-disc1.iso",
                "",
            ),
            None,
        ),
    );
    assert(catalog::isos_view(list@) =~= before + stable_view());
}

fn add_rescue(list: &mut Vec<Iso>)
    ensures
        catalog::isos_view(final(list)@) == catalog::isos_view(old(list)@) + rescue_view(),
{
    let ghost before = catalog::isos_view(list@);
    add_entry(
        list,
        e(
            "systemrescue",
            "SystemRescue",
            Family::Tool,
            "repair, partitioning, data recovery",
            from_index(
                "https://www.system-rescue.org/Download/",
                "systemrescue-",
                "-amd64.iso",
                "",
            ),
            None,
        ),
    );
    add_entry(
        list,
        e(
            "rescuezilla",
            "Rescuezilla",
            Family::Tool,
            "backup, imaging and recovery, graphical",
            from_github(
                "rescuezilla/rescuezilla",
                ".iso",
            ),
            None,
        ),
    );
    add_entry(
        list,
        e(
            "netbootxyz",
            "netboot.xyz",
            Family::Tool,
            "tiny image that boots anything else over the network",
            from_github(
                "netbootxyz/netboot.xyz",
                "netboot.xyz-multiarch.iso",
            ),
            None,
        ),
    );
    assert(catalog::isos_view(list@) =~= before + rescue_view());
}

fn add_windows(list: &mut Vec<Iso>)
    ensures
        catalog::isos_view(final(list)@) == catalog::isos_view(old(list)@) + windows_view(),
{
    let ghost before = catalog::isos_view(list@);
    add_entry(
        list,
        e(
            "win11",
            "Windows 11",
            Family::Windows,
            "official image; Microsoft often refuses automated requests, then use win11-eval",
            Source::Windows(
                "https://www.microsoft.com/en-us/software-download/windows11".to_owned(),
            ),
            None,
        ),
    );
    add_entry(
        list,
        e(
            "win10",
            "Windows 10",
            Family::Windows,
            "official image; Microsoft often refuses automated requests, then use win11-eval",
            Source::Windows(
                "https://www.microsoft.com/en-us/software-download/windows10ISO".to_owned(),
            ),
            None,
        ),
    );
    add_entry(
        list,
        e(
            "win11-eval",
            "Windows 11 Enterprise (90 day eval)",
            Family::Windows,
            "official Microsoft evaluation image, direct download, no account",
            Source::Fwlink(
                "https://go.microsoft.com/fwlink/p/?LinkID=2289031".to_owned(),
            ),
            None,
        ),
    );
    add_entry(
        list,
        e(
            "winserver-eval",
            "Windows Server (180 day eval)",
            Family::Windows,
            "official Microsoft evaluation image, direct download, no account",
            Source::Fwlink(
                "https://go.microsoft.com/fwlink/p/?LinkID=2195280".to_owned(),
            ),
            None,
        ),
    );
    add_entry(
        list,
        e(
            "tiny11",
            "Tiny11 23H2",
            Family::Windows,
            "trimmed Windows 11 for old hardware; still needs a Windows licence",
            Source::Archive(
                "tiny11-2311".to_owned(),
            ),
            None,
        ),
    );
    add_entry(
        list,
        e(
            "tiny11-core",
            "Tiny11 Core",
            Family::Windows,
            "smallest Windows 11 build, test use; still needs a licence",
            Source::Archive(
                "tiny-11-core-x-64-beta-1".to_owned(),
            ),
            None,
        ),
    );
    add_entry(
        list,
        e(
            "tiny10",
            "Tiny10 x64",
            Family::Windows,
            "trimmed Windows 10; still needs a Windows licence",
            Source::Archive(
                "tiny-10-23-h2".to_owned(),
            ),
            None,
        ),
    );
    assert(catalog::isos_view(list@) =~= before + windows_view());
}

/// The built-in entries.
pub fn builtin() -> (r: Vec<Iso>)
    ensures
        catalog::isos_view(r@) == builtin_view(),
{
    let mut list: Vec<Iso> = Vec::new();
    add_ours(&mut list);
    add_rolling(&mut list);
    add_stable(&mut list);
    add_rescue(&mut list);
    add_windows(&mut list);
    assert(catalog::isos_view(list@) =~= builtin_view());
    list
}

// ---- each id names one entry ----------------------------------------------------------------

/// A number that differs from one built-in id to another.
spec fn id_code(id: Seq<char>) -> int {
    id.len() * 1000000000 + (id[0] as int) * 1000000 + (id[1] as int) * 1000 + (id.last() as int)
}

/// Where the built-in entry with an id code stands.
spec fn code_place(code: int) -> int {
    if code == 5097114115 {
        0
    } else if code == 4097114104 {
        1
    } else if code == 7099097115 {
        2
    } else if code == 11101110115 {
        3
    } else if code == 10116117100 {
        4
    } else if code == 5110105115 {
        5
    } else if code == 4118111100 {
        6
    } else if code == 6103101111 {
        7
    } else if code == 10100101100 {
        8
    } else if code == 14102101101 {
        9
    } else if code == 11107097121 {
        10
    } else if code == 6100101110 {
        11
    } else if code == 11100101101 {
        12
    } else if code == 6117098117 {
        13
    } else if code == 6102101097 {
        14
    } else if code == 4107097105 {
        15
    } else if code == 6112097116 {
        16
    } else if code == 4109105116 {
        17
    } else if code == 6097108101 {
        18
    } else if code == 5114111121 {
        19
    } else if code == 4097108097 {
        20
    } else if code == 5113117115 {
        21
    } else if code == 5116097115 {
        22
    } else if code == 7112114120 {
        23
    } else if code == 7102114100 {
        24
    } else if code == 12115121101 {
        25
    } else if code == 11114101097 {
        26
    } else if code == 10110101122 {
        27
    } else if code == 5119105049 {
        28
    } else if code == 5119105048 {
        29
    } else if code == 10119105108 {
        30
    } else if code == 14119105108 {
        31
    } else if code == 6116105049 {
        32
    } else if code == 11116105101 {
        33
    } else if code == 6116105048 {
        34
    } else {
        -1
    }
}

proof fn lemma_ours_places()
    ensures
        ours_view().len() == 1,
        forall|i: int|
            0 <= i < 1 ==> code_place(id_code((#[trigger] ours_view()[i]).id)) == 0 + i,
{
    reveal_strlit("arxos");
    assert(id_code(ours_view()[0].id) == 5097114115);
}

proof fn lemma_rolling_places()
    ensures
        rolling_view().len() == 10,
        forall|i: int|
            0 <= i < 10 ==> code_place(id_code((#[trigger] rolling_view()[i]).id)) == 1 + i,
{
    reveal_strlit("arch");
    assert(id_code(rolling_view()[0].id) == 4097114104);
    reveal_strlit("cachyos");
    assert(id_code(rolling_view()[1].id) == 7099097115);
    reveal_strlit("endeavouros");
    assert(id_code(rolling_view()[2].id) == 11101110115);
    reveal_strlit("tumbleweed");
    assert(id_code(rolling_view()[3].id) == 10116117100);
    reveal_strlit("nixos");
    assert(id_code(rolling_view()[4].id) == 5110105115);
    reveal_strlit("void");
    assert(id_code(rolling_view()[5].id) == 4118111100);
    reveal_strlit("gentoo");
    assert(id_code(rolling_view()[6].id) == 6103101111);
    reveal_strlit("debian-sid");
    assert(id_code(rolling_view()[7].id) == 10100101100);
    reveal_strlit("fedora-rawhide");
    assert(id_code(rolling_view()[8].id) == 14102101101);
    reveal_strlit("kali-weekly");
    assert(id_code(rolling_view()[9].id) == 11107097121);
}

proof fn lemma_stable_places()
    ensures
        stable_view().len() == 14,
        forall|i: int|
            0 <= i < 14 ==> code_place(id_code((#[trigger] stable_view()[i]).id)) == 11 + i,
{
    reveal_strlit("debian");
    assert(id_code(stable_view()[0].id) == 6100101110);
    reveal_strlit("debian-live");
    assert(id_code(stable_view()[1].id) == 11100101101);
    reveal_strlit("ubuntu");
    assert(id_code(stable_view()[2].id) == 6117098117);
    reveal_strlit("fedora");
    assert(id_code(stable_view()[3].id) == 6102101097);
    reveal_strlit("kali");
    assert(id_code(stable_view()[4].id) == 4107097105);
    reveal_strlit("parrot");
    assert(id_code(stable_view()[5].id) == 6112097116);
    reveal_strlit("mint");
    assert(id_code(stable_view()[6].id) == 4109105116);
    reveal_strlit("alpine");
    assert(id_code(stable_view()[7].id) == 6097108101);
    reveal_strlit("rocky");
    assert(id_code(stable_view()[8].id) == 5114111121);
    reveal_strlit("alma");
    assert(id_code(stable_view()[9].id) == 4097108097);
    reveal_strlit("qubes");
    assert(id_code(stable_view()[10].id) == 5113117115);
    reveal_strlit("tails");
    assert(id_code(stable_view()[11].id) == 5116097115);
    reveal_strlit("proxmox");
    assert(id_code(stable_view()[12].id) == 7112114120);
    reveal_strlit("freebsd");
    assert(id_code(stable_view()[13].id) == 7102114100);
}

proof fn lemma_rescue_places()
    ensures
        rescue_view().len() == 3,
        forall|i: int|
            0 <= i < 3 ==> code_place(id_code((#[trigger] rescue_view()[i]).id)) == 25 + i,
{
    reveal_strlit("systemrescue");
    assert(id_code(rescue_view()[0].id) == 12115121101);
    reveal_strlit("rescuezilla");
    assert(id_code(rescue_view()[1].id) == 11114101097);
    reveal_strlit("netbootxyz");
    assert(id_code(rescue_view()[2].id) == 10110101122);
}

proof fn lemma_windows_places()
    ensures
        windows_view().len() == 7,
        forall|i: int|
            0 <= i < 7 ==> code_place(id_code((#[trigger] windows_view()[i]).id)) == 28 + i,
{
    reveal_strlit("win11");
    assert(id_code(windows_view()[0].id) == 5119105049);
    reveal_strlit("win10");
    assert(id_code(windows_view()[1].id) == 5119105048);
    reveal_strlit("win11-eval");
    assert(id_code(windows_view()[2].id) == 10119105108);
    reveal_strlit("winserver-eval");
    assert(id_code(windows_view()[3].id) == 14119105108);
    reveal_strlit("tiny11");
    assert(id_code(windows_view()[4].id) == 6116105049);
    reveal_strlit("tiny11-core");
    assert(id_code(windows_view()[5].id) == 11116105101);
    reveal_strlit("tiny10");
    assert(id_code(windows_view()[6].id) == 6116105048);
}

/// No two built-in entries have the same id.
pub proof fn law_builtin_ids_are_distinct()
    ensures
        catalog::distinct_ids(builtin_view()),
        builtin_view().len() == 35,
{
    lemma_ours_places();
    lemma_rolling_places();
    lemma_stable_places();
    lemma_rescue_places();
    lemma_windows_places();
    let v = builtin_view();
    assert forall|i: int| 0 <= i < v.len() implies code_place(id_code((#[trigger] v[i]).id)) == i by {
        if i < 1 {
            assert(v[i] == ours_view()[i - 0]);
        } else if i < 11 {
            assert(v[i] == rolling_view()[i - 1]);
        } else if i < 25 {
            assert(v[i] == stable_view()[i - 11]);
        } else if i < 28 {
            assert(v[i] == rescue_view()[i - 25]);
        } else if i < 35 {
            assert(v[i] == windows_view()[i - 28]);
        }
    }
    assert forall|i: int, j: int| 0 <= i < j < v.len() implies (#[trigger] v[i]).id != (
    #[trigger] v[j]).id by {
        assert(code_place(id_code(v[i].id)) == i);
        assert(code_place(id_code(v[j].id)) == j);
    }
}

} // verus!
