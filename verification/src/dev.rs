//! Block devices, and deciding which of them must never be written to.
//!
//! Everything here is decided from the text of files under `/sys` and `/proc`, so it works in a
//! rescue shell or an installer environment where the usual tools may be trimmed down.

use vstd::prelude::*;
use vstd::slice::slice_subrange;
use vstd::string::*;

use crate::text;

verus! {

/// A whole disk.
#[derive(Debug)]
pub struct Device {
    /// `sdc`
    pub name: String,
    /// `/dev/sdc`
    pub path: String,
    /// in bytes
    pub size: u64,
    pub removable: bool,
    pub model: String,
    /// where this disk or any of its partitions is mounted
    pub mounts: Vec<String>,
    /// carries the running system, so it is never writable
    pub holds_root: bool,
}

/// A whole disk, by the contents of its texts.
pub struct DeviceView {
    pub name: Seq<char>,
    pub path: Seq<char>,
    pub size: u64,
    pub removable: bool,
    pub model: Seq<char>,
    pub mounts: Seq<Seq<char>>,
    pub holds_root: bool,
}

impl View for Device {
    type V = DeviceView;

    open spec fn view(&self) -> DeviceView {
        DeviceView {
            name: self.name@,
            path: self.path@,
            size: self.size,
            removable: self.removable,
            model: self.model@,
            mounts: text::strings(self.mounts@),
            holds_root: self.holds_root,
        }
    }
}

pub open spec fn devices_view(v: Seq<Device>) -> Seq<DeviceView> {
    Seq::new(v.len(), |i: int| v[i]@)
}

/// A copy of each string.
pub fn copy_strings(v: &Vec<String>) -> (r: Vec<String>)
    ensures
        text::strings(r@) == text::strings(v@),
{
    let mut out: Vec<String> = Vec::new();
    let mut i: usize = 0;
    while i < v.len()
        invariant
            i <= v@.len(),
            text::strings(out@) =~= text::strings(v@).take(i as int),
        decreases v@.len() - i,
    {
        let ghost before = text::strings(out@);
        out.push(v[i].clone());
        assert(text::strings(out@) =~= before.push(v@[i as int]@));
        i += 1;
    }
    assert(text::strings(v@).take(i as int) =~= text::strings(v@));
    out
}

impl Clone for Device {
    fn clone(&self) -> (r: Self)
        ensures
            r@ == self@,
    {
        Device {
            name: self.name.clone(),
            path: self.path.clone(),
            size: self.size,
            removable: self.removable,
            model: self.model.clone(),
            mounts: copy_strings(&self.mounts),
            holds_root: self.holds_root,
        }
    }
}

// ---- the rule -------------------------------------------------------------------------------

impl DeviceView {
    /// Why this device must not be written.
    pub open spec fn refusal(self, allow_internal: bool) -> Option<Seq<char>> {
        if self.holds_root {
            Some("carries the running system (/)"@)
        } else if self.size == 0 {
            Some("no medium"@)
        } else if !self.removable && !allow_internal {
            Some("internal disk (pass --allow-internal if you really mean it)"@)
        } else {
            None
        }
    }
}

impl Device {
    /// Why this device must not be written, or None when it is a legitimate target.
    ///
    /// The disk that carries the running system is refused with any flag; an internal disk needs
    /// the flag; a removable one with a medium in it is allowed.
    pub fn refusal(&self, allow_internal: bool) -> (r: Option<String>)
        ensures
            text::text_opt(r) == self@.refusal(allow_internal),
            self.holds_root ==> r is Some,
            self.size == 0 ==> r is Some,
            !self.removable && !allow_internal ==> r is Some,
            r is None <==> !self.holds_root && self.size > 0 && (self.removable || allow_internal),
    {
        if self.holds_root {
            return Some("carries the running system (/)".to_owned());
        }
        if self.size == 0 {
            return Some("no medium".to_owned());
        }
        if !self.removable && !allow_internal {
            return Some("internal disk (pass --allow-internal if you really mean it)".to_owned());
        }
        None
    }
}

// ---- which mounts the running system needs --------------------------------------------------

/// The mounts the running system cannot survive losing.
pub open spec fn critical(mount: Seq<char>) -> bool {
    ||| mount == "/"@
    ||| mount == "/boot"@
    ||| mount == "/boot/efi"@
    ||| mount == "/usr"@
    ||| mount == "/var"@
}

pub open spec fn parse_u32(s: Seq<char>) -> Option<u32> {
    match text::parse_upto(s, u32::MAX as nat) {
        Some(n) => Some(n as u32),
        None => None,
    }
}

/// The two numbers of a device: `259:1`.
pub open spec fn device_numbers(s: Seq<char>) -> Option<(u32, u32)> {
    let parts = text::split(s, ':');
    if parts.len() >= 2 && parse_u32(parts[0]) is Some && parse_u32(parts[1]) is Some {
        Some((parse_u32(parts[0])->0, parse_u32(parts[1])->0))
    } else {
        None
    }
}

/// The fields of a line of mountinfo that is about a mount the system needs.
pub open spec fn critical_fields(line: Seq<char>) -> bool {
    text::words(line).len() >= 5 && critical(text::words(line)[4])
}

pub open spec fn line_numbers(line: Seq<char>) -> Option<(u32, u32)> {
    if critical_fields(line) {
        device_numbers(text::words(line)[2])
    } else {
        None
    }
}

/// Where the lone dash is that ends the optional fields.
pub open spec fn dash_from(f: Seq<Seq<char>>, i: int) -> Option<int>
    decreases f.len() - i,
{
    if i < 0 || i >= f.len() {
        None
    } else if f[i] == "-"@ {
        Some(i)
    } else {
        dash_from(f, i + 1)
    }
}

/// The device path that a critical mount was mounted from.
pub open spec fn line_source(line: Seq<char>) -> Option<Seq<char>> {
    let f = text::words(line);
    match dash_from(f, 0) {
        Some(i) => if critical_fields(line) && i + 2 < f.len() && text::starts_with(
            f[i + 2],
            "/dev/"@,
        ) {
            Some(f[i + 2])
        } else {
            None
        },
        None => None,
    }
}

/// The device numbers of the critical mounts, line by line.
pub open spec fn critical_numbers(ls: Seq<Seq<char>>) -> Seq<(u32, u32)>
    decreases ls.len(),
{
    if ls.len() == 0 {
        seq![]
    } else {
        match line_numbers(ls.last()) {
            Some(p) => critical_numbers(ls.drop_last()).push(p),
            None => critical_numbers(ls.drop_last()),
        }
    }
}

/// The device paths of the critical mounts, line by line.
pub open spec fn critical_paths(ls: Seq<Seq<char>>) -> Seq<Seq<char>>
    decreases ls.len(),
{
    if ls.len() == 0 {
        seq![]
    } else {
        match line_source(ls.last()) {
            Some(p) => critical_paths(ls.drop_last()).push(p),
            None => critical_paths(ls.drop_last()),
        }
    }
}

fn is_critical(m: &[char]) -> (r: bool)
    ensures
        r == critical(m@),
{
    text::same_str(m, "/") || text::same_str(m, "/boot") || text::same_str(m, "/boot/efi")
        || text::same_str(m, "/usr") || text::same_str(m, "/var")
}

fn number_u32(s: &[char]) -> (r: Option<u32>)
    ensures
        r == parse_u32(s@),
{
    match text::number_u64(s) {
        Some(n) => if n <= u32::MAX as u64 {
            Some(n as u32)
        } else {
            None
        },
        None => None,
    }
}

fn numbers_of(s: &[char]) -> (r: Option<(u32, u32)>)
    ensures
        r == device_numbers(s@),
{
    let parts: Vec<Vec<char>> = text::pieces_at(s, ':');
    if parts.len() < 2 {
        return None;
    }
    assert(text::texts(parts@)[0] == parts@[0]@);
    assert(text::texts(parts@)[1] == parts@[1]@);
    match (number_u32(&parts[0]), number_u32(&parts[1])) {
        (Some(a), Some(b)) => Some((a, b)),
        _ => None,
    }
}

fn dash_of(f: &Vec<Vec<char>>) -> (r: Option<usize>)
    ensures
        match r {
            Some(i) => dash_from(text::texts(f@), 0) == Some(i as int) && i < f@.len(),
            None => dash_from(text::texts(f@), 0) is None,
        },
{
    let mut i: usize = 0;
    while i < f.len()
        invariant
            i <= f@.len(),
            dash_from(text::texts(f@), 0) == dash_from(text::texts(f@), i as int),
        decreases f@.len() - i,
    {
        assert(text::texts(f@)[i as int] == f@[i as int]@);
        if text::same_str(&f[i], "-") {
            return Some(i);
        }
        i += 1;
    }
    None
}

/// Pull both identifications of the critical mounts out of mountinfo: the major:minor the kernel
/// reports, and the device path it was mounted from.
///
/// Both are needed. btrfs, ZFS and any filesystem on an anonymous block device report something
/// like 0:35 for "/", which matches no disk in /sys, so a check on numbers alone quietly decides
/// the system disk is an ordinary target.
pub fn critical_sources(mountinfo: &str) -> (r: (Vec<(u32, u32)>, Vec<String>))
    ensures
        r.0@ == critical_numbers(text::lines(mountinfo@)),
        text::strings(r.1@) == critical_paths(text::lines(mountinfo@)),
{
    let ls: Vec<Vec<char>> = text::lines_of(&text::chars_of(mountinfo));
    let ghost all = text::texts(ls@);
    let mut nums: Vec<(u32, u32)> = Vec::new();
    let mut srcs: Vec<String> = Vec::new();
    let mut i: usize = 0;
    while i < ls.len()
        invariant
            i <= ls@.len(),
            all == text::texts(ls@),
            nums@ =~= critical_numbers(all.take(i as int)),
            text::strings(srcs@) =~= critical_paths(all.take(i as int)),
        decreases ls@.len() - i,
    {
        assert(all.take(i + 1).drop_last() =~= all.take(i as int));
        assert(all.take(i + 1).last() == ls@[i as int]@);
        let f: Vec<Vec<char>> = text::words_of(&ls[i]);
        let ghost fields = text::texts(f@);
        i += 1;
        if f.len() < 5 {
            continue;
        }
        assert(fields[4] == f@[4]@ && fields[2] == f@[2]@);
        if !is_critical(&f[4]) {
            continue;
        }
        if let Some(p) = numbers_of(&f[2]) {
            nums.push(p);
        }
        if let Some(sep) = dash_of(&f) {
            if f.len() - sep > 2 {
                assert(fields[sep + 2] == f@[sep + 2]@);
                if text::begins(&f[sep + 2], "/dev/") {
                    let ghost before = text::strings(srcs@);
                    let s: String = text::string_of(&f[sep + 2]);
                    srcs.push(s);
                    assert(text::strings(srcs@) =~= before.push(s@));
                }
            }
        }
    }
    assert(all.take(i as int) =~= all);
    (nums, srcs)
}


// ---- from a mount source to its disks -------------------------------------------------------

/// The disks behind one block device, from what is known of it: the disks behind the devices it is
/// built on, the directory that its own directory sits in, and which of the two names are disks.
pub open spec fn node_disks(
    name: Seq<char>,
    from_slaves: Seq<Seq<char>>,
    parent: Option<Seq<char>>,
    parent_is_disk: bool,
    name_is_disk: bool,
) -> Seq<Seq<char>> {
    if from_slaves.len() > 0 {
        from_slaves
    } else if parent is Some && parent_is_disk {
        seq![parent->0]
    } else if name_is_disk {
        seq![name]
    } else {
        seq![]
    }
}

/// The directory that holds the one that a link leads to, by the components of the link: the second
/// to last. A partition's directory sits inside that of its disk.
pub fn parent_of(link: &Vec<String>) -> (r: Option<String>)
    ensures
        text::text_opt(r) == (if link@.len() >= 2 {
            Some(link@[link@.len() - 2]@)
        } else {
            None
        }),
{
    if link.len() >= 2 {
        Some(link[link.len() - 2].clone())
    } else {
        None
    }
}

/// The whole disks that a block device lives on. A device-mapper node (LUKS, LVM) lives on the
/// disks behind its slaves, which is how an encrypted root resolves; a partition lives on the disk
/// whose directory holds its own; a disk lives on itself.
pub fn disks_of_node(
    name: &str,
    from_slaves: Vec<String>,
    parent: Option<String>,
    parent_is_disk: bool,
    name_is_disk: bool,
) -> (r: Vec<String>)
    ensures
        text::strings(r@) == node_disks(
            name@,
            text::strings(from_slaves@),
            text::text_opt(parent),
            parent_is_disk,
            name_is_disk,
        ),
{
    if from_slaves.len() > 0 {
        return from_slaves;
    }
    let mut out: Vec<String> = Vec::new();
    if parent_is_disk {
        if let Some(p) = parent {
            let ghost seen = p@;
            out.push(p);
            assert(text::strings(out@) =~= seq![seen]);
            return out;
        }
    }
    if name_is_disk {
        out.push(name.to_owned());
        assert(text::strings(out@) =~= seq![name@]);
    } else {
        assert(text::strings(out@) =~= seq![]);
    }
    out
}

// ---- where a disk is mounted ----------------------------------------------------------------

/// What follows the name of a disk in that of its partitions: a number, with a `p` before it when
/// the name of the disk itself ends in a digit.
pub open spec fn numbers_partition(disk: Seq<char>, rest: Seq<char>) -> bool {
    if disk.len() > 0 && text::is_digit(disk.last()) {
        rest.len() > 1 && rest[0] == 'p' && text::all_digits(rest.drop_first())
    } else {
        rest.len() > 0 && text::all_digits(rest)
    }
}

/// `part` is the disk `disk` or one of its partitions, both given by their names or both by their
/// paths.
pub open spec fn on_disk(part: Seq<char>, disk: Seq<char>) -> bool {
    ||| part == disk
    ||| text::starts_with(part, disk) && numbers_partition(disk, part.skip(disk.len() as int))
}

/// The place where a line of the mount table mounts the disk at `path`, when it is about it.
pub open spec fn line_mount(line: Seq<char>, path: Seq<char>) -> Option<Seq<char>> {
    let w = text::words(line);
    let src = if w.len() > 0 {
        w[0]
    } else {
        seq![]
    };
    if on_disk(src, path) {
        Some(
            if w.len() > 1 {
                w[1]
            } else {
                seq![]
            },
        )
    } else {
        None
    }
}

pub open spec fn mount_points(ls: Seq<Seq<char>>, path: Seq<char>) -> Seq<Seq<char>>
    decreases ls.len(),
{
    if ls.len() == 0 {
        seq![]
    } else {
        match line_mount(ls.last(), path) {
            Some(p) => mount_points(ls.drop_last(), path).push(p),
            None => mount_points(ls.drop_last(), path),
        }
    }
}

fn all_digits(s: &[char]) -> (r: bool)
    ensures
        r == text::all_digits(s@),
{
    let mut i: usize = 0;
    while i < s.len()
        invariant
            i <= s@.len(),
            forall|j: int| 0 <= j < i ==> text::is_digit(#[trigger] s@[j]),
        decreases s@.len() - i,
    {
        if !text::digit(s[i]) {
            return false;
        }
        i += 1;
    }
    true
}

fn is_on_disk(part: &[char], disk: &[char]) -> (r: bool)
    ensures
        r == on_disk(part@, disk@),
{
    if !text::at(part, disk, 0) {
        assert(part@ == disk@ ==> part@.subrange(0, disk@.len() as int) =~= disk@);
        return false;
    }
    let rest: &[char] = slice_subrange(part, disk.len(), part.len());
    assert(rest@ =~= part@.skip(disk@.len() as int));
    assert(part@ =~= disk@ + rest@);
    if rest.len() == 0 {
        assert(part@ =~= disk@);
        return true;
    }
    if disk.len() > 0 && text::digit(disk[disk.len() - 1]) {
        if rest.len() > 1 && rest[0] == 'p' {
            let number: &[char] = slice_subrange(rest, 1, rest.len());
            assert(number@ =~= rest@.drop_first());
            all_digits(number)
        } else {
            false
        }
    } else {
        all_digits(rest)
    }
}

/// The mountpoints of the disk at `path` or any of its partitions, from the mount table.
pub fn mounts_for(path: &str, mounts: &str) -> (r: Vec<String>)
    ensures
        text::strings(r@) == mount_points(text::lines(mounts@), path@),
{
    let ls: Vec<Vec<char>> = text::lines_of(&text::chars_of(mounts));
    let p: Vec<char> = text::chars_of(path);
    let ghost all = text::texts(ls@);
    let mut out: Vec<String> = Vec::new();
    let mut i: usize = 0;
    while i < ls.len()
        invariant
            i <= ls@.len(),
            p@ == path@,
            all == text::texts(ls@),
            text::strings(out@) =~= mount_points(all.take(i as int), path@),
        decreases ls@.len() - i,
    {
        assert(all.take(i + 1).drop_last() =~= all.take(i as int));
        assert(all.take(i + 1).last() == ls@[i as int]@);
        let w: Vec<Vec<char>> = text::words_of(&ls[i]);
        let ghost fields = text::texts(w@);
        let none: Vec<char> = Vec::new();
        assert(none@ =~= seq![]);
        assert(w@.len() > 0 ==> fields[0] == w@[0]@);
        assert(w@.len() > 1 ==> fields[1] == w@[1]@);
        let src: &Vec<char> = if w.len() > 0 {
            &w[0]
        } else {
            &none
        };
        if is_on_disk(src, &p) {
            let ghost before = text::strings(out@);
            let s: String = if w.len() > 1 {
                text::string_of(&w[1])
            } else {
                String::new()
            };
            out.push(s);
            assert(text::strings(out@) =~= before.push(s@));
        }
        i += 1;
    }
    assert(all.take(i as int) =~= all);
    out
}


// ---- the list of disks ----------------------------------------------------------------------

/// A partition as it stands in the directory of its disk: its name, and the text of its `dev` file
/// when that could be read.
pub struct RawPart {
    pub name: String,
    pub dev: Option<String>,
}

/// A block device as it stands under `/sys/block`: its name, and the text of each file that could
/// be read.
pub struct RawDisk {
    pub name: String,
    pub size: Option<String>,
    pub removable: Option<String>,
    /// `device/model`
    pub model: Option<String>,
    /// `device/name`, for devices that have no model
    pub device_name: Option<String>,
    pub dev: Option<String>,
    pub parts: Vec<RawPart>,
}

/// ram, zram, device-mapper and optical devices are not burn targets; loop devices are only when
/// asked for.
pub open spec fn listed(name: Seq<char>, include_loop: bool) -> bool {
    &&& !text::starts_with(name, "ram"@)
    &&& !text::starts_with(name, "zram"@)
    &&& !text::starts_with(name, "dm-"@)
    &&& !text::starts_with(name, "sr"@)
    &&& include_loop || !text::starts_with(name, "loop"@)
}

/// One of the critical mounts has the device numbers that the text gives.
pub open spec fn names_root(dev: Seq<char>, root_nums: Seq<(u32, u32)>) -> bool {
    device_numbers(dev) is Some && root_nums.contains(device_numbers(dev)->0)
}

impl RawDisk {
    pub open spec fn sectors(self) -> u64 {
        match self.size {
            Some(s) => match text::parse_u64(text::trim(s@)) {
                Some(n) => n,
                None => 0,
            },
            None => 0,
        }
    }

    pub open spec fn model_text(self) -> Seq<char> {
        match (self.model, self.device_name) {
            (Some(m), _) => text::trim(m@),
            (None, Some(n)) => text::trim(n@),
            (None, None) => "unknown"@,
        }
    }

    /// The running system is on this disk: a critical mount was traced back to it, or the kernel
    /// gives a critical mount the device numbers of the disk or of one of its partitions.
    pub open spec fn carries_root(
        self,
        root_nums: Seq<(u32, u32)>,
        system_disks: Seq<Seq<char>>,
    ) -> bool {
        ||| system_disks.contains(self.name@)
        ||| self.dev is Some && names_root(text::trim(self.dev->0@), root_nums)
        ||| exists|i: int| 0 <= i < self.parts@.len() && self.part_names_root(i, root_nums)
    }

    pub open spec fn part_names_root(self, i: int, root_nums: Seq<(u32, u32)>) -> bool {
        let p = self.parts@[i];
        &&& text::starts_with(p.name@, self.name@)
        &&& p.dev is Some
        &&& names_root(text::trim(p.dev->0@), root_nums)
    }

    /// The disk that these texts describe.
    pub open spec fn device(
        self,
        root_nums: Seq<(u32, u32)>,
        system_disks: Seq<Seq<char>>,
        mounts: Seq<char>,
    ) -> DeviceView {
        let path = "/dev/"@ + self.name@;
        DeviceView {
            name: self.name@,
            path,
            size: (self.sectors() * 512) as u64,
            removable: self.removable is Some && text::trim(self.removable->0@) == "1"@,
            model: self.model_text(),
            mounts: mount_points(text::lines(mounts), path),
            holds_root: self.carries_root(root_nums, system_disks),
        }
    }

    /// The size in bytes can be said in 64 bits.
    pub open spec fn countable(self) -> bool {
        self.sectors() * 512 <= u64::MAX
    }
}

/// The first place after every name that does not come after `name`.
pub open spec fn place_from(v: Seq<DeviceView>, name: Seq<char>, i: int) -> int
    decreases v.len() - i,
{
    if 0 <= i < v.len() && !text::precedes(name, v[i].name) {
        place_from(v, name, i + 1)
    } else {
        i
    }
}

pub open spec fn inserted(v: Seq<DeviceView>, d: DeviceView) -> Seq<DeviceView> {
    v.insert(place_from(v, d.name, 0), d)
}

/// The disks to list, by name.
pub open spec fn listing(
    raws: Seq<RawDisk>,
    root_nums: Seq<(u32, u32)>,
    system_disks: Seq<Seq<char>>,
    mounts: Seq<char>,
    include_loop: bool,
) -> Seq<DeviceView>
    decreases raws.len(),
{
    if raws.len() == 0 {
        seq![]
    } else {
        let before = listing(raws.drop_last(), root_nums, system_disks, mounts, include_loop);
        let raw = raws.last();
        if listed(raw.name@, include_loop) {
            inserted(before, raw.device(root_nums, system_disks, mounts))
        } else {
            before
        }
    }
}

/// Whether a block device is listed at all.
pub fn is_listed(name: &[char], include_loop: bool) -> (r: bool)
    ensures
        r == listed(name@, include_loop),
{
    !text::begins(name, "ram") && !text::begins(name, "zram") && !text::begins(name, "dm-")
        && !text::begins(name, "sr") && (include_loop || !text::begins(name, "loop"))
}

fn trimmed_opt(s: &Option<String>) -> (r: Option<Vec<char>>)
    ensures
        match r {
            Some(t) => s is Some && t@ == text::trim(s->0@),
            None => s is None,
        },
{
    match s {
        Some(t) => {
            let c: Vec<char> = text::chars_of(t.as_str());
            Some(text::copy_of(text::trimmed(&c)))
        },
        None => None,
    }
}

fn has_pair(v: &Vec<(u32, u32)>, p: (u32, u32)) -> (r: bool)
    ensures
        r == v@.contains(p),
{
    let mut i: usize = 0;
    while i < v.len()
        invariant
            i <= v@.len(),
            forall|j: int| 0 <= j < i ==> v@[j] != p,
        decreases v@.len() - i,
    {
        if v[i].0 == p.0 && v[i].1 == p.1 {
            assert(v@[i as int] == p);
            return true;
        }
        i += 1;
    }
    false
}

fn is_root_number(dev: &Option<String>, root_nums: &Vec<(u32, u32)>) -> (r: bool)
    ensures
        r == (dev is Some && names_root(text::trim(dev->0@), root_nums@)),
{
    match trimmed_opt(dev) {
        Some(t) => match numbers_of(&t) {
            Some(p) => has_pair(root_nums, p),
            None => false,
        },
        None => false,
    }
}

/// Whether a string is among the given ones.
pub fn has_string(v: &Vec<String>, s: &str) -> (r: bool)
    ensures
        r == text::strings(v@).contains(s@),
{
    let c: Vec<char> = text::chars_of(s);
    let mut i: usize = 0;
    while i < v.len()
        invariant
            i <= v@.len(),
            c@ == s@,
            forall|j: int| 0 <= j < i ==> #[trigger] text::strings(v@)[j] != s@,
        decreases v@.len() - i,
    {
        assert(text::strings(v@)[i as int] == v@[i as int]@);
        if text::same_str(&c, v[i].as_str()) {
            return true;
        }
        i += 1;
    }
    false
}

impl RawDisk {
    /// How many sectors the disk says it has.
    pub fn sector_count(&self) -> (r: u64)
        ensures
            r == self.sectors(),
    {
        match trimmed_opt(&self.size) {
            Some(t) => match text::number_u64(&t) {
                Some(n) => n,
                None => 0,
            },
            None => 0,
        }
    }

    fn is_system(&self, root_nums: &Vec<(u32, u32)>, system_disks: &Vec<String>) -> (r: bool)
        ensures
            r == self.carries_root(root_nums@, text::strings(system_disks@)),
    {
        if has_string(system_disks, self.name.as_str()) {
            return true;
        }
        if is_root_number(&self.dev, root_nums) {
            return true;
        }
        let mut i: usize = 0;
        while i < self.parts.len()
            invariant
                i <= self.parts@.len(),
                forall|j: int| 0 <= j < i ==> !self.part_names_root(j, root_nums@),
            decreases self.parts@.len() - i,
        {
            let p: &RawPart = &self.parts[i];
            if text::begins(&text::chars_of(p.name.as_str()), self.name.as_str())
                && is_root_number(&p.dev, root_nums) {
                assert(self.part_names_root(i as int, root_nums@));
                return true;
            }
            i += 1;
        }
        false
    }

    /// The disk that the texts describe.
    pub fn to_device(
        &self,
        root_nums: &Vec<(u32, u32)>,
        system_disks: &Vec<String>,
        mounts: &str,
    ) -> (r: Device)
        requires
            self.countable(),
        ensures
            r@ == self.device(root_nums@, text::strings(system_disks@), mounts@),
    {
        let mut path: String = "/dev/".to_owned();
        path.append(self.name.as_str());
        let size: u64 = self.sector_count() * 512;
        let removable: bool = match trimmed_opt(&self.removable) {
            Some(t) => text::same_str(&t, "1"),
            None => false,
        };
        let model: String = match trimmed_opt(&self.model) {
            Some(t) => text::string_of(&t),
            None => match trimmed_opt(&self.device_name) {
                Some(t) => text::string_of(&t),
                None => "unknown".to_owned(),
            },
        };
        let found: Vec<String> = mounts_for(path.as_str(), mounts);
        let holds_root: bool = self.is_system(root_nums, system_disks);
        Device { name: self.name.clone(), path, size, removable, model, mounts: found, holds_root }
    }
}

fn place_of(v: &Vec<Device>, name: &str) -> (r: usize)
    ensures
        r == place_from(devices_view(v@), name@, 0),
        r <= v@.len(),
{
    let n: Vec<char> = text::chars_of(name);
    let mut i: usize = 0;
    while i < v.len() && !text::before(&n, &text::chars_of(v[i].name.as_str()))
        invariant
            i <= v@.len(),
            n@ == name@,
            place_from(devices_view(v@), name@, 0) == place_from(
                devices_view(v@),
                name@,
                i as int,
            ),
        decreases v@.len() - i,
    {
        assert(devices_view(v@)[i as int].name == v@[i as int].name@);
        i += 1;
    }
    i
}

/// The disks that can be listed, by name, each with whether it carries the running system.
///
/// `mountinfo` is the text of `/proc/self/mountinfo`, `mounts` that of `/proc/mounts`, and
/// `system_disks` the disks that the sources of the critical mounts were traced back to.
pub fn list(
    raws: &Vec<RawDisk>,
    mountinfo: &str,
    system_disks: &Vec<String>,
    mounts: &str,
    include_loop: bool,
) -> (r: Vec<Device>)
    requires
        forall|i: int|
            0 <= i < raws@.len() && listed((#[trigger] raws@[i]).name@, include_loop)
                ==> raws@[i].countable(),
    ensures
        devices_view(r@) == listing(
            raws@,
            critical_numbers(text::lines(mountinfo@)),
            text::strings(system_disks@),
            mounts@,
            include_loop,
        ),
{
    let (root_nums, _): (Vec<(u32, u32)>, Vec<String>) = critical_sources(mountinfo);
    let mut out: Vec<Device> = Vec::new();
    let mut i: usize = 0;
    while i < raws.len()
        invariant
            i <= raws@.len(),
            forall|j: int|
                0 <= j < raws@.len() && listed((#[trigger] raws@[j]).name@, include_loop)
                    ==> raws@[j].countable(),
            devices_view(out@) =~= listing(
                raws@.take(i as int),
                root_nums@,
                text::strings(system_disks@),
                mounts@,
                include_loop,
            ),
        decreases raws@.len() - i,
    {
        assert(raws@.take(i + 1).drop_last() =~= raws@.take(i as int));
        assert(raws@[i as int] == raws@.take(i + 1).last());
        if is_listed(&text::chars_of(raws[i].name.as_str()), include_loop) {
            let ghost before = devices_view(out@);
            let d: Device = raws[i].to_device(&root_nums, system_disks, mounts);
            let ghost dv = d@;
            let at: usize = place_of(&out, d.name.as_str());
            out.insert(at, d);
            assert(devices_view(out@) =~= before.insert(at as int, dv));
        }
        i += 1;
    }
    assert(raws@.take(i as int) =~= raws@);
    out
}


// ---- from what the user typed to a disk -----------------------------------------------------

/// The first disk from `i` on with the given name.
pub open spec fn named_from(v: Seq<DeviceView>, name: Seq<char>, i: int) -> Option<int>
    decreases v.len() - i,
{
    if i < 0 || i >= v.len() {
        None
    } else if v[i].name == name {
        Some(i)
    } else {
        named_from(v, name, i + 1)
    }
}

/// The first disk from `i` on that a partition is on.
pub open spec fn holding_from(v: Seq<DeviceView>, part: Seq<char>, i: int) -> Option<int>
    decreases v.len() - i,
{
    if i < 0 || i >= v.len() {
        None
    } else if on_disk(part, v[i].name) {
        Some(i)
    } else {
        holding_from(v, part, i + 1)
    }
}

/// The disk that was meant: by its name, with or without `/dev/` before it, or else by one of its
/// partitions, `part` being the partition with the typed UUID when there is one.
pub open spec fn meant(target: Seq<char>, v: Seq<DeviceView>, part: Option<Seq<char>>) -> Option<
    int,
> {
    match named_from(v, text::trim_start_matches(target, "/dev/"@), 0) {
        Some(i) => Some(i),
        None => match part {
            Some(p) => holding_from(v, p, 0),
            None => None,
        },
    }
}

pub open spec fn no_device(target: Seq<char>) -> Seq<char> {
    "no block device matches '"@ + target + "' (try: arxburn list)"@
}

/// Resolve what the user typed: /dev/sdc, sdc, or a filesystem UUID of one of its partitions.
/// UUID is the safer habit, because sd* letters move when you replug, and that is precisely how
/// people overwrite the wrong disk.
///
/// `part` is the name of the partition that has the typed text as its UUID, when there is one.
pub fn resolve(target: &str, devices: &Vec<Device>, part: &Option<String>) -> (r: Result<
    Device,
    String,
>)
    ensures
        match r {
            Ok(d) => meant(target@, devices_view(devices@), text::text_opt(*part)) matches Some(i)
                && 0 <= i < devices@.len() && d@ == devices@[i]@,
            Err(e) => meant(target@, devices_view(devices@), text::text_opt(*part)) is None && e@
                == no_device(target@),
        },
{
    let ghost v = devices_view(devices@);
    let typed: Vec<char> = text::chars_of(target);
    proof {
        reveal_strlit("/dev/");
    }
    let want: &[char] = text::without_prefixes(&typed, "/dev/");
    let mut i: usize = 0;
    while i < devices.len()
        invariant
            i <= devices@.len(),
            v == devices_view(devices@),
            want@ == text::trim_start_matches(target@, "/dev/"@),
            named_from(v, want@, 0) == named_from(v, want@, i as int),
        decreases devices@.len() - i,
    {
        assert(v[i as int].name == devices@[i as int].name@);
        if text::same_str(want, devices[i].name.as_str()) {
            return Ok(devices[i].clone());
        }
        i += 1;
    }
    if let Some(p) = part {
        let p: Vec<char> = text::chars_of(p.as_str());
        i = 0;
        while i < devices.len()
            invariant
                i <= devices@.len(),
                v == devices_view(devices@),
                part is Some && p@ == part->0@,
                named_from(v, text::trim_start_matches(target@, "/dev/"@), 0) is None,
                holding_from(v, p@, 0) == holding_from(v, p@, i as int),
            decreases devices@.len() - i,
        {
            assert(v[i as int].name == devices@[i as int].name@);
            if is_on_disk(&p, &text::chars_of(devices[i].name.as_str())) {
                return Ok(devices[i].clone());
            }
            i += 1;
        }
    }
    let mut e: String = "no block device matches '".to_owned();
    e.append(target);
    e.append("' (try: arxburn list)");
    Err(e)
}

proof fn lemma_holding(v: Seq<DeviceView>, part: Seq<char>, i: int)
    requires
        0 <= i,
    ensures
        match holding_from(v, part, i) {
            Some(k) => i <= k < v.len() && on_disk(part, v[k].name),
            None => forall|j: int| i <= j < v.len() ==> !on_disk(part, #[trigger] v[j].name),
        },
    decreases v.len() - i,
{
    if i < v.len() && !on_disk(part, v[i].name) {
        lemma_holding(v, part, i + 1);
    }
}

proof fn lemma_named(v: Seq<DeviceView>, name: Seq<char>, i: int)
    requires
        0 <= i,
    ensures
        match named_from(v, name, i) {
            Some(k) => i <= k < v.len() && v[k].name == name,
            None => forall|j: int| i <= j < v.len() ==> (#[trigger] v[j]).name != name,
        },
    decreases v.len() - i,
{
    if i < v.len() && v[i].name != name {
        lemma_named(v, name, i + 1);
    }
}

/// A target is the disk whose name was typed, or else the disk that the partition with the typed
/// UUID is on, and never another whose name merely begins like that of the partition; when there is
/// such a disk, one is found.
pub proof fn law_a_target_is_the_disk_that_was_meant(
    target: Seq<char>,
    v: Seq<DeviceView>,
    part: Option<Seq<char>>,
)
    ensures
        match meant(target, v, part) {
            Some(k) => {
                &&& 0 <= k < v.len()
                &&& v[k].name == text::trim_start_matches(target, "/dev/"@) || part is Some
                    && on_disk(part->0, v[k].name)
            },
            None => forall|j: int|
                0 <= j < v.len() ==> (#[trigger] v[j]).name != text::trim_start_matches(
                    target,
                    "/dev/"@,
                ) && (part matches Some(p) ==> !on_disk(p, v[j].name)),
        },
{
    lemma_named(v, text::trim_start_matches(target, "/dev/"@), 0);
    if let Some(p) = part {
        lemma_holding(v, p, 0);
    }
}

// ---- what the list promises -----------------------------------------------------------------

proof fn lemma_precedes_transitive(a: Seq<char>, b: Seq<char>, c: Seq<char>)
    requires
        text::precedes(a, b),
        text::precedes(b, c),
    ensures
        text::precedes(a, c),
    decreases a.len(),
{
    if a.len() > 0 && b.len() > 0 && c.len() > 0 && a[0] == b[0] && b[0] == c[0] {
        lemma_precedes_transitive(a.drop_first(), b.drop_first(), c.drop_first());
    }
}

/// No disk stands after one whose name comes later.
pub open spec fn sorted_by_name(v: Seq<DeviceView>) -> bool {
    forall|i: int, j: int|
        0 <= i < j < v.len() ==> !text::precedes(#[trigger] v[j].name, #[trigger] v[i].name)
}

proof fn lemma_place(v: Seq<DeviceView>, name: Seq<char>, i: int)
    requires
        0 <= i <= v.len(),
    ensures
        i <= place_from(v, name, i) <= v.len(),
        forall|k: int|
            i <= k < place_from(v, name, i) ==> !text::precedes(name, #[trigger] v[k].name),
        place_from(v, name, i) < v.len() ==> text::precedes(name, v[place_from(v, name, i)].name),
    decreases v.len() - i,
{
    if i < v.len() && !text::precedes(name, v[i].name) {
        lemma_place(v, name, i + 1);
    }
}

proof fn lemma_inserted_sorted(v: Seq<DeviceView>, d: DeviceView)
    requires
        sorted_by_name(v),
    ensures
        sorted_by_name(inserted(v, d)),
{
    let at = place_from(v, d.name, 0);
    lemma_place(v, d.name, 0);
    let w = inserted(v, d);
    assert forall|i: int, j: int| 0 <= i < j < w.len() implies !text::precedes(
        #[trigger] w[j].name,
        #[trigger] w[i].name,
    ) by {
        if j == at {
            assert(w[i] == v[i]);
        } else if i == at {
            assert(w[j] == v[j - 1]);
            if text::precedes(v[j - 1].name, d.name) {
                lemma_precedes_transitive(v[j - 1].name, d.name, v[at].name);
                assert(j - 1 > at ==> !text::precedes(v[j - 1].name, v[at].name));
                assert(j - 1 == at);
                lemma_precedes_transitive(v[at].name, d.name, v[at].name);
                lemma_precedes_irreflexive(v[at].name);
            }
        } else {
            assert(w[i] == if i < at { v[i] } else { v[i - 1] });
            assert(w[j] == if j < at { v[j] } else { v[j - 1] });
        }
    }
}

proof fn lemma_precedes_irreflexive(a: Seq<char>)
    ensures
        !text::precedes(a, a),
    decreases a.len(),
{
    if a.len() > 0 {
        lemma_precedes_irreflexive(a.drop_first());
    }
}

/// The disks that are listed, in the order in which they were found.
pub open spec fn found(
    raws: Seq<RawDisk>,
    root_nums: Seq<(u32, u32)>,
    system_disks: Seq<Seq<char>>,
    mounts: Seq<char>,
    include_loop: bool,
) -> Seq<DeviceView>
    decreases raws.len(),
{
    if raws.len() == 0 {
        seq![]
    } else {
        let before = found(raws.drop_last(), root_nums, system_disks, mounts, include_loop);
        if listed(raws.last().name@, include_loop) {
            before.push(raws.last().device(root_nums, system_disks, mounts))
        } else {
            before
        }
    }
}

/// The list holds exactly the disks that can be listed, each as often as it was found, in the order
/// of their names.
pub proof fn law_list_is_sorted_and_complete(
    raws: Seq<RawDisk>,
    root_nums: Seq<(u32, u32)>,
    system_disks: Seq<Seq<char>>,
    mounts: Seq<char>,
    include_loop: bool,
)
    ensures
        sorted_by_name(listing(raws, root_nums, system_disks, mounts, include_loop)),
        listing(raws, root_nums, system_disks, mounts, include_loop).to_multiset() == found(
            raws,
            root_nums,
            system_disks,
            mounts,
            include_loop,
        ).to_multiset(),
    decreases raws.len(),
{
    broadcast use vstd::seq_lib::group_to_multiset_ensures;

    if raws.len() > 0 {
        law_list_is_sorted_and_complete(
            raws.drop_last(),
            root_nums,
            system_disks,
            mounts,
            include_loop,
        );
        let before = listing(raws.drop_last(), root_nums, system_disks, mounts, include_loop);
        let d = raws.last().device(root_nums, system_disks, mounts);
        lemma_inserted_sorted(before, d);
        lemma_place(before, d.name, 0);
    }
}

proof fn lemma_number_recorded(ls: Seq<Seq<char>>, i: int)
    requires
        0 <= i < ls.len(),
    ensures
        line_numbers(ls[i]) matches Some(p) ==> critical_numbers(ls).contains(p),
        line_source(ls[i]) matches Some(p) ==> critical_paths(ls).contains(p),
    decreases ls.len(),
{
    let nums = critical_numbers(ls);
    let paths = critical_paths(ls);
    let nums0 = critical_numbers(ls.drop_last());
    let paths0 = critical_paths(ls.drop_last());
    if i == ls.len() - 1 {
        if let Some(p) = line_numbers(ls[i]) {
            assert(nums[nums.len() - 1] == p);
        }
        if let Some(p) = line_source(ls[i]) {
            assert(paths[paths.len() - 1] == p);
        }
    } else {
        lemma_number_recorded(ls.drop_last(), i);
        if let Some(p) = line_numbers(ls[i]) {
            let k = choose|k: int| 0 <= k < nums0.len() && nums0[k] == p;
            assert(nums[k] == p);
        }
        if let Some(p) = line_source(ls[i]) {
            let k = choose|k: int| 0 <= k < paths0.len() && paths0[k] == p;
            assert(paths[k] == p);
        }
    }
}

/// The disk that carries the running system is never a target. When line `i` of mountinfo mounts
/// something the system needs, its source is handed on to be traced, and a disk is refused, with
/// any flag, that the trace led to, or whose device numbers, or those of one of its partitions, are
/// the ones on that line.
pub proof fn law_system_disk_is_never_a_target(
    raw: RawDisk,
    mountinfo: Seq<char>,
    i: int,
    system_disks: Seq<Seq<char>>,
    mounts: Seq<char>,
    allow_internal: bool,
)
    requires
        0 <= i < text::lines(mountinfo).len(),
        critical_fields(text::lines(mountinfo)[i]),
    ensures
        ({
            let ls = text::lines(mountinfo);
            let nums = critical_numbers(ls);
            let d = raw.device(nums, system_disks, mounts);
            &&& line_source(ls[i]) matches Some(p) ==> critical_paths(ls).contains(p)
            &&& system_disks.contains(raw.name@) ==> d.refusal(allow_internal) is Some
            &&& line_numbers(ls[i]) matches Some(p) ==> {
                ||| !(raw.dev is Some && device_numbers(text::trim(raw.dev->0@)) == Some(p))
                ||| d.refusal(allow_internal) is Some
            }
            &&& line_numbers(ls[i]) matches Some(p) ==> forall|k: int|
                0 <= k < raw.parts@.len() && text::starts_with(
                    (#[trigger] raw.parts@[k]).name@,
                    raw.name@,
                ) && raw.parts@[k].dev is Some && device_numbers(
                    text::trim(raw.parts@[k].dev->0@),
                ) == Some(p) ==> d.refusal(allow_internal) is Some
        }),
{
    let ls = text::lines(mountinfo);
    let nums = critical_numbers(ls);
    let d = raw.device(nums, system_disks, mounts);
    lemma_number_recorded(ls, i);
    if let Some(p) = line_numbers(ls[i]) {
        assert forall|k: int|
            0 <= k < raw.parts@.len() && text::starts_with(
                (#[trigger] raw.parts@[k]).name@,
                raw.name@,
            ) && raw.parts@[k].dev is Some && device_numbers(text::trim(raw.parts@[k].dev->0@))
                == Some(p) implies d.refusal(allow_internal) is Some by {
            assert(raw.part_names_root(k, nums));
        }
    }
}


/// The second text is the first one with white space around it, or both could not be read.
pub open spec fn padded(x: Option<String>, y: Option<String>) -> bool {
    match (x, y) {
        (Some(s), Some(u)) => exists|a: Seq<char>, b: Seq<char>|
            text::blank(a) && text::blank(b) && u@ == #[trigger] (a + s@ + b),
        (None, None) => true,
        _ => false,
    }
}

proof fn lemma_padded(x: Option<String>, y: Option<String>)
    requires
        padded(x, y),
    ensures
        x is Some <==> y is Some,
        x is Some ==> text::trim(x->0@) == text::trim(y->0@),
{
    if let (Some(s), Some(u)) = (x, y) {
        let (a, b) = choose|a: Seq<char>, b: Seq<char>|
            text::blank(a) && text::blank(b) && u@ == #[trigger] (a + s@ + b);
        text::law_white_space_around_is_ignored(a, s@, b);
    }
}

/// White space around what the files of a disk say, such as the line feed that they end with, makes no
/// difference to how the disk is listed.
pub proof fn law_white_space_in_sysfs_is_ignored(
    raw: RawDisk,
    other: RawDisk,
    root_nums: Seq<(u32, u32)>,
    system_disks: Seq<Seq<char>>,
    mounts: Seq<char>,
)
    requires
        raw.name@ == other.name@,
        padded(raw.size, other.size),
        padded(raw.removable, other.removable),
        padded(raw.model, other.model),
        padded(raw.device_name, other.device_name),
        padded(raw.dev, other.dev),
        raw.parts@.len() == other.parts@.len(),
        forall|i: int|
            0 <= i < raw.parts@.len() ==> (#[trigger] raw.parts@[i]).name@ == other.parts@[i].name@
                && padded(raw.parts@[i].dev, other.parts@[i].dev),
    ensures
        raw.device(root_nums, system_disks, mounts) == other.device(root_nums, system_disks, mounts),
{
    lemma_padded(raw.size, other.size);
    lemma_padded(raw.removable, other.removable);
    lemma_padded(raw.model, other.model);
    lemma_padded(raw.device_name, other.device_name);
    lemma_padded(raw.dev, other.dev);
    assert forall|i: int| 0 <= i < raw.parts@.len() implies #[trigger] raw.part_names_root(i, root_nums)
        == other.part_names_root(i, root_nums) by {
        assert(raw.parts@[i].name@ == other.parts@[i].name@);
        lemma_padded(raw.parts@[i].dev, other.parts@[i].dev);
    }
    assert forall|i: int| 0 <= i < raw.parts@.len() implies #[trigger] other.part_names_root(i, root_nums)
        == raw.part_names_root(i, root_nums) by {
        assert(raw.part_names_root(i, root_nums) == other.part_names_root(i, root_nums));
    }
    assert(raw.carries_root(root_nums, system_disks) == other.carries_root(root_nums, system_disks));
}

/// A disk is listed as removable exactly when its file says 1, with or without white space around it;
/// one that has a medium and does not carry the system is then writable without any flag, and an
/// internal one only with the flag.
pub proof fn law_a_stick_may_be_written(
    raw: RawDisk,
    root_nums: Seq<(u32, u32)>,
    system_disks: Seq<Seq<char>>,
    mounts: Seq<char>,
)
    ensures
        ({
            let d = raw.device(root_nums, system_disks, mounts);
            &&& d.removable <==> raw.removable is Some && exists|a: Seq<char>, b: Seq<char>|
                text::blank(a) && text::blank(b) && raw.removable->0@ == #[trigger] (a + seq!['1']
                    + b)
            &&& d.refusal(false) is None <==> !d.holds_root && d.size > 0 && d.removable
            &&& d.refusal(true) is None <==> !d.holds_root && d.size > 0
        }),
{
    reveal_strlit("1");
    assert("1"@ =~= seq!['1']);
    if raw.removable is Some {
        let s = raw.removable->0@;
        if text::trim(s) == seq!['1'] {
            text::law_trimming_takes_off_only_white_space(s);
            let (a, b) = choose|a: Seq<char>, b: Seq<char>|
                text::blank(a) && text::blank(b) && #[trigger] (a + text::trim(s) + b) == s;
            assert(a + seq!['1'] + b == s);
        }
        if exists|a: Seq<char>, b: Seq<char>|
            text::blank(a) && text::blank(b) && s == #[trigger] (a + seq!['1'] + b) {
            let (a, b) = choose|a: Seq<char>, b: Seq<char>|
                text::blank(a) && text::blank(b) && s == #[trigger] (a + seq!['1'] + b);
            text::law_white_space_around_is_ignored(a, seq!['1'], b);
            text::law_what_white_space_is('1');
            text::law_a_trimmed_text_stays(seq!['1']);
        }
    }
}

/// A disk is as large as its file says, in sectors of 512 bytes; one whose file is missing or holds no
/// number has no medium. It is called by its name, under /dev, and by its model, or else by the other
/// name it may have, without white space around them.
pub proof fn law_how_a_disk_is_listed(
    raw: RawDisk,
    a: Seq<char>,
    n: u64,
    b: Seq<char>,
    root_nums: Seq<(u32, u32)>,
    system_disks: Seq<Seq<char>>,
    mounts: Seq<char>,
)
    requires
        text::blank(a),
        text::blank(b),
        n * 512 <= u64::MAX,
    ensures
        ({
            let d = raw.device(root_nums, system_disks, mounts);
            &&& raw.size is Some && raw.size->0@ == a + text::decimal(n as nat) + b ==> d.size == n * 512
            &&& raw.size is None ==> d.size == 0
            &&& raw.size is Some && !(exists|i: int|
                0 <= i < raw.size->0@.len() && '0' <= #[trigger] raw.size->0@[i] && raw.size->0@[i]
                    <= '9') ==> d.size == 0
            &&& d.name == raw.name@
            &&& d.path == "/dev/"@ + raw.name@
            &&& raw.model is Some ==> d.model == text::trim(raw.model->0@)
            &&& raw.model is None && raw.device_name is Some ==> d.model == text::trim(
                raw.device_name->0@,
            )
            &&& raw.model is None && raw.device_name is None ==> d.model == "unknown"@
        }),
{
    let x = text::decimal(n as nat);
    text::law_white_space_around_is_ignored(a, x, b);
    text::lemma_digits_alone(n as nat, ' ');
    text::lemma_parse_decimal(n);
    if raw.size is Some {
        let s = raw.size->0@;
        let m = text::trim(s);
        text::law_numbers_are_read_from_digits(0, m);
        if text::parse_u64(m) is Some {
            text::law_trimming_takes_off_only_white_space(s);
            let (u, v) = choose|u: Seq<char>, v: Seq<char>|
                text::blank(u) && text::blank(v) && #[trigger] (u + m + v) == s;
            let k = if m[0] == '+' {
                1int
            } else {
                0
            };
            assert(text::is_digit(text::unsigned(m)[0]));
            assert(text::unsigned(m)[0] == m[k]);
            assert(s[u.len() + k] == m[k]);
        }
    }
}

/// A line that tells of one of these mounts: the device numbers stand in its third field and the mount
/// in its fifth.
pub open spec fn tells_of(line: Seq<char>, mount: Seq<char>, major: u32, minor: u32) -> bool {
    let f = text::words(line);
    &&& f.len() >= 5
    &&& f[4] == mount
    &&& f[2] == text::decimal(major as nat) + seq![':'] + text::decimal(minor as nat)
}

proof fn lemma_numbers_read(major: u32, minor: u32)
    ensures
        device_numbers(text::decimal(major as nat) + seq![':'] + text::decimal(minor as nat)) == Some(
            (major, minor),
        ),
        text::trim(text::decimal(major as nat) + seq![':'] + text::decimal(minor as nat))
            == text::decimal(major as nat) + seq![':'] + text::decimal(minor as nat),
{
    let a = text::decimal(major as nat);
    let b = text::decimal(minor as nat);
    text::lemma_digits_alone(major as nat, ':');
    text::lemma_digits_alone(minor as nat, ':');
    text::law_the_first_piece_comes_first(a, ':', b);
    text::lemma_split_none(b, ':');
    text::lemma_decimal(major as nat);
    text::lemma_decimal(minor as nat);
    assert(text::split(a + seq![':'] + b, ':') =~= seq![a, b]);
    let s = a + seq![':'] + b;
    assert(text::is_digit(a[0]) && text::is_digit(b[b.len() - 1]));
    assert(s[0] == a[0] && s.last() == b.last());
    text::law_what_white_space_is(s[0]);
    text::law_what_white_space_is(s.last());
}

/// What the running system cannot survive losing, `/`, `/boot`, `/boot/efi`, `/usr` and `/var`, makes
/// its disk untouchable: when mountinfo tells of such a mount with the device numbers of a disk, or of
/// one of its partitions, the disk is refused with any flag.
pub proof fn law_the_disk_of_a_critical_mount_is_refused(
    raw: RawDisk,
    ls: Seq<Seq<char>>,
    i: int,
    mount: Seq<char>,
    major: u32,
    minor: u32,
    k: int,
    a: Seq<char>,
    b: Seq<char>,
    system_disks: Seq<Seq<char>>,
    mounts: Seq<char>,
    allow_internal: bool,
)
    requires
        0 <= i < ls.len(),
        mount == "/"@ || mount == "/boot"@ || mount == "/boot/efi"@ || mount == "/usr"@ || mount
            == "/var"@,
        tells_of(ls[i], mount, major, minor),
        text::blank(a) && text::blank(b),
        ({
            let dev = a + (text::decimal(major as nat) + seq![':'] + text::decimal(minor as nat)) + b;
            ||| raw.dev is Some && raw.dev->0@ == dev
            ||| 0 <= k < raw.parts@.len() && text::starts_with(raw.parts@[k].name@, raw.name@)
                && raw.parts@[k].dev is Some && raw.parts@[k].dev->0@ == dev
        }),
    ensures
        raw.device(critical_numbers(ls), system_disks, mounts).holds_root,
        raw.device(critical_numbers(ls), system_disks, mounts).refusal(allow_internal) is Some,
{
    lemma_numbers_read(major, minor);
    let s = text::decimal(major as nat) + seq![':'] + text::decimal(minor as nat);
    text::law_white_space_around_is_ignored(a, s, b);
    lemma_number_recorded(ls, i);
    let nums = critical_numbers(ls);
    assert(nums.contains((major, minor)));
    if !(raw.dev is Some && raw.dev->0@ == a + s + b) {
        assert(raw.part_names_root(k, nums));
    }
}

/// The device that such a mount comes from is handed on to be traced: it is the second field after the
/// lone dash, when it is a path under /dev. And a disk that a trace led to is refused with any flag.
pub proof fn law_the_source_of_a_critical_mount_is_traced(
    raw: RawDisk,
    ls: Seq<Seq<char>>,
    i: int,
    mount: Seq<char>,
    k: int,
    root_nums: Seq<(u32, u32)>,
    system_disks: Seq<Seq<char>>,
    mounts: Seq<char>,
    allow_internal: bool,
)
    requires
        0 <= i < ls.len(),
        mount == "/"@ || mount == "/boot"@ || mount == "/boot/efi"@ || mount == "/usr"@ || mount
            == "/var"@,
        text::words(ls[i]).len() >= 5 && text::words(ls[i])[4] == mount,
        0 <= k && k + 2 < text::words(ls[i]).len(),
        text::words(ls[i])[k] == seq!['-'],
        forall|j: int| 0 <= j < k ==> #[trigger] text::words(ls[i])[j] != seq!['-'],
        text::starts_with(text::words(ls[i])[k + 2], "/dev/"@),
    ensures
        critical_paths(ls).contains(text::words(ls[i])[k + 2]),
        system_disks.contains(raw.name@) ==> raw.device(root_nums, system_disks, mounts).refusal(
            allow_internal,
        ) is Some,
{
    reveal_strlit("-");
    assert("-"@ =~= seq!['-']);
    lemma_dash(text::words(ls[i]), 0, k);
    lemma_number_recorded(ls, i);
}

proof fn lemma_dash(f: Seq<Seq<char>>, i: int, k: int)
    requires
        0 <= i <= k < f.len(),
        f[k] == "-"@,
        forall|j: int| i <= j < k ==> #[trigger] f[j] != "-"@,
    ensures
        dash_from(f, i) == Some(k),
    decreases k - i,
{
    if i < k {
        lemma_dash(f, i + 1, k);
    }
}

proof fn lemma_number_from(ls: Seq<Seq<char>>, p: (u32, u32))
    requires
        critical_numbers(ls).contains(p),
    ensures
        exists|i: int| 0 <= i < ls.len() && line_numbers(#[trigger] ls[i]) == Some(p),
    decreases ls.len(),
{
    if ls.len() > 0 {
        let nums = critical_numbers(ls);
        let before = critical_numbers(ls.drop_last());
        if line_numbers(ls.last()) == Some(p) {
            assert(line_numbers(ls[ls.len() - 1]) == Some(p));
        } else {
            let k = choose|k: int| 0 <= k < nums.len() && nums[k] == p;
            assert(before[k] == p);
            lemma_number_from(ls.drop_last(), p);
            let i = choose|i: int|
                0 <= i < ls.drop_last().len() && line_numbers(#[trigger] ls.drop_last()[i]) == Some(p);
            assert(line_numbers(ls[i]) == Some(p));
        }
    }
}

/// No other disk is taken for the system disk: where mountinfo tells of no such mount at all, a disk
/// that no trace led to does not carry the system.
pub proof fn law_no_other_disk_carries_the_system(
    raw: RawDisk,
    ls: Seq<Seq<char>>,
    system_disks: Seq<Seq<char>>,
    mounts: Seq<char>,
)
    requires
        !system_disks.contains(raw.name@),
        forall|i: int|
            0 <= i < ls.len() ==> text::words(#[trigger] ls[i]).len() < 5 || !(text::words(ls[i])[4]
                == "/"@ || text::words(ls[i])[4] == "/boot"@ || text::words(ls[i])[4]
                == "/boot/efi"@ || text::words(ls[i])[4] == "/usr"@ || text::words(ls[i])[4]
                == "/var"@),
    ensures
        !raw.device(critical_numbers(ls), system_disks, mounts).holds_root,
{
    let nums = critical_numbers(ls);
    assert forall|p: (u32, u32)| !nums.contains(p) by {
        if nums.contains(p) {
            lemma_number_from(ls, p);
        }
    }
}

/// Memory disks, mapped devices and optical drives are never listed, loop devices only when asked for,
/// and every other disk always.
pub proof fn law_which_disks_are_listed(name: Seq<char>, rest: Seq<char>, include_loop: bool)
    ensures
        !listed("ram"@ + rest, include_loop),
        !listed("zram"@ + rest, include_loop),
        !listed("dm-"@ + rest, include_loop),
        !listed("sr"@ + rest, include_loop),
        !listed("loop"@ + rest, false),
        listed("loop"@ + rest, true),
        name.len() > 0 && name[0] != 'r' && name[0] != 'z' && name[0] != 'd' && name[0] != 's'
            && name[0] != 'l' ==> listed(name, include_loop),
        listed("sd"@ + rest, include_loop),
        listed("nvme"@ + rest, include_loop),
        listed("mmcblk"@ + rest, include_loop),
        listed("vd"@ + rest, include_loop),
{
    reveal_strlit("ram");
    reveal_strlit("zram");
    reveal_strlit("dm-");
    reveal_strlit("sr");
    reveal_strlit("loop");
    reveal_strlit("sd");
    reveal_strlit("nvme");
    reveal_strlit("mmcblk");
    reveal_strlit("vd");
    lemma_begins("ram"@, rest);
    lemma_begins("zram"@, rest);
    lemma_begins("dm-"@, rest);
    lemma_begins("sr"@, rest);
    lemma_begins("loop"@, rest);
    lemma_first_differs("loop"@ + rest, "ram"@, 0);
    lemma_first_differs("loop"@ + rest, "zram"@, 0);
    lemma_first_differs("loop"@ + rest, "dm-"@, 0);
    lemma_first_differs("loop"@ + rest, "sr"@, 0);
    if name.len() > 0 {
        lemma_first_differs(name, "ram"@, 0);
        lemma_first_differs(name, "zram"@, 0);
        lemma_first_differs(name, "dm-"@, 0);
        lemma_first_differs(name, "sr"@, 0);
        lemma_first_differs(name, "loop"@, 0);
    }
    lemma_first_differs("sd"@ + rest, "ram"@, 0);
    lemma_first_differs("sd"@ + rest, "zram"@, 0);
    lemma_first_differs("sd"@ + rest, "dm-"@, 0);
    lemma_first_differs("sd"@ + rest, "sr"@, 1);
    lemma_first_differs("sd"@ + rest, "loop"@, 0);
    let others = seq!["nvme"@ + rest, "mmcblk"@ + rest, "vd"@ + rest];
    assert forall|i: int| 0 <= i < 3 implies listed(#[trigger] others[i], include_loop) by {
        lemma_first_differs(others[i], "ram"@, 0);
        lemma_first_differs(others[i], "zram"@, 0);
        lemma_first_differs(others[i], "dm-"@, 0);
        lemma_first_differs(others[i], "sr"@, 0);
        lemma_first_differs(others[i], "loop"@, 0);
    }
    assert(listed(others[0], include_loop) && listed(others[1], include_loop) && listed(
        others[2],
        include_loop,
    ));
}

proof fn lemma_begins(p: Seq<char>, rest: Seq<char>)
    ensures
        text::starts_with(p + rest, p),
{
    assert((p + rest).subrange(0, p.len() as int) =~= p);
}

proof fn lemma_first_differs(s: Seq<char>, p: Seq<char>, i: int)
    requires
        0 <= i < p.len(),
    ensures
        i < s.len() && s[i] != p[i] ==> !text::starts_with(s, p),
{
    if text::starts_with(s, p) {
        assert(s.subrange(0, p.len() as int)[i] == s[i]);
    }
}

/// How partitions are named: a disk whose name ends in a digit has a `p` before their numbers, any
/// other has not. What is named otherwise is on another disk.
pub proof fn law_how_partitions_are_named(disk: Seq<char>, n: nat, c: char, rest: Seq<char>)
    requires
        disk.len() > 0,
    ensures
        ({
            let numbered = '0' <= disk.last() && disk.last() <= '9';
            &&& on_disk(disk, disk)
            &&& on_disk(disk + text::decimal(n), disk) == !numbered
            &&& on_disk(disk + seq!['p'] + text::decimal(n), disk) == numbered
            &&& !('0' <= c && c <= '9') && c != 'p' ==> !on_disk(disk + seq![c] + rest, disk)
            &&& !on_disk(disk.drop_last(), disk)
        }),
{
    let d = text::decimal(n);
    text::lemma_decimal(n);
    let s = disk + d;
    lemma_begins(disk, d);
    assert(s.skip(disk.len() as int) =~= d);
    assert(text::is_digit(d[0]));
    assert(s != disk) by {
        assert(s.len() != disk.len());
    }
    let q = disk + seq!['p'] + d;
    assert(q =~= disk + (seq!['p'] + d));
    lemma_begins(disk, seq!['p'] + d);
    assert(q.skip(disk.len() as int) =~= seq!['p'] + d);
    assert((seq!['p'] + d).drop_first() =~= d);
    assert((seq!['p'] + d)[0] == 'p');
    assert(q != disk) by {
        assert(q.len() != disk.len());
    }
    let x = disk + seq![c] + rest;
    assert(x.skip(disk.len() as int)[0] == c);
    assert(x != disk) by {
        assert(x.len() != disk.len());
    }
    assert(disk.drop_last() != disk) by {
        assert(disk.drop_last().len() != disk.len());
    }
}

proof fn lemma_mounts(ls: Seq<Seq<char>>, path: Seq<char>, p: Seq<char>)
    ensures
        mount_points(ls, path).contains(p) <==> exists|i: int|
            0 <= i < ls.len() && line_mount(#[trigger] ls[i], path) == Some(p),
    decreases ls.len(),
{
    let all = mount_points(ls, path);
    if ls.len() > 0 {
        let w = ls.drop_last();
        let before = mount_points(w, path);
        lemma_mounts(w, path, p);
        assert(ls[ls.len() - 1] == ls.last());
        if all.contains(p) {
            let k = choose|k: int| 0 <= k < all.len() && all[k] == p;
            if k < before.len() {
                assert(before[k] == p);
                let i = choose|i: int|
                    0 <= i < w.len() && line_mount(#[trigger] w[i], path) == Some(p);
                assert(line_mount(ls[i], path) == Some(p));
            } else {
                assert(line_mount(ls[ls.len() - 1], path) == Some(p));
            }
        }
        if exists|i: int| 0 <= i < ls.len() && line_mount(#[trigger] ls[i], path) == Some(p) {
            let i = choose|i: int| 0 <= i < ls.len() && line_mount(#[trigger] ls[i], path) == Some(p);
            if i < w.len() {
                assert(line_mount(w[i], path) == Some(p));
                let k = choose|k: int| 0 <= k < before.len() && before[k] == p;
                assert(all[k] == p);
            } else {
                assert(all[all.len() - 1] == p);
            }
        }
    }
}

/// A disk is mounted exactly where the mount table says that it, or a partition of it, is: the second
/// field of a line whose first field is on the disk.
pub proof fn law_where_a_disk_is_mounted(
    raw: RawDisk,
    root_nums: Seq<(u32, u32)>,
    system_disks: Seq<Seq<char>>,
    mounts: Seq<char>,
    p: Seq<char>,
)
    requires
        p.len() > 0,
    ensures
        raw.device(root_nums, system_disks, mounts).mounts.contains(p) <==> exists|i: int|
            #![trigger text::lines(mounts)[i]]
            0 <= i < text::lines(mounts).len() && text::words(text::lines(mounts)[i]).len() > 1
                && text::words(text::lines(mounts)[i])[1] == p && on_disk(
                text::words(text::lines(mounts)[i])[0],
                "/dev/"@ + raw.name@,
            ),
{
    let ls = text::lines(mounts);
    let path = "/dev/"@ + raw.name@;
    reveal_strlit("/dev/");
    lemma_mounts(ls, path, p);
    if exists|i: int| 0 <= i < ls.len() && line_mount(#[trigger] ls[i], path) == Some(p) {
        let i = choose|i: int| 0 <= i < ls.len() && line_mount(#[trigger] ls[i], path) == Some(p);
        let w = text::words(ls[i]);
        assert(w.len() > 1 && w[1] == p);
        assert(on_disk(text::words(text::lines(mounts)[i])[0], path));
    }
    assert forall|i: int|
        0 <= i < ls.len() && text::words(#[trigger] ls[i]).len() > 1 && text::words(ls[i])[1] == p
            && on_disk(text::words(ls[i])[0], path) implies line_mount(ls[i], path) == Some(p) by {}
}

/// Every disk that is found and can be listed is in the list, as what its files say.
pub proof fn law_no_disk_is_left_out(
    raws: Seq<RawDisk>,
    root_nums: Seq<(u32, u32)>,
    system_disks: Seq<Seq<char>>,
    mounts: Seq<char>,
    include_loop: bool,
    d: DeviceView,
)
    ensures
        listing(raws, root_nums, system_disks, mounts, include_loop).contains(d) <==> exists|i: int|
            0 <= i < raws.len() && listed((#[trigger] raws[i]).name@, include_loop) && d
                == raws[i].device(root_nums, system_disks, mounts),
    decreases raws.len(),
{
    let all = listing(raws, root_nums, system_disks, mounts, include_loop);
    if raws.len() > 0 {
        let w = raws.drop_last();
        let before = listing(w, root_nums, system_disks, mounts, include_loop);
        law_no_disk_is_left_out(w, root_nums, system_disks, mounts, include_loop, d);
        let x = raws.last().device(root_nums, system_disks, mounts);
        lemma_place(before, x.name, 0);
        let at = place_from(before, x.name, 0);
        assert(raws[raws.len() - 1] == raws.last());
        if listed(raws.last().name@, include_loop) {
            assert(all[at] == x);
            assert forall|k: int| 0 <= k < before.len() implies all[if k < at {
                k
            } else {
                k + 1
            }] == #[trigger] before[k] by {}
            if all.contains(d) && d != x {
                let k = choose|k: int| 0 <= k < all.len() && all[k] == d;
                assert(before[if k < at {
                    k
                } else {
                    k - 1
                }] == d);
            }
            if before.contains(d) {
                let k = choose|k: int| 0 <= k < before.len() && before[k] == d;
                assert(all[if k < at {
                    k
                } else {
                    k + 1
                }] == d);
            }
        }
        if exists|i: int|
            0 <= i < w.len() && listed((#[trigger] w[i]).name@, include_loop) && d == w[i].device(
                root_nums,
                system_disks,
                mounts,
            ) {
            let i = choose|i: int|
                0 <= i < w.len() && listed((#[trigger] w[i]).name@, include_loop) && d
                    == w[i].device(root_nums, system_disks, mounts);
            assert(raws[i] == w[i]);
        }
        if exists|i: int|
            0 <= i < raws.len() && listed((#[trigger] raws[i]).name@, include_loop) && d
                == raws[i].device(root_nums, system_disks, mounts) {
            let i = choose|i: int|
                0 <= i < raws.len() && listed((#[trigger] raws[i]).name@, include_loop) && d
                    == raws[i].device(root_nums, system_disks, mounts);
            if i < w.len() {
                assert(w[i] == raws[i]);
            }
        }
    }
}

/// A disk that is refused is told why: it carries the system before anything else, and an internal disk
/// is told of the flag only when it has a medium.
pub proof fn law_why_a_disk_is_refused(d: DeviceView, allow_internal: bool)
    ensures
        d.holds_root ==> d.refusal(allow_internal) == Some("carries the running system (/)"@),
        !d.holds_root && d.size == 0 ==> d.refusal(allow_internal) == Some("no medium"@),
        !d.holds_root && d.size > 0 && !d.removable ==> d.refusal(false) == Some(
            "internal disk (pass --allow-internal if you really mean it)"@,
        ),
        !d.holds_root && d.size > 0 ==> d.refusal(true) is None,
        d.refusal(true) is Some ==> d.refusal(false) is Some,
{
}

// ---- sizes for people -----------------------------------------------------------------------

/// `n / d` rounded to the nearest whole number, to the even one when it lies half way.
pub open spec fn nearest(n: nat, d: nat) -> nat
    recommends
        d > 0,
{
    let q = n / d;
    let r = n % d;
    if 2 * r < d || (2 * r == d && q % 2 == 0) {
        q
    } else {
        q + 1
    }
}

/// The step between numbers of the size of `n` that 53 binary digits can write.
pub open spec fn grain(n: nat) -> nat
    decreases n,
{
    if n < 0x20_0000_0000_0000 {
        1
    } else {
        2 * grain(n / 2)
    }
}

/// `n` rounded to 53 binary digits.
pub open spec fn rounded(n: nat) -> nat {
    nearest(n, grain(n)) * grain(n)
}

/// The size of unit `i` in bytes.
pub open spec fn unit_size(i: nat) -> nat
    decreases i,
{
    if i == 0 {
        1
    } else {
        1024 * unit_size((i - 1) as nat)
    }
}

/// The largest unit, from `i` on, that a size reaches.
pub open spec fn unit_from(n: nat, i: nat) -> nat
    decreases 5 - i,
{
    if i < 5 && n >= unit_size(i + 1) {
        unit_from(n, i + 1)
    } else {
        i
    }
}

pub open spec fn unit_name(i: nat) -> Seq<char> {
    if i == 0 {
        "B"@
    } else if i == 1 {
        "KB"@
    } else if i == 2 {
        "MB"@
    } else if i == 3 {
        "GB"@
    } else if i == 4 {
        "TB"@
    } else {
        "PB"@
    }
}

/// A size for people: whole bytes below 1024, else the largest unit with one digit after the point,
/// of the size in 53 binary digits.
pub open spec fn human_text(bytes: u64) -> Seq<char> {
    let n = rounded(bytes as nat);
    let i = unit_from(n, 0);
    if i == 0 {
        text::decimal(bytes as nat) + " "@ + unit_name(0)
    } else {
        let tenths = nearest(10 * n, unit_size(i));
        text::decimal(tenths / 10) + "."@ + seq![text::digit_char(tenths % 10)] + " "@ + unit_name(i)
    }
}

fn nearest_of(n: u128, d: u128) -> (r: u128)
    requires
        0 < d < 0x1_0000_0000_0000_0000,
        n < 0x100_0000_0000_0000_0000,
    ensures
        r == nearest(n as nat, d as nat),
        r <= n + 1,
{
    let q: u128 = n / d;
    let r: u128 = n % d;
    assert(q <= n) by (nonlinear_arith)
        requires
            d > 0,
            q == n / d,
    ;
    if 2 * r < d || (2 * r == d && q % 2 == 0) {
        q
    } else {
        q + 1
    }
}

proof fn lemma_grain(n: nat)
    requires
        n < 0x1_0000_0000_0000_0000,
    ensures
        1 <= grain(n) <= 2048,
{
    reveal_with_fuel(grain, 13);
}

proof fn lemma_rounded(n: nat)
    requires
        n < 0x1_0000_0000_0000_0000,
    ensures
        rounded(n) <= n + grain(n),
        nearest(n, grain(n)) <= n + 1,
{
    lemma_grain(n);
    let g = grain(n);
    let q = n / g;
    assert(q * g <= n) by (nonlinear_arith)
        requires
            g > 0,
            q == n / g,
    ;
    assert((q + 1) * g == q * g + g) by (nonlinear_arith);
    assert(q <= n) by (nonlinear_arith)
        requires
            g > 0,
            q == n / g,
    ;
}

fn grain_of(n: u64) -> (r: u64)
    ensures
        r == grain(n as nat),
        1 <= r <= 2048,
    decreases n,
{
    proof {
        lemma_grain(n as nat);
    }
    if n < 0x20_0000_0000_0000 {
        1
    } else {
        proof {
            lemma_grain((n / 2) as nat);
        }
        2 * grain_of(n / 2)
    }
}

proof fn lemma_unit_sizes()
    ensures
        unit_size(0) == 1,
        unit_size(1) == 0x400,
        unit_size(2) == 0x10_0000,
        unit_size(3) == 0x4000_0000,
        unit_size(4) == 0x100_0000_0000,
        unit_size(5) == 0x4_0000_0000_0000,
{
    reveal_with_fuel(unit_size, 6);
}

/// A size the way a person would write it.
pub fn human(bytes: u64) -> (r: String)
    ensures
        r@ == human_text(bytes),
{
    let g: u64 = grain_of(bytes);
    proof {
        lemma_rounded(bytes as nat);
    }
    let steps: u128 = nearest_of(bytes as u128, g as u128);
    assert(steps * g == rounded(bytes as nat));
    assert(steps * g <= 0x1_0000_0000_0000_0800);
    let n: u128 = steps * (g as u128);
    let ghost n0 = rounded(bytes as nat);
    let mut i: u8 = 0;
    let mut size: u128 = 1;
    proof {
        lemma_unit_sizes();
    }
    while i < 5 && n >= size * 1024
        invariant
            i <= 5,
            n == n0,
            1 <= size <= 0x4_0000_0000_0000,
            i < 5 ==> size <= 0x100_0000_0000,
            size == unit_size(i as nat),
            unit_from(n0, 0) == unit_from(n0, i as nat),
        decreases 5 - i,
    {
        proof {
            lemma_unit_sizes();
        }
        size = size * 1024;
        i += 1;
    }
    let name: &str = match i {
        0 => "B",
        1 => "KB",
        2 => "MB",
        3 => "GB",
        4 => "TB",
        _ => "PB",
    };
    let mut out: String;
    if i == 0 {
        out = text::number_text(bytes);
        out.append(" ");
        out.append(name);
    } else {
        let tenths: u128 = nearest_of(10 * n, size);
        proof {
            lemma_tenths(n0, size as nat);
        }
        let whole: u64 = (tenths / 10) as u64;
        out = text::number_text(whole);
        out.append(".");
        out.push((48 + (tenths % 10) as u8) as char);
        out.append(" ");
        out.append(name);
        assert(out@ =~= human_text(bytes));
    }
    out
}

proof fn lemma_tenths(n: nat, size: nat)
    requires
        n <= 0x1_0000_0000_0000_0800,
        size >= 1024,
    ensures
        nearest(10 * n, size) / 10 <= u64::MAX,
{
    let q = (10 * n) / size;
    assert(q * size <= 10 * n) by (nonlinear_arith)
        requires
            size > 0,
            q == (10 * n) / size,
    ;
    assert(q * 1024 <= q * size) by (nonlinear_arith)
        requires
            size >= 1024,
    ;
}

proof fn lemma_nearest(n: nat, d: nat)
    requires
        d > 0,
    ensures
        2 * (n - nearest(n, d) * d) <= d,
        2 * (nearest(n, d) * d - n) <= d,
        2 * (n - nearest(n, d) * d) == d || 2 * (nearest(n, d) * d - n) == d ==> nearest(n, d) % 2 == 0,
{
    let q = n / d;
    let r = n % d;
    assert(n == q * d + r && 0 <= r < d) by (nonlinear_arith)
        requires
            d > 0,
            q == n / d,
            r == n % d,
    ;
    assert((q + 1) * d == q * d + d) by (nonlinear_arith);
}

/// A size is written in the largest unit that it reaches, to the nearest tenth, and to the even tenth half
/// way between two; below 1024 it is written in whole bytes.
pub proof fn law_a_size_is_written_to_the_nearest_tenth(bytes: u64, unit: nat, name: Seq<char>)
    requires
        bytes < 0x20_0000_0000_0000,
        ({
            ||| unit == 1024 && name == "KB"@
            ||| unit == 1024 * 1024 && name == "MB"@
            ||| unit == 1024 * 1024 * 1024 && name == "GB"@
            ||| unit == 1024 * 1024 * 1024 * 1024 && name == "TB"@
            ||| unit == 1024 * 1024 * 1024 * 1024 * 1024 && name == "PB"@
        }),
    ensures
        bytes < 1024 ==> human_text(bytes) == text::decimal(bytes as nat) + " "@ + "B"@,
        unit <= bytes && (bytes < 1024 * unit || name == "PB"@) ==> exists|t: nat|
            human_text(bytes) == #[trigger] text::decimal(t / 10) + "."@ + text::decimal(t % 10) + " "@
                + name && 2 * (10 * bytes - t * unit) <= unit && 2 * (t * unit - 10 * bytes) <= unit && (2
                * (10 * bytes - t * unit) == unit || 2 * (t * unit - 10 * bytes) == unit ==> t % 2 == 0),
{
    lemma_unit_sizes();
    reveal_strlit("KB");
    reveal_strlit("MB");
    reveal_strlit("GB");
    reveal_strlit("TB");
    reveal_strlit("PB");
    assert("KB"@[0] == 'K' && "MB"@[0] == 'M' && "GB"@[0] == 'G' && "TB"@[0] == 'T' && "PB"@[0] == 'P');
    let n = bytes as nat;
    assert(grain(n) == 1);
    assert(nearest(n, 1) == n);
    assert(rounded(n) == n);
    reveal_with_fuel(unit_from, 6);
    if unit <= bytes && (bytes < 1024 * unit || name == "PB"@) {
        let i: nat = if name == "KB"@ {
            1
        } else if name == "MB"@ {
            2
        } else if name == "GB"@ {
            3
        } else if name == "TB"@ {
            4
        } else {
            5
        };
        assert(unit_size(i) == unit);
        assert(unit_from(n, 0) == i);
        assert(unit_name(i) == name);
        let t = nearest(10 * n, unit);
        lemma_nearest(10 * n, unit);
        assert(text::decimal(t % 10) =~= seq![text::digit_char(t % 10)]);
        assert(human_text(bytes) == text::decimal(t / 10) + "."@ + text::decimal(t % 10) + " "@ + name);
    }
}

/// A disk may be typed with its path or without, which makes no difference, and a disk of that name is
/// taken before one that a partition leads to. Without either nothing is taken.
pub proof fn law_a_disk_is_typed_with_or_without_its_path(
    typed: Seq<char>,
    v: Seq<DeviceView>,
    part: Option<Seq<char>>,
    k: int,
)
    requires
        !text::starts_with(typed, "/dev/"@),
        0 <= k < v.len(),
    ensures
        meant("/dev/"@ + typed, v, part) == meant(typed, v, part),
        v[k].name == typed && (forall|j: int| 0 <= j < k ==> (#[trigger] v[j]).name != typed) ==> meant(
            typed,
            v,
            part,
        ) == Some(k),
        (forall|j: int| 0 <= j < v.len() ==> (#[trigger] v[j]).name != typed) && part is None ==> meant(
            typed,
            v,
            part,
        ) is None,
        (forall|j: int| 0 <= j < v.len() ==> (#[trigger] v[j]).name != typed) && part is Some && on_disk(
            part->0,
            v[k].name,
        ) && (forall|j: int| 0 <= j < k ==> !on_disk(part->0, (#[trigger] v[j]).name)) ==> meant(
            typed,
            v,
            part,
        ) == Some(k),
{
    reveal_strlit("/dev/");
    let full = "/dev/"@ + typed;
    lemma_begins("/dev/"@, typed);
    assert(full.skip(5) =~= typed);
    assert(text::trim_start_matches(typed, "/dev/"@) == typed);
    assert(text::trim_start_matches(full, "/dev/"@) == typed);
    lemma_named(v, typed, 0);
    if v[k].name == typed && (forall|j: int| 0 <= j < k ==> (#[trigger] v[j]).name != typed) {
        lemma_first_named(v, typed, 0, k);
    }
    if let Some(p) = part {
        if on_disk(p, v[k].name) && (forall|j: int| 0 <= j < k ==> !on_disk(p, (#[trigger] v[j]).name)) {
            lemma_first_holding(v, p, 0, k);
        }
    }
}

proof fn lemma_first_named(v: Seq<DeviceView>, name: Seq<char>, i: int, k: int)
    requires
        0 <= i <= k < v.len(),
        v[k].name == name,
        forall|j: int| i <= j < k ==> (#[trigger] v[j]).name != name,
    ensures
        named_from(v, name, i) == Some(k),
    decreases k - i,
{
    if i < k {
        lemma_first_named(v, name, i + 1, k);
    }
}

proof fn lemma_first_holding(v: Seq<DeviceView>, part: Seq<char>, i: int, k: int)
    requires
        0 <= i <= k < v.len(),
        on_disk(part, v[k].name),
        forall|j: int| i <= j < k ==> !on_disk(part, (#[trigger] v[j]).name),
    ensures
        holding_from(v, part, i) == Some(k),
    decreases k - i,
{
    if i < k {
        lemma_first_holding(v, part, i + 1, k);
    }
}

} // verus!
