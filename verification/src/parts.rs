//! What is in the first sectors of an image or a disk, and what firmware will make of it.
//!
//! A modern installer image is usually a hybrid: a real MBR at sector 0 so an old BIOS will boot
//! it, a GPT at sector 1 so UEFI firmware will, and an El Torito catalog inside the ISO9660
//! filesystem.

use vstd::prelude::*;
use vstd::string::*;

use crate::text;

verus! {

/// The size of a sector in bytes.
pub const SECTOR: usize = 512;

/// One used entry of the partition table at sector 0.
#[derive(Debug, Clone, Copy, PartialEq, Eq, Structural)]
pub struct Entry {
    pub bootable: bool,
    pub kind: u8,
    pub start_lba: u32,
    pub sectors: u32,
}

/// What the first sectors hold.
#[derive(Debug, PartialEq)]
pub struct Scheme {
    pub mbr: bool,
    pub gpt: bool,
    pub el_torito: bool,
    pub efi_partition: bool,
    pub protective_only: bool,
    pub entries: Vec<Entry>,
}

impl Default for Scheme {
    /// Nothing at all.
    fn default() -> (r: Self)
        ensures
            !r.mbr && !r.gpt && !r.el_torito && !r.efi_partition && !r.protective_only,
            r.entries@ == Seq::<Entry>::empty(),
    {
        Scheme {
            mbr: false,
            gpt: false,
            el_torito: false,
            efi_partition: false,
            protective_only: false,
            entries: Vec::new(),
        }
    }
}

// ---- reading --------------------------------------------------------------------------------

/// The number that four bytes write, the least byte first.
pub open spec fn le32(b: Seq<u8>, i: int) -> u32 {
    (b[i] + 0x100 * b[i + 1] + 0x10000 * b[i + 2] + 0x1000000 * b[i + 3]) as u32
}

/// The entry that sixteen bytes hold; one of kind zero without sectors is an empty slot.
pub open spec fn entry_of(b: Seq<u8>) -> Option<Entry> {
    if b.len() < 16 || (b[4] == 0 && le32(b, 12) == 0) {
        None
    } else {
        Some(
            Entry {
                bootable: b[0] == 0x80,
                kind: b[4],
                start_lba: le32(b, 8),
                sectors: le32(b, 12),
            },
        )
    }
}

/// The sixteen bytes of slot `i` of the partition table.
pub open spec fn slot(head: Seq<u8>, i: int) -> Seq<u8> {
    head.subrange(446 + 16 * i, 462 + 16 * i)
}

/// The entries in the first `n` slots of the partition table.
pub open spec fn entries_upto(head: Seq<u8>, n: nat) -> Seq<Entry>
    decreases n,
{
    if n == 0 {
        seq![]
    } else {
        match entry_of(slot(head, n - 1)) {
            Some(e) => entries_upto(head, (n - 1) as nat).push(e),
            None => entries_upto(head, (n - 1) as nat),
        }
    }
}

/// Sector 0 ends in the two bytes that mark a boot record.
pub open spec fn has_mbr(head: Seq<u8>) -> bool {
    head.len() >= SECTOR && head[510] == 0x55 && head[511] == 0xaa
}

pub open spec fn table(head: Seq<u8>) -> Seq<Entry> {
    if has_mbr(head) {
        entries_upto(head, 4)
    } else {
        seq![]
    }
}

/// `EFI PART`
pub open spec fn gpt_magic() -> Seq<u8> {
    seq![0x45, 0x46, 0x49, 0x20, 0x50, 0x41, 0x52, 0x54]
}

/// Sector 1 begins with the signature of a GPT header.
pub open spec fn has_gpt(head: Seq<u8>) -> bool {
    head.len() >= 2 * SECTOR && head.subrange(512, 520) == gpt_magic()
}

/// `EL TORITO SPECIFICATION`
pub open spec fn el_torito_magic() -> Seq<u8> {
    seq![
        0x45, 0x4c, 0x20, 0x54, 0x4f, 0x52, 0x49, 0x54, 0x4f, 0x20, 0x53, 0x50, 0x45, 0x43, 0x49, 0x46, 0x49, 0x43, 0x41, 0x54, 0x49, 0x4f, 0x4e,
    ]
}

/// The volume descriptor after the first one of an ISO9660 filesystem is a boot record.
pub open spec fn has_el_torito(head: Seq<u8>) -> bool {
    head.len() >= 34846 && head.subrange(34823, 34846) == el_torito_magic()
}

pub open spec fn has_kind(entries: Seq<Entry>, kind: u8) -> bool {
    exists|i: int| 0 <= i < entries.len() && #[trigger] entries[i].kind == kind
}

pub open spec fn only_kind(entries: Seq<Entry>, kind: u8) -> bool {
    entries.len() > 0 && forall|i: int| 0 <= i < entries.len() ==> #[trigger] entries[i].kind == kind
}

impl Scheme {
    /// This is what `head` holds, `head` being the first bytes of the image.
    pub open spec fn describes(self, head: Seq<u8>) -> bool {
        &&& self.mbr == has_mbr(head)
        &&& self.entries@ == table(head)
        &&& self.efi_partition == has_kind(table(head), 0xef)
        &&& self.protective_only == only_kind(table(head), 0xee)
        &&& self.gpt == has_gpt(head)
        &&& self.el_torito == has_el_torito(head)
    }
}

fn read_le32(b: &[u8], i: usize) -> (r: u32)
    requires
        i + 4 <= b@.len(),
    ensures
        r == le32(b@, i as int),
{
    b[i] as u32 + 0x100 * (b[i + 1] as u32) + 0x10000 * (b[i + 2] as u32) + 0x1000000 * (b[i
        + 3] as u32)
}

impl Entry {
    pub fn parse(b: &[u8]) -> (r: Option<Entry>)
        ensures
            r == entry_of(b@),
    {
        if b.len() < 16 {
            return None;
        }
        let e: Entry = Entry {
            bootable: b[0] == 0x80,
            kind: b[4],
            start_lba: read_le32(b, 8),
            sectors: read_le32(b, 12),
        };
        if e.kind == 0 && e.sectors == 0 {
            None
        } else {
            Some(e)
        }
    }
}

/// Whether the bytes from `from` on are those of `magic`.
fn bytes_at(head: &[u8], from: usize, magic: &[u8]) -> (r: bool)
    requires
        from + magic@.len() <= head@.len(),
    ensures
        r == (head@.subrange(from as int, from + magic@.len()) == magic@),
{
    let mut i: usize = 0;
    while i < magic.len()
        invariant
            from + magic@.len() <= head@.len(),
            i <= magic@.len(),
            head@.subrange(from as int, from + i) =~= magic@.take(i as int),
        decreases magic@.len() - i,
    {
        assert(head.len() == head@.len());
        if head[from + i] != magic[i] {
            assert(head@.subrange(from as int, from + magic@.len())[i as int] != magic@[i as int]);
            return false;
        }
        i += 1;
    }
    assert(magic@.take(i as int) =~= magic@);
    true
}

/// Read the first two sectors plus the ISO9660 boot record area.
///
/// `head` must start at byte 0 of the image. Anything missing is simply reported as absent: this
/// never guesses, because the answer decides whether somebody's machine boots.
pub fn read(head: &[u8]) -> (s: Scheme)
    ensures
        s.describes(head@),
{
    let mut entries: Vec<Entry> = Vec::new();
    let mut mbr: bool = false;
    let mut efi: bool = false;
    let mut other: bool = false;
    if head.len() >= SECTOR && head[510] == 0x55 && head[511] == 0xaa {
        mbr = true;
        let mut i: usize = 0;
        while i < 4
            invariant
                head@.len() >= 512,
                i <= 4,
                entries@ == entries_upto(head@, i as nat),
                efi == has_kind(entries@, 0xef),
                other == exists|j: int|
                    0 <= j < entries@.len() && #[trigger] entries@[j].kind != 0xee,
            decreases 4 - i,
        {
            let off: usize = 446 + i * 16;
            let bytes: &[u8] = vstd::slice::slice_subrange(head, off, off + 16);
            assert(bytes@ == slot(head@, i as int));
            if let Some(e) = Entry::parse(bytes) {
                let ghost before = entries@;
                if e.kind == 0xef {
                    efi = true;
                }
                if e.kind != 0xee {
                    other = true;
                }
                entries.push(e);
                assert(entries@[before.len() as int] == e);
                assert(forall|j: int| 0 <= j < before.len() ==> entries@[j] == before[j]);
            }
            i += 1;
        }
    }
    let protective_only: bool = entries.len() > 0 && !other;
    let mut gpt: bool = false;
    if head.len() >= SECTOR * 2 {
        let magic: [u8; 8] = [0x45, 0x46, 0x49, 0x20, 0x50, 0x41, 0x52, 0x54];
        assert(magic@ =~= gpt_magic());
        gpt = bytes_at(head, 512, &magic);
    }
    let mut el_torito: bool = false;
    if head.len() >= 34846 {
        let magic: [u8; 23] = [
            0x45, 0x4c, 0x20, 0x54, 0x4f, 0x52, 0x49, 0x54, 0x4f, 0x20, 0x53, 0x50, 0x45, 0x43, 0x49, 0x46, 0x49, 0x43, 0x41, 0x54, 0x49, 0x4f, 0x4e,
        ];
        assert(magic@ =~= el_torito_magic());
        el_torito = bytes_at(head, 34823, &magic);
    }
    Scheme { mbr, gpt, el_torito, efi_partition: efi, protective_only, entries }
}

// ---- in words -------------------------------------------------------------------------------

impl Entry {
    pub open spec fn kind_text(self) -> Seq<char> {
        if self.kind == 0x00 {
            "unused or raw"@
        } else if self.kind == 0x0b || self.kind == 0x0c {
            "FAT32"@
        } else if self.kind == 0x07 {
            "NTFS or exFAT"@
        } else if self.kind == 0x83 {
            "Linux"@
        } else if self.kind == 0x8e {
            "Linux LVM"@
        } else if self.kind == 0xee {
            "GPT protective"@
        } else if self.kind == 0xef {
            "EFI system"@
        } else if self.kind == 0x17 {
            "hidden NTFS"@
        } else {
            "other"@
        }
    }

    pub fn kind_name(&self) -> (r: &'static str)
        ensures
            r@ == self.kind_text(),
    {
        match self.kind {
            0x00 => "unused or raw",
            0x0b | 0x0c => "FAT32",
            0x07 => "NTFS or exFAT",
            0x83 => "Linux",
            0x8e => "Linux LVM",
            0xee => "GPT protective",
            0xef => "EFI system",
            0x17 => "hidden NTFS",
            _ => "other",
        }
    }
}

pub open spec fn boots_words(bios: bool, uefi: bool) -> Seq<char> {
    if bios && uefi {
        "hybrid: boots on UEFI and on old BIOS machines"@
    } else if uefi {
        "UEFI only"@
    } else if bios {
        "BIOS only (no EFI partition and no GPT)"@
    } else {
        "no partition table found; the firmware may still boot it if it is a raw disk image"@
    }
}

/// The structures that are there, each by its name.
pub open spec fn structures(mbr: bool, protective_only: bool, gpt: bool, el_torito: bool) -> Seq<
    Seq<char>,
> {
    let a: Seq<Seq<char>> = if mbr {
        seq![
            if protective_only {
                "protective MBR"@
            } else {
                "MBR"@
            },
        ]
    } else {
        seq![]
    };
    let b = if gpt {
        a.push("GPT"@)
    } else {
        a
    };
    if el_torito {
        b.push("El Torito"@)
    } else {
        b
    }
}

pub open spec fn summary_words(
    mbr: bool,
    protective_only: bool,
    gpt: bool,
    el_torito: bool,
) -> Seq<char> {
    let names = structures(mbr, protective_only, gpt, el_torito);
    if names.len() == 0 {
        "no partition table"@
    } else {
        text::join(names, " + "@)
    }
}

/// The summary of an image that begins with `head`.
pub open spec fn head_summary(head: Seq<u8>) -> Seq<char> {
    summary_words(
        has_mbr(head),
        only_kind(table(head), 0xee),
        has_gpt(head),
        has_el_torito(head),
    )
}

/// What firmware will do with an image that begins with `head`.
pub open spec fn head_boots(head: Seq<u8>) -> Seq<char> {
    boots_words(
        has_mbr(head) && !only_kind(table(head), 0xee),
        has_gpt(head) || has_kind(table(head), 0xef),
    )
}

impl Scheme {
    /// An old BIOS finds something to boot.
    pub open spec fn bios(self) -> bool {
        self.mbr && !self.protective_only
    }

    /// UEFI firmware finds something to boot.
    pub open spec fn uefi(self) -> bool {
        self.gpt || self.efi_partition
    }

    pub open spec fn boots_text(self) -> Seq<char> {
        boots_words(self.bios(), self.uefi())
    }

    pub open spec fn summary_text(self) -> Seq<char> {
        summary_words(self.mbr, self.protective_only, self.gpt, self.el_torito)
    }

    /// What firmware will do with it, in a sentence someone can act on.
    pub fn boots(&self) -> (r: String)
        ensures
            r@ == self.boots_text(),
    {
        let bios: bool = self.mbr && !self.protective_only;
        let uefi: bool = self.gpt || self.efi_partition;
        if bios && uefi {
            "hybrid: boots on UEFI and on old BIOS machines".to_owned()
        } else if uefi {
            "UEFI only".to_owned()
        } else if bios {
            "BIOS only (no EFI partition and no GPT)".to_owned()
        } else {
            "no partition table found; the firmware may still boot it if it is a raw disk image".to_owned()
        }
    }

    pub fn summary(&self) -> (r: String)
        ensures
            r@ == self.summary_text(),
    {
        let mut bits: Vec<Vec<char>> = Vec::new();
        if self.mbr {
            bits.push(
                text::chars_of(
                    if self.protective_only {
                        "protective MBR"
                    } else {
                        "MBR"
                    },
                ),
            );
        }
        if self.gpt {
            bits.push(text::chars_of("GPT"));
        }
        if self.el_torito {
            bits.push(text::chars_of("El Torito"));
        }
        assert(text::texts(bits@) =~= structures(
            self.mbr,
            self.protective_only,
            self.gpt,
            self.el_torito,
        ));
        if bits.len() == 0 {
            "no partition table".to_owned()
        } else {
            text::string_of(&text::joined(&bits, " + "))
        }
    }
}

// ---- the protective MBR ---------------------------------------------------------------------

/// The sectors that a protective entry covers: all but the first, as far as its field can say.
pub open spec fn protective_span(total_sectors: u64) -> u32 {
    if total_sectors == 0 {
        0
    } else if total_sectors - 1 <= u32::MAX {
        (total_sectors - 1) as u32
    } else {
        u32::MAX
    }
}

/// Byte `k` of a number, the least byte first.
pub open spec fn le_byte(n: u32, k: int) -> u8 {
    if k == 0 {
        (n % 0x100) as u8
    } else if k == 1 {
        (n / 0x100 % 0x100) as u8
    } else if k == 2 {
        (n / 0x10000 % 0x100) as u8
    } else {
        (n / 0x1000000) as u8
    }
}

/// Sector 0 of a disk with a GPT: a single entry, not bootable, of kind 0xee, from sector 1 on.
pub open spec fn protective(total_sectors: u64) -> Seq<u8> {
    let span = protective_span(total_sectors);
    Seq::new(
        SECTOR as nat,
        |i: int|
            if i == 448 {
                0x02
            } else if i == 450 {
                0xee
            } else if 451 <= i <= 453 {
                0xff
            } else if i == 454 {
                0x01
            } else if 458 <= i <= 461 {
                le_byte(span, i - 458)
            } else if i == 510 {
                0x55
            } else if i == 511 {
                0xaa
            } else {
                0x00u8
            },
    )
}

/// A protective MBR: one entry of type 0xEE covering the disk, which is what a GPT disk is
/// supposed to have at sector 0 so older tools do not think it is empty.
pub fn protective_mbr(total_sectors: u64) -> (r: [u8; SECTOR])
    ensures
        r@ == protective(total_sectors),
{
    let span: u32 = if total_sectors == 0 {
        0
    } else if total_sectors - 1 <= u32::MAX as u64 {
        (total_sectors - 1) as u32
    } else {
        u32::MAX
    };
    let mut mbr: [u8; SECTOR] = [0u8; SECTOR];
    mbr[448] = 0x02;
    mbr[450] = 0xee;
    mbr[451] = 0xff;
    mbr[452] = 0xff;
    mbr[453] = 0xff;
    mbr[454] = 0x01;
    mbr[458] = (span % 0x100) as u8;
    mbr[459] = (span / 0x100 % 0x100) as u8;
    mbr[460] = (span / 0x10000 % 0x100) as u8;
    mbr[461] = (span / 0x1000000) as u8;
    mbr[510] = 0x55;
    mbr[511] = 0xaa;
    assert(mbr@ =~= protective(total_sectors));
    mbr
}

/// A disk whose first sector is a protective MBR is read as having exactly that: one entry, never
/// bootable, from sector 1 over the rest of the disk, and nothing for an old BIOS.
pub proof fn law_protective_reads_back(total_sectors: u64, head: Seq<u8>, s: Scheme)
    requires
        head.len() >= SECTOR,
        head.take(SECTOR as int) == protective(total_sectors),
        s.describes(head),
    ensures
        s.mbr,
        s.protective_only,
        !s.efi_partition,
        !s.bios(),
        s.entries@ == seq![
            Entry {
                bootable: false,
                kind: 0xee,
                start_lba: 1,
                sectors: protective_span(total_sectors),
            },
        ],
{
    let p = protective(total_sectors);
    let span = protective_span(total_sectors);
    assert(forall|i: int| 0 <= i < SECTOR ==> head[i] == head.take(SECTOR as int)[i]);
    assert(forall|i: int| 0 <= i < SECTOR ==> head[i] == p[i]);
    assert(span == le_byte(span, 0) + 0x100 * le_byte(span, 1) + 0x10000 * le_byte(span, 2)
        + 0x1000000 * le_byte(span, 3));
    reveal_with_fuel(entries_upto, 5);
    assert(forall|k: int, i: int|
        #![trigger slot(head, k)[i]]
        0 <= k < 4 && 0 <= i < 16 ==> slot(head, k)[i] == p[446 + 16 * k + i]);
    let e = Entry { bootable: false, kind: 0xee, start_lba: 1, sectors: span };
    assert(entry_of(slot(head, 0)) == Some(e));
    assert(entry_of(slot(head, 1)) is None);
    assert(entry_of(slot(head, 2)) is None);
    assert(entry_of(slot(head, 3)) is None);
    assert(table(head) =~= seq![e]);
    assert(table(head)[0].kind == 0xee);
}

/// A protective entry covers all of the disk but its first sector, and as much as its field can say of
/// a disk that is larger than that.
pub proof fn law_protective_covers_the_disk(total_sectors: u64, head: Seq<u8>, s: Scheme)
    requires
        head.len() >= SECTOR,
        head.take(SECTOR as int) == protective(total_sectors),
        s.describes(head),
        total_sectors > 0,
    ensures
        s.entries@.len() == 1,
        total_sectors <= 0x1_0000_0000 ==> s.entries@[0].start_lba + s.entries@[0].sectors
            == total_sectors,
        total_sectors > 0x1_0000_0000 ==> s.entries@[0].sectors == 0xffff_ffff,
{
    law_protective_reads_back(total_sectors, head, s);
}

/// The byte of slot `i` of the partition table that says what kind of partition it is.
pub open spec fn slot_kind(head: Seq<u8>, i: int) -> u8 {
    head[450 + 16 * i]
}

/// Slot `i` of the partition table is empty: no kind and no sectors.
pub open spec fn slot_empty(head: Seq<u8>, i: int) -> bool {
    &&& head[450 + 16 * i] == 0
    &&& head[458 + 16 * i] == 0
    &&& head[459 + 16 * i] == 0
    &&& head[460 + 16 * i] == 0
    &&& head[461 + 16 * i] == 0
}

/// The number in four bytes from `at` on, the least byte first.
pub open spec fn four_bytes(head: Seq<u8>, at: int) -> int {
    head[at] + 0x100 * head[at + 1] + 0x10000 * head[at + 2] + 0x1000000 * head[at + 3]
}

/// Entry `e` is what slot `i` of the partition table says.
pub open spec fn slot_says(head: Seq<u8>, i: int, e: Entry) -> bool {
    &&& !slot_empty(head, i)
    &&& e.kind == slot_kind(head, i)
    &&& e.bootable == (head[446 + 16 * i] == 0x80)
    &&& e.start_lba == four_bytes(head, 454 + 16 * i)
    &&& e.sectors == four_bytes(head, 458 + 16 * i)
}

/// Entry `e` is what one of the first `n` slots of the partition table says.
pub open spec fn from_a_slot(head: Seq<u8>, n: int, e: Entry) -> bool {
    exists|i: int| 0 <= i < n && #[trigger] slot_says(head, i, e)
}

/// What slot `i` of the partition table says is among the entries.
pub open spec fn is_listed(head: Seq<u8>, i: int, entries: Seq<Entry>) -> bool {
    exists|j: int| 0 <= j < entries.len() && slot_says(head, i, #[trigger] entries[j])
}

proof fn lemma_slot(head: Seq<u8>, i: int)
    requires
        head.len() >= 512,
        0 <= i < 4,
    ensures
        entry_of(slot(head, i)) is None <==> slot_empty(head, i),
        entry_of(slot(head, i)) is Some ==> slot_says(head, i, entry_of(slot(head, i))->0),
{
    let b = slot(head, i);
    assert(b.len() == 16);
    assert forall|k: int| 0 <= k < 16 implies #[trigger] b[k] == head[446 + 16 * i + k] by {}
    assert(b[0] == head[446 + 16 * i] && b[4] == head[450 + 16 * i]);
    assert(le32(b, 8) == four_bytes(head, 454 + 16 * i));
    assert(le32(b, 12) == four_bytes(head, 458 + 16 * i));
}

proof fn lemma_slots(head: Seq<u8>, n: nat)
    requires
        head.len() >= 512,
        n <= 4,
    ensures
        forall|i: int|
            0 <= i < n && !slot_empty(head, i) ==> #[trigger] is_listed(
                head,
                i,
                entries_upto(head, n),
            ),
        forall|j: int|
            0 <= j < entries_upto(head, n).len() ==> from_a_slot(
                head,
                n as int,
                #[trigger] entries_upto(head, n)[j],
            ),
    decreases n,
{
    if n > 0 {
        let m = (n - 1) as nat;
        lemma_slots(head, m);
        lemma_slot(head, m as int);
        let before = entries_upto(head, m);
        let all = entries_upto(head, n);
        assert forall|i: int| 0 <= i < n && !slot_empty(head, i) implies #[trigger] is_listed(
            head,
            i,
            all,
        ) by {
            if i < m {
                assert(is_listed(head, i, before));
                let j = choose|j: int|
                    0 <= j < before.len() && slot_says(head, i, #[trigger] before[j]);
                assert(all[j] == before[j]);
            } else {
                assert(slot_says(head, i, all[all.len() - 1]));
            }
        }
        assert forall|j: int| 0 <= j < all.len() implies from_a_slot(
            head,
            n as int,
            #[trigger] all[j],
        ) by {
            if j < before.len() {
                assert(all[j] == before[j]);
                assert(from_a_slot(head, m as int, before[j]));
                let i = choose|i: int| 0 <= i < m && #[trigger] slot_says(head, i, before[j]);
                assert(slot_says(head, i, all[j]));
            } else {
                assert(slot_says(head, m as int, all[j]));
            }
        }
    }
}

/// The table lists exactly the used slots of sector 0: each used slot is there, with its kind, its flag
/// and where it lies, and nothing else is. Without the two bytes that mark a boot record there are none.
pub proof fn law_the_table_lists_the_used_slots(head: Seq<u8>, s: Scheme)
    requires
        s.describes(head),
    ensures
        s.mbr <==> head.len() >= 512 && head[510] == 0x55 && head[511] == 0xaa,
        !s.mbr ==> s.entries@.len() == 0,
        s.entries@.len() <= 4,
        s.mbr ==> forall|i: int|
            0 <= i < 4 && !slot_empty(head, i) ==> #[trigger] is_listed(head, i, s.entries@),
        forall|j: int|
            0 <= j < s.entries@.len() ==> from_a_slot(head, 4, #[trigger] s.entries@[j]),
{
    if s.mbr {
        lemma_slots(head, 4);
        reveal_with_fuel(entries_upto, 5);
    }
}

/// Some slot of the partition table is that of an EFI system partition.
pub open spec fn efi_slot(head: Seq<u8>) -> bool {
    head[450] == 0xef || head[466] == 0xef || head[482] == 0xef || head[498] == 0xef
}

/// The partition table has used slots, and all of them are protective.
pub open spec fn protective_slots(head: Seq<u8>) -> bool {
    &&& head[450] == 0xee || head[466] == 0xee || head[482] == 0xee || head[498] == 0xee
    &&& forall|i: int| 0 <= i < 4 && slot_kind(head, i) != 0xee ==> #[trigger] slot_empty(head, i)
}

/// Sector 1 is there and begins with `EFI PART`.
pub open spec fn efi_part(head: Seq<u8>) -> bool {
    &&& head.len() >= 1024
    &&& head[512] == 0x45 && head[513] == 0x46 && head[514] == 0x49 && head[515] == 0x20
    &&& head[516] == 0x50 && head[517] == 0x41 && head[518] == 0x52 && head[519] == 0x54
}

/// What the two kinds that matter for booting say of the bytes.
pub proof fn lemma_kinds(head: Seq<u8>)
    ensures
        has_mbr(head) ==> (has_kind(table(head), 0xef) <==> efi_slot(head)),
        has_mbr(head) ==> (only_kind(table(head), 0xee) <==> protective_slots(head)),
        !has_mbr(head) ==> !has_kind(table(head), 0xef) && !only_kind(table(head), 0xee),
        has_gpt(head) <==> efi_part(head),
{
    if head.len() >= 1024 {
        let x = head.subrange(512, 520);
        if efi_part(head) {
            assert(x =~= gpt_magic());
        }
        if x == gpt_magic() {
            assert(x[0] == head[512] && x[1] == head[513] && x[2] == head[514] && x[3] == head[515]);
            assert(x[4] == head[516] && x[5] == head[517] && x[6] == head[518] && x[7] == head[519]);
        }
    }
    if has_mbr(head) {
        let t = table(head);
        lemma_slots(head, 4);
        assert(slot_kind(head, 0) == head[450] && slot_kind(head, 1) == head[466] && slot_kind(
            head,
            2,
        ) == head[482] && slot_kind(head, 3) == head[498]);
        assert forall|i: int, k: u8| 0 <= i < 4 && #[trigger] slot_kind(head, i) == k && k
            != 0 implies #[trigger] has_kind(t, k) by {
            assert(!slot_empty(head, i));
            assert(is_listed(head, i, t));
            let j = choose|j: int| 0 <= j < t.len() && slot_says(head, i, #[trigger] t[j]);
            assert(t[j].kind == k);
        }
        if efi_slot(head) {
            assert(has_kind(t, slot_kind(head, 0)) || has_kind(t, slot_kind(head, 1)) || has_kind(
                t,
                slot_kind(head, 2),
            ) || has_kind(t, slot_kind(head, 3)));
            assert(has_kind(t, 0xef));
        }
        if has_kind(t, 0xef) {
            let j = choose|j: int| 0 <= j < t.len() && #[trigger] t[j].kind == 0xef;
            assert(from_a_slot(head, 4, t[j]));
            let i = choose|i: int| 0 <= i < 4 && #[trigger] slot_says(head, i, t[j]);
            assert(slot_kind(head, i) == 0xef);
            assert(i == 0 || i == 1 || i == 2 || i == 3);
        }
        if only_kind(t, 0xee) {
            assert(t[0].kind == 0xee);
            assert(from_a_slot(head, 4, t[0]));
            let i = choose|i: int| 0 <= i < 4 && #[trigger] slot_says(head, i, t[0]);
            assert(slot_kind(head, i) == 0xee);
            assert(i == 0 || i == 1 || i == 2 || i == 3);
            assert forall|i: int| 0 <= i < 4 && slot_kind(head, i) != 0xee implies #[trigger] slot_empty(
                head,
                i,
            ) by {
                if !slot_empty(head, i) {
                    assert(is_listed(head, i, t));
                    let j = choose|j: int| 0 <= j < t.len() && slot_says(head, i, #[trigger] t[j]);
                    assert(t[j].kind == 0xee);
                }
            }
        }
        if protective_slots(head) {
            assert(has_kind(t, slot_kind(head, 0)) || has_kind(t, slot_kind(head, 1)) || has_kind(
                t,
                slot_kind(head, 2),
            ) || has_kind(t, slot_kind(head, 3)));
            assert(t.len() > 0);
            assert forall|j: int| 0 <= j < t.len() implies #[trigger] t[j].kind == 0xee by {
                assert(from_a_slot(head, 4, t[j]));
                let i = choose|i: int| 0 <= i < 4 && #[trigger] slot_says(head, i, t[j]);
                assert(!slot_empty(head, i));
            }
        }
    }
}

/// What is said of booting goes by the bytes alone. UEFI is said exactly when sector 1 begins with
/// `EFI PART` or a boot record has a slot for an EFI system partition; an old BIOS exactly when there is
/// a boot record that is not only protective; and nothing is promised when neither is there.
pub proof fn law_what_firmware_boots(head: Seq<u8>, s: Scheme)
    requires
        s.describes(head),
    ensures
        s.boots_text() == head_boots(head),
        ({
            let mark = head.len() >= 512 && head[510] == 0x55 && head[511] == 0xaa;
            let uefi = efi_part(head) || (mark && efi_slot(head));
            let bios = mark && !protective_slots(head);
            let said = head_boots(head);
            &&& said == "hybrid: boots on UEFI and on old BIOS machines"@ <==> uefi && bios
            &&& said == "UEFI only"@ <==> uefi && !bios
            &&& said == "BIOS only (no EFI partition and no GPT)"@ <==> bios && !uefi
            &&& said
                == "no partition table found; the firmware may still boot it if it is a raw disk image"@
                <==> !bios && !uefi
        }),
{
    lemma_kinds(head);
    reveal_strlit("hybrid: boots on UEFI and on old BIOS machines");
    reveal_strlit("UEFI only");
    reveal_strlit("BIOS only (no EFI partition and no GPT)");
    reveal_strlit("no partition table found; the firmware may still boot it if it is a raw disk image");
    assert("UEFI only"@.len() < "BIOS only (no EFI partition and no GPT)"@.len());
    assert("BIOS only (no EFI partition and no GPT)"@.len()
        < "hybrid: boots on UEFI and on old BIOS machines"@.len());
    assert("hybrid: boots on UEFI and on old BIOS machines"@.len()
        < "no partition table found; the firmware may still boot it if it is a raw disk image"@.len());
    let mark = head.len() >= 512 && head[510] == 0x55 && head[511] == 0xaa;
    assert(mark == has_mbr(head));
    let uefi = efi_part(head) || (mark && efi_slot(head));
    let bios = mark && !protective_slots(head);
    assert(head_boots(head) == boots_words(bios, uefi));
}

/// The summary names what the bytes hold, in this order: the boot record, protective or not, the GPT
/// and the boot catalog.
pub proof fn law_the_summary_names_what_is_there(head: Seq<u8>, s: Scheme)
    requires
        s.describes(head),
    ensures
        s.summary_text() == head_summary(head),
        ({
            let mark = head.len() >= 512 && head[510] == 0x55 && head[511] == 0xaa;
            let record = if mark && protective_slots(head) {
                "protective MBR"@
            } else {
                "MBR"@
            };
            let gpt = efi_part(head);
            let catalog = s.el_torito;
            let said = head_summary(head);
            &&& !mark && !gpt && !catalog ==> said == "no partition table"@
            &&& mark && !gpt && !catalog ==> said == record
            &&& !mark && gpt && !catalog ==> said == "GPT"@
            &&& !mark && !gpt && catalog ==> said == "El Torito"@
            &&& mark && gpt && !catalog ==> said == record + " + "@ + "GPT"@
            &&& mark && !gpt && catalog ==> said == record + " + "@ + "El Torito"@
            &&& !mark && gpt && catalog ==> said == "GPT"@ + " + "@ + "El Torito"@
            &&& mark && gpt && catalog ==> said == record + " + "@ + "GPT"@ + " + "@ + "El Torito"@
        }),
        s.el_torito ==> head.len() >= 34846 && head[34823] == 0x45 && head[34824] == 0x4c && head[34845]
            == 0x4e,
{
    lemma_kinds(head);
    reveal_with_fuel(text::join, 4);
    let mark = head.len() >= 512 && head[510] == 0x55 && head[511] == 0xaa;
    let names = structures(mark, mark && protective_slots(head), efi_part(head), s.el_torito);
    assert(s.summary_text() == if names.len() == 0 {
        "no partition table"@
    } else {
        text::join(names, " + "@)
    });
    if names.len() == 2 {
        assert(names.drop_last() =~= seq![names[0]]);
    }
    if names.len() == 3 {
        assert(names.drop_last() =~= seq![names[0], names[1]]);
        assert(names.drop_last().drop_last() =~= seq![names[0]]);
    }
    if s.el_torito {
        let x = head.subrange(34823, 34846);
        assert(x[0] == head[34823] && x[1] == head[34824] && x[22] == head[34845]);
    }
}

/// Partitions of one kind have one name: those of FAT32 and of an EFI system, of NTFS, of Linux and of a
/// protective table are told apart, and every kind that is not known is called other.
pub proof fn law_what_a_kind_is_called(e: Entry)
    ensures
        e.kind_text() == "EFI system"@ <==> e.kind == 0xef,
        e.kind_text() == "GPT protective"@ <==> e.kind == 0xee,
        e.kind_text() == "FAT32"@ <==> e.kind == 0x0b || e.kind == 0x0c,
        e.kind_text() == "Linux"@ <==> e.kind == 0x83,
        e.kind_text() == "Linux LVM"@ <==> e.kind == 0x8e,
        e.kind_text() == "NTFS or exFAT"@ <==> e.kind == 0x07,
        e.kind_text() == "hidden NTFS"@ <==> e.kind == 0x17,
        e.kind_text() == "unused or raw"@ <==> e.kind == 0x00,
{
    reveal_strlit("EFI system");
    reveal_strlit("GPT protective");
    reveal_strlit("FAT32");
    reveal_strlit("Linux");
    reveal_strlit("Linux LVM");
    reveal_strlit("NTFS or exFAT");
    reveal_strlit("hidden NTFS");
    reveal_strlit("unused or raw");
    reveal_strlit("other");
    assert("EFI system"@[0] == 'E' && "GPT protective"@[0] == 'G' && "FAT32"@[0] == 'F' && "Linux"@[0] == 'L'
        && "Linux"@.len() == 5 && "Linux LVM"@[0] == 'L' && "Linux LVM"@.len() == 9
        && "NTFS or exFAT"@[0] == 'N' && "hidden NTFS"@[0] == 'h' && "unused or raw"@[0] == 'u'
        && "other"@[0] == 'o');
}

} // verus!
