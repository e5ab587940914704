//! Leaving a stick looking like one partition scheme or the other.
//!
//! This runs after a read back has proved the copy, never before: it changes bytes on purpose, and
//! in the other order the proof would be meaningless.

use vstd::prelude::*;
use vstd::string::*;

use crate::parts;
use crate::parts::Scheme;
use crate::text;

verus! {

/// Bytes to write at an offset. Without a `complaint` a failed write is let go.
pub struct Patch {
    pub at: u64,
    pub bytes: Vec<u8>,
    pub complaint: Option<&'static str>,
}

pub struct PatchView {
    pub at: nat,
    pub bytes: Seq<u8>,
    pub complaint: Option<Seq<char>>,
}

impl View for Patch {
    type V = PatchView;

    open spec fn view(&self) -> PatchView {
        PatchView {
            at: self.at as nat,
            bytes: self.bytes@,
            complaint: match self.complaint {
                Some(c) => Some(c@),
                None => None,
            },
        }
    }
}

pub open spec fn patches_view(v: Seq<Patch>) -> Seq<PatchView> {
    Seq::new(v.len(), |i: int| v[i]@)
}

/// What is done about a wanted scheme.
pub enum Change {
    /// Nothing is written; this is said.
    Keep(String),
    /// The patches are written in order, and then this is said.
    Write { patches: Vec<Patch>, done: String },
    /// Nothing is written; this is why.
    Refuse(String),
}

pub enum ChangeView {
    Keep(Seq<char>),
    Write { patches: Seq<PatchView>, done: Seq<char> },
    Refuse(Seq<char>),
}

impl View for Change {
    type V = ChangeView;

    open spec fn view(&self) -> ChangeView {
        match self {
            Change::Keep(s) => ChangeView::Keep(s@),
            Change::Write { patches, done } => ChangeView::Write {
                patches: patches_view(patches@),
                done: done@,
            },
            Change::Refuse(s) => ChangeView::Refuse(s@),
        }
    }
}

pub open spec fn zeros() -> Seq<u8> {
    Seq::new(parts::SECTOR as nat, |i: int| 0u8)
}

/// The patches that clear the GPT header and its backup at the last sector.
pub open spec fn clear_gpt(sectors: nat) -> Seq<PatchView> {
    let primary = PatchView {
        at: 512,
        bytes: zeros(),
        complaint: Some("cannot clear the GPT header"@),
    };
    if sectors > 1 {
        seq![
            primary,
            PatchView { at: ((sectors - 1) * 512) as nat, bytes: zeros(), complaint: None },
        ]
    } else {
        seq![primary]
    }
}

/// The patch that makes sector 0 a protective MBR.
pub open spec fn protect(sectors: u64) -> Seq<PatchView> {
    seq![
        PatchView {
            at: 0,
            bytes: parts::protective(sectors),
            complaint: Some("cannot write the protective MBR"@),
        },
    ]
}

/// What is done about `want` on a device of `size` bytes that begins with `head`.
pub open spec fn change_of(head: Seq<u8>, size: u64, want: Seq<char>) -> ChangeView {
    let sectors = size / 512;
    if want == "mbr"@ {
        if parts::has_gpt(head) {
            ChangeView::Write {
                patches: clear_gpt(sectors as nat),
                done: "scheme: MBR (the GPT headers were cleared; BIOS boot is untouched)"@,
            }
        } else {
            ChangeView::Keep("already MBR only; nothing to change"@)
        }
    } else if want == "gpt"@ {
        if parts::has_gpt(head) {
            ChangeView::Write {
                patches: protect(sectors),
                done: "scheme: GPT (sector 0 is now a protective MBR; UEFI boot is untouched)"@,
            }
        } else {
            ChangeView::Refuse(
                "this image has no GPT, so there is nothing to keep: writing a protective MBR would leave a stick that no firmware can boot. Leave it as it is, or write an image that carries a GPT."@,
            )
        }
    } else if want == "auto"@ || want == "hybrid"@ {
        ChangeView::Keep("scheme: left as the image wrote it ("@ + parts::head_summary(head) + ")"@)
    } else {
        ChangeView::Refuse("unknown scheme '"@ + want + "': use gpt, mbr or auto"@)
    }
}

fn zero_sector() -> (r: Vec<u8>)
    ensures
        r@ == zeros(),
{
    let mut v: Vec<u8> = Vec::new();
    let mut i: usize = 0;
    while i < parts::SECTOR
        invariant
            i <= parts::SECTOR,
            v@.len() == i,
            forall|j: int| 0 <= j < i ==> v@[j] == 0,
        decreases parts::SECTOR - i,
    {
        v.push(0);
        i += 1;
    }
    assert(v@ =~= zeros());
    v
}

fn clearing(sectors: u64) -> (r: Vec<Patch>)
    requires
        sectors <= u64::MAX / 512,
    ensures
        patches_view(r@) == clear_gpt(sectors as nat),
{
    let mut v: Vec<Patch> = Vec::new();
    v.push(
        Patch {
            at: 512,
            bytes: zero_sector(),
            complaint: Some("cannot clear the GPT header"),
        },
    );
    if sectors > 1 {
        v.push(Patch { at: (sectors - 1) * 512, bytes: zero_sector(), complaint: None });
    }
    assert(patches_view(v@) =~= clear_gpt(sectors as nat));
    v
}

fn protecting(sectors: u64) -> (r: Vec<Patch>)
    ensures
        patches_view(r@) == protect(sectors),
{
    let sector: [u8; 512] = parts::protective_mbr(sectors);
    let mut bytes: Vec<u8> = Vec::new();
    let mut i: usize = 0;
    while i < 512
        invariant
            i <= 512,
            sector@.len() == 512,
            bytes@ == sector@.take(i as int),
        decreases 512 - i,
    {
        bytes.push(sector[i]);
        i += 1;
        assert(bytes@ =~= sector@.take(i as int));
    }
    assert(bytes@ =~= parts::protective(sectors));
    let mut v: Vec<Patch> = Vec::new();
    v.push(Patch { at: 0, bytes, complaint: Some("cannot write the protective MBR") });
    assert(patches_view(v@) =~= protect(sectors));
    v
}

/// Work out what to do about a wanted scheme, from the first bytes of the device and its size.
pub fn apply_scheme(head: &[u8], size: u64, want: &str) -> (r: Change)
    ensures
        r@ == change_of(head@, size, want@),
{
    let s: Scheme = parts::read(head);
    let sectors: u64 = size / 512;
    let w: Vec<char> = text::chars_of(want);
    if text::same_str(&w, "mbr") {
        if s.gpt {
            Change::Write {
                patches: clearing(sectors),
                done: "scheme: MBR (the GPT headers were cleared; BIOS boot is untouched)".to_owned(),
            }
        } else {
            Change::Keep("already MBR only; nothing to change".to_owned())
        }
    } else if text::same_str(&w, "gpt") {
        if s.gpt {
            Change::Write {
                patches: protecting(sectors),
                done: "scheme: GPT (sector 0 is now a protective MBR; UEFI boot is untouched)".to_owned(),
            }
        } else {
            Change::Refuse(
                "this image has no GPT, so there is nothing to keep: writing a protective MBR would leave a stick that no firmware can boot. Leave it as it is, or write an image that carries a GPT.".to_owned(),
            )
        }
    } else if text::same_str(&w, "auto") || text::same_str(&w, "hybrid") {
        let mut m: String = "scheme: left as the image wrote it (".to_owned();
        m.append(&s.summary());
        m.append(")");
        Change::Keep(m)
    } else {
        let mut m: String = "unknown scheme '".to_owned();
        m.append(want);
        m.append("': use gpt, mbr or auto");
        Change::Refuse(m)
    }
}

// ---- laws -----------------------------------------------------------------------------------

/// The disk after the bytes of a patch have been written over it.
pub open spec fn patched(disk: Seq<u8>, p: PatchView) -> Seq<u8> {
    Seq::new(
        disk.len(),
        |i: int|
            if p.at <= i < p.at + p.bytes.len() {
                p.bytes[i - p.at]
            } else {
                disk[i]
            },
    )
}

pub open spec fn patched_all(disk: Seq<u8>, ps: Seq<PatchView>) -> Seq<u8>
    decreases ps.len(),
{
    if ps.len() == 0 {
        disk
    } else {
        patched(patched_all(disk, ps.drop_last()), ps.last())
    }
}

proof fn lemma_cleared(disk: Seq<u8>)
    requires
        disk.len() >= 1024,
    ensures
        ({
            let after = patched_all(disk, clear_gpt(disk.len() / 512));
            &&& after.len() == disk.len()
            &&& forall|i: int|
                0 <= i < disk.len() ==> #[trigger] after[i] == (if 512 <= i < 1024 || (disk.len()
                    / 512 - 1) * 512 <= i < (disk.len() / 512) * 512 {
                    0u8
                } else {
                    disk[i]
                })
        }),
{
    let ps = clear_gpt(disk.len() / 512);
    reveal_with_fuel(patched_all, 3);
    assert(ps.drop_last() =~= seq![ps[0]]);
    assert(ps.drop_last().drop_last() =~= Seq::<PatchView>::empty());
}

/// Asking for MBR clears the sector of the GPT header and that of its backup and touches nothing
/// else: the disk then shows no GPT, and the boot record and partition table of the image stay as
/// they are.
pub proof fn law_mbr_leaves_the_boot_record(disk: Seq<u8>, s: Scheme, t: Scheme)
    requires
        disk.len() >= 1024,
        s.describes(disk),
        t.describes(patched_all(disk, clear_gpt(disk.len() / 512))),
    ensures
        !t.gpt,
        t.mbr == s.mbr,
        t.entries@ == s.entries@,
        t.bios() == s.bios(),
        ({
            let after = patched_all(disk, clear_gpt(disk.len() / 512));
            &&& after.len() == disk.len()
            &&& after.take(512) == disk.take(512)
            &&& forall|i: int|
                0 <= i < disk.len() && !(512 <= i < 1024) && !((disk.len() / 512 - 1) * 512 <= i < (
                disk.len() / 512) * 512) ==> #[trigger] after[i] == disk[i]
        }),
{
    let after = patched_all(disk, clear_gpt(disk.len() / 512));
    lemma_cleared(disk);
    assert(after.take(512) =~= disk.take(512));
    assert(after[512] == 0);
    assert(after.subrange(512, 520)[0] == 0);
    assert(parts::gpt_magic()[0] == 0x45);
    assert forall|k: int| 0 <= k < 4 implies #[trigger] parts::slot(after, k) == parts::slot(
        disk,
        k,
    ) by {
        assert(parts::slot(after, k) =~= parts::slot(disk, k));
    }
    reveal_with_fuel(parts::entries_upto, 5);
    assert(parts::entries_upto(after, 4) == parts::entries_upto(disk, 4));
}

/// Asking for GPT replaces sector 0 by a protective MBR and touches nothing else: the GPT stays,
/// and what boots from the disk is UEFI firmware only.
pub proof fn law_gpt_leaves_only_uefi(disk: Seq<u8>, sectors: u64, t: Scheme)
    requires
        parts::has_gpt(disk),
        t.describes(patched_all(disk, protect(sectors))),
    ensures
        t.gpt,
        t.protective_only,
        !t.bios(),
        t.uefi(),
        t.boots_text() == "UEFI only"@,
        patched_all(disk, protect(sectors)).len() == disk.len(),
        patched_all(disk, protect(sectors)).skip(512) == disk.skip(512),
{
    let ps = protect(sectors);
    let after = patched_all(disk, ps);
    reveal_with_fuel(patched_all, 2);
    assert(ps.drop_last() =~= Seq::<PatchView>::empty());
    assert(after.take(512) =~= parts::protective(sectors));
    assert(after.subrange(512, 520) =~= disk.subrange(512, 520));
    assert(after.skip(512) =~= disk.skip(512));
    parts::law_protective_reads_back(sectors, after, t);
}

proof fn lemma_gpt_bytes(head: Seq<u8>)
    ensures
        parts::has_gpt(head) <==> parts::efi_part(head),
{
    if head.len() >= 1024 {
        let x = head.subrange(512, 520);
        if parts::efi_part(head) {
            assert(x =~= parts::gpt_magic());
        }
        if x == parts::gpt_magic() {
            assert(x[0] == head[512] && x[1] == head[513] && x[2] == head[514] && x[3] == head[515]);
            assert(x[4] == head[516] && x[5] == head[517] && x[6] == head[518] && x[7] == head[519]);
        }
    }
}

/// What each word asks for. Without a GPT there is nothing to take away and nothing to keep alone; to
/// leave the image as it is changes nothing; and an unknown word changes nothing either.
pub proof fn law_when_a_scheme_is_written(head: Seq<u8>, size: u64, want: Seq<char>)
    ensures
        want == "mbr"@ ==> (change_of(head, size, want) is Write <==> parts::efi_part(head)),
        want == "mbr"@ && !parts::efi_part(head) ==> change_of(head, size, want) is Keep,
        want == "gpt"@ ==> (change_of(head, size, want) is Write <==> parts::efi_part(head)),
        want == "gpt"@ && !parts::efi_part(head) ==> change_of(head, size, want) is Refuse,
        want == "auto"@ || want == "hybrid"@ ==> change_of(head, size, want) is Keep,
        want != "mbr"@ && want != "gpt"@ && want != "auto"@ && want != "hybrid"@ ==> change_of(
            head,
            size,
            want,
        ) is Refuse,
{
    reveal_strlit("mbr");
    reveal_strlit("gpt");
    reveal_strlit("auto");
    reveal_strlit("hybrid");
    assert("mbr"@[0] == 'm' && "gpt"@[0] == 'g' && "auto"@[0] == 'a' && "hybrid"@[0] == 'h');
    lemma_gpt_bytes(head);
}

/// What is written to a disk of whole sectors. For an MBR the two headers of the GPT, in the second and
/// the last sector, are all zeros afterwards and every other byte is as before. For a GPT the first
/// sector has one protective slot over the rest of the disk, and every other byte is as before.
pub proof fn law_what_a_scheme_writes(disk: Seq<u8>, size: u64, want: Seq<char>, i: int)
    requires
        disk.len() == size,
        size % 512 == 0,
        parts::efi_part(disk),
        want == "mbr"@ || want == "gpt"@,
        0 <= i < disk.len(),
    ensures
        change_of(disk, size, want) is Write,
        ({
            let after = patched_all(disk, change_of(disk, size, want)->Write_patches);
            &&& after.len() == disk.len()
            &&& want == "mbr"@ && (512 <= i < 1024 || i >= size - 512) ==> after[i] == 0
            &&& want == "mbr"@ && !(512 <= i < 1024) && i < size - 512 ==> after[i] == disk[i]
            &&& want == "gpt"@ && i >= 512 ==> after[i] == disk[i]
            &&& want == "gpt"@ ==> after[446] == 0 && after[450] == 0xee && after[510] == 0x55
                && after[511] == 0xaa && after[466] == 0 && after[482] == 0 && after[498] == 0
        }),
{
    reveal_strlit("mbr");
    reveal_strlit("gpt");
    assert("mbr"@[0] == 'm' && "gpt"@[0] == 'g');
    lemma_gpt_bytes(disk);
    reveal_with_fuel(patched_all, 3);
    let sectors = size / 512;
    if want == "mbr"@ {
        let ps = clear_gpt(sectors as nat);
        assert(ps.len() == 2);
        assert(ps.drop_last() =~= seq![ps[0]]);
        assert(seq![ps[0]].drop_last() =~= Seq::empty());
        assert((sectors - 1) * 512 == size - 512);
        let mid = patched(disk, ps[0]);
        assert(patched_all(disk, ps) == patched(mid, ps[1]));
    } else {
        let ps = protect(sectors);
        assert(ps.drop_last() =~= Seq::empty());
        assert(patched_all(disk, ps) == patched(disk, ps[0]));
    }
}

} // verus!
