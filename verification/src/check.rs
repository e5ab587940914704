//! Hashing a file, verifying a stick burned earlier, and inspecting an image or a stick.

use vstd::prelude::*;
use vstd::string::*;

use crate::dev;
use crate::dev::Device;
use crate::json;
use crate::layout;
use crate::parts;
use crate::parts::{Entry, Scheme};
use crate::say;
use crate::say::{add_note, no_notes, one_note, Note, DIM, RST, YEL};
use crate::sha256;
use crate::text;

verus! {

// ---- hashing a file -------------------------------------------------------------------------

/// The hash that was given, as hashes are written.
pub open spec fn given(expect: Seq<char>) -> Seq<char> {
    text::lower(text::trim(expect))
}

/// Whether the file has the hash that was given, if one was.
pub open spec fn verdict_of(expect: Option<Seq<char>>, hash: Seq<char>) -> Option<bool> {
    match expect {
        Some(e) => Some(given(e) == hash),
        None => None,
    }
}

pub open spec fn hash_fields(path: Seq<char>, hash: Seq<char>, size: u64, expect: Option<Seq<char>>) -> Seq<
    (Seq<char>, Seq<char>),
> {
    let a = seq![
        ("event"@, json::quoted("hash"@)),
        ("sha256"@, json::quoted(hash)),
        ("size"@, text::decimal(size as nat)),
        ("engine"@, json::quoted("portable"@)),
        ("path"@, json::quoted(path)),
    ];
    match expect {
        Some(e) => a.push(("expected"@, json::quoted(given(e)))).push(
            ("matches"@, json::truth(given(e) == hash)),
        ),
        None => a,
    }
}

pub open spec fn hash_report(path: Seq<char>, hash: Seq<char>, size: u64, expect: Option<Seq<char>>) -> Seq<
    say::NoteView,
> {
    let a = seq![
        say::NoteView::Event(json::object_text(hash_fields(path, hash, size, expect))),
        say::NoteView::Plain(
            "  "@ + hash + "  "@ + path + "  ("@ + layout::commas(size as nat) + " bytes, "@
                + "portable"@ + ")"@,
        ),
    ];
    match expect {
        Some(e) => if given(e) == hash {
            a.push(say::NoteView::Good("matches the hash you gave"@))
        } else {
            a.push(
                say::NoteView::Bad(
                    "DOES NOT MATCH\n     you gave  "@ + given(e) + "\n     this file "@ + hash,
                ),
            )
        },
        None => a,
    }
}

fn as_given(expect: &Option<String>) -> (r: Option<String>)
    ensures
        text::text_opt(r) == (match *expect {
            Some(e) => Some(given(e@)),
            None => None,
        }),
{
    match expect {
        Some(e) => {
            let c: Vec<char> = text::chars_of(e);
            Some(text::string_of(&text::lowered(text::trimmed(&c))))
        },
        None => None,
    }
}

fn tell_hash(path: &str, hash: &str, size: u64, wanted: &Option<String>, expect: &Option<String>) -> (r:
    String)
    requires
        text::text_opt(*wanted) == (match *expect {
            Some(e) => Some(given(e@)),
            None => None,
        }),
    ensures
        r@ == json::object_text(hash_fields(path@, hash@, size, text::text_opt(*expect))),
{
    let mut f: Vec<json::Field> = Vec::new();
    f.push(("event", json::s("hash")));
    f.push(("sha256", json::s(hash)));
    f.push(("size", json::n(size)));
    f.push(("engine", json::s(sha256::engine())));
    f.push(("path", json::s(path)));
    if let Some(e) = wanted {
        f.push(("expected", json::s(e)));
        f.push(("matches", json::b(text::same_str(&text::chars_of(e), hash))));
    }
    assert(json::fields_view(f@) =~= hash_fields(path@, hash@, size, text::text_opt(*expect)));
    json::object(&f)
}

/// What a file's hash comes to, and what is said: whether the file matches the hash that was given,
/// which is what somebody actually wants to know.
pub fn report_hash(path: &str, hash: &str, size: u64, expect: &Option<String>) -> (r: (
    Option<bool>,
    Vec<Note>,
))
    ensures
        r.0 == verdict_of(text::text_opt(*expect), hash@),
        say::notes_view(r.1@) == hash_report(path@, hash@, size, text::text_opt(*expect)),
{
    let wanted: Option<String> = as_given(expect);
    let mut line: String = "  ".to_owned();
    line.append(hash);
    line.append("  ");
    line.append(path);
    line.append("  (");
    line.append(&layout::with_commas(size));
    line.append(" bytes, ");
    line.append(sha256::engine());
    line.append(")");
    let mut notes: Vec<Note> = one_note(
        Note::Event(tell_hash(path, hash, size, &wanted, expect)),
    );
    add_note(&mut notes, Note::Plain(line));
    assert(say::notes_view(notes@) =~= hash_report(
        path@,
        hash@,
        size,
        text::text_opt(*expect),
    ).take(2));
    match &wanted {
        Some(e) => if text::same_str(&text::chars_of(e), hash) {
            add_note(&mut notes, Note::Good("matches the hash you gave".to_owned()));
            assert(say::notes_view(notes@) =~= hash_report(
                path@,
                hash@,
                size,
                text::text_opt(*expect),
            ));
            (Some(true), notes)
        } else {
            let mut s: String = "DOES NOT MATCH\n     you gave  ".to_owned();
            s.append(e);
            s.append("\n     this file ");
            s.append(hash);
            add_note(&mut notes, Note::Bad(s));
            assert(say::notes_view(notes@) =~= hash_report(
                path@,
                hash@,
                size,
                text::text_opt(*expect),
            ));
            (Some(false), notes)
        },
        None => (None, notes),
    }
}

// ---- verifying a stick ----------------------------------------------------------------------

pub open spec fn fit_report(d: dev::DeviceView, hash: Seq<char>, len: u64) -> Seq<say::NoteView> {
    let a = seq![
        say::NoteView::Step("image  sha256 "@ + hash + " ("@ + dev::human_text(len) + ")"@),
    ];
    if len > d.size {
        a.push(
            say::NoteView::Bad(
                d.path + " holds "@ + dev::human_text(d.size) + " and the image is "@
                    + dev::human_text(len) + ": this stick was never big enough for it"@,
            ),
        )
    } else {
        a
    }
}

/// Whether the device can hold the image at all, and what is said.
pub fn check_fit(d: &Device, hash: &str, len: u64) -> (r: (bool, Vec<Note>))
    ensures
        r.0 == (len <= d.size),
        say::notes_view(r.1@) == fit_report(d@, hash@, len),
{
    let mut a: String = "image  sha256 ".to_owned();
    a.append(hash);
    a.append(" (");
    a.append(&dev::human(len));
    a.append(")");
    let mut notes: Vec<Note> = one_note(Note::Step(a));
    if len > d.size {
        let mut s: String = d.path.clone();
        s.append(" holds ");
        s.append(&dev::human(d.size));
        s.append(" and the image is ");
        s.append(&dev::human(len));
        s.append(": this stick was never big enough for it");
        add_note(&mut notes, Note::Bad(s));
        (false, notes)
    } else {
        (true, notes)
    }
}

pub open spec fn match_report(path: Seq<char>, hash: Seq<char>, back: Seq<char>) -> Seq<
    say::NoteView,
> {
    seq![
        say::NoteView::Step("device sha256 "@ + back),
        if back == hash {
            say::NoteView::Good(path + " matches the image"@)
        } else {
            say::NoteView::Bad(path + " does NOT match the image"@)
        },
    ]
}

/// Whether the device carries the image, and what is said.
pub fn check_match(path: &str, hash: &str, back: &str) -> (r: (bool, Vec<Note>))
    ensures
        r.0 == (back@ == hash@),
        say::notes_view(r.1@) == match_report(path@, hash@, back@),
{
    let mut a: String = "device sha256 ".to_owned();
    a.append(back);
    let mut notes: Vec<Note> = one_note(Note::Step(a));
    let same: bool = text::same_str(&text::chars_of(back), hash);
    let mut s: String = path.to_owned();
    if same {
        s.append(" matches the image");
        add_note(&mut notes, Note::Good(s));
    } else {
        s.append(" does NOT match the image");
        add_note(&mut notes, Note::Bad(s));
    }
    assert(say::notes_view(notes@) =~= match_report(path@, hash@, back@));
    (same, notes)
}

/// A stick passes exactly when the bytes read back off it, as many as the image has, hash to what
/// the image hashes to; so one that carries the image, byte for byte, always passes.
pub proof fn law_a_good_stick_passes(path: Seq<char>, image: Seq<u8>, stick: Seq<u8>)
    requires
        image.len() <= stick.len(),
    ensures
        stick.take(image.len() as int) == image ==> match_report(
            path,
            sha256::written(image),
            sha256::written(stick.take(image.len() as int)),
        )[1] is Good,
        sha256::written(stick.take(image.len() as int)) != sha256::written(image) ==> match_report(
            path,
            sha256::written(image),
            sha256::written(stick.take(image.len() as int)),
        )[1] is Bad,
{
}

/// What is asked for next.
pub enum Check {
    HashImage,
    DropCaches,
    /// Hash the first so many bytes of the device.
    ReadBack(u64),
    /// It is over, and whether the stick carries the image.
    End(bool),
}

/// How far it has come.
pub enum Checked {
    Hashing,
    Dropping { hash: String, len: u64 },
    Reading { hash: String },
    Over,
}

pub enum CheckedView {
    Hashing,
    Dropping { hash: Seq<char>, len: u64 },
    Reading { hash: Seq<char> },
    Over,
}

impl View for Checked {
    type V = CheckedView;

    open spec fn view(&self) -> CheckedView {
        match self {
            Checked::Hashing => CheckedView::Hashing,
            Checked::Dropping { hash, len } => CheckedView::Dropping { hash: hash@, len: *len },
            Checked::Reading { hash } => CheckedView::Reading { hash: hash@ },
            Checked::Over => CheckedView::Over,
        }
    }
}

/// What came of what was asked for.
pub enum Finding {
    Hashed(Result<(String, u64), String>),
    Dropped,
    ReadBack(Result<String, String>),
}

pub enum FindingView {
    Hashed(Result<(Seq<char>, u64), Seq<char>>),
    Dropped,
    ReadBack(Result<Seq<char>, Seq<char>>),
}

impl View for Finding {
    type V = FindingView;

    open spec fn view(&self) -> FindingView {
        match self {
            Finding::Hashed(r) => FindingView::Hashed(
                match r {
                    Ok((h, n)) => Ok((h@, *n)),
                    Err(e) => Err(e@),
                },
            ),
            Finding::Dropped => FindingView::Dropped,
            Finding::ReadBack(r) => FindingView::ReadBack(text::text_result(*r)),
        }
    }
}

/// What is said, what is asked for, and how far it has come.
pub struct Round {
    pub notes: Vec<Note>,
    pub check: Check,
    pub checked: Checked,
}

pub struct RoundView {
    pub notes: Seq<say::NoteView>,
    pub check: Check,
    pub checked: CheckedView,
}

impl View for Round {
    type V = RoundView;

    open spec fn view(&self) -> RoundView {
        RoundView {
            notes: say::notes_view(self.notes@),
            check: self.check,
            checked: self.checked@,
        }
    }
}

pub open spec fn given_up(why: Seq<char>) -> RoundView {
    RoundView {
        notes: seq![say::NoteView::Bad(why)],
        check: Check::End(false),
        checked: CheckedView::Over,
    }
}

/// What is asked after a finding. One that is not about what was asked for ends it.
pub open spec fn next_round(d: dev::DeviceView, checked: CheckedView, f: FindingView) -> RoundView {
    match (checked, f) {
        (CheckedView::Hashing, FindingView::Hashed(r)) => match r {
            Ok((hash, len)) => if len > d.size {
                RoundView {
                    notes: fit_report(d, hash, len),
                    check: Check::End(false),
                    checked: CheckedView::Over,
                }
            } else {
                RoundView {
                    notes: fit_report(d, hash, len),
                    check: Check::DropCaches,
                    checked: CheckedView::Dropping { hash, len },
                }
            },
            Err(e) => given_up("cannot read image: "@ + e),
        },
        (CheckedView::Dropping { hash, len }, FindingView::Dropped) => RoundView {
            notes: seq![],
            check: Check::ReadBack(len),
            checked: CheckedView::Reading { hash },
        },
        (CheckedView::Reading { hash }, FindingView::ReadBack(r)) => match r {
            Ok(back) => RoundView {
                notes: match_report(d.path, hash, back),
                check: Check::End(back == hash),
                checked: CheckedView::Over,
            },
            Err(e) => given_up("read back: "@ + e),
        },
        _ => RoundView {
            notes: seq![],
            check: Check::End(false),
            checked: CheckedView::Over,
        },
    }
}

fn give_up(before: &str, e: &str) -> (r: Round)
    ensures
        r@ == given_up(before@ + e@),
{
    let mut s: String = before.to_owned();
    s.append(e);
    Round { notes: one_note(Note::Bad(s)), check: Check::End(false), checked: Checked::Over }
}

/// What is asked first: the hash of the image.
pub open spec fn first_round() -> RoundView {
    RoundView { notes: seq![], check: Check::HashImage, checked: CheckedView::Hashing }
}

pub fn start() -> (r: Round)
    ensures
        r@ == first_round(),
{
    Round { notes: no_notes(), check: Check::HashImage, checked: Checked::Hashing }
}

/// What is asked once what was asked for has been carried out.
pub fn verify(d: &Device, checked: Checked, f: Finding) -> (r: Round)
    ensures
        r@ == next_round(d@, checked@, f@),
{
    match (checked, f) {
        (Checked::Hashing, Finding::Hashed(x)) => match x {
            Ok((hash, len)) => {
                let (fits, notes) = check_fit(d, &hash, len);
                if fits {
                    Round {
                        notes,
                        check: Check::DropCaches,
                        checked: Checked::Dropping { hash, len },
                    }
                } else {
                    Round { notes, check: Check::End(false), checked: Checked::Over }
                }
            },
            Err(e) => give_up("cannot read image: ", &e),
        },
        (Checked::Dropping { hash, len }, Finding::Dropped) => Round {
            notes: no_notes(),
            check: Check::ReadBack(len),
            checked: Checked::Reading { hash },
        },
        (Checked::Reading { hash }, Finding::ReadBack(x)) => match x {
            Ok(back) => {
                let (same, notes) = check_match(&d.path, &hash, &back);
                Round { notes, check: Check::End(same), checked: Checked::Over }
            },
            Err(e) => give_up("read back: ", &e),
        },
        _ => Round { notes: no_notes(), check: Check::End(false), checked: Checked::Over },
    }
}

/// A stick passes exactly when what was read back off it, the page cache having been dropped, has
/// the hash of the image.
pub proof fn law_a_stick_passes_only_with_the_hash_of_the_image(
    d: dev::DeviceView,
    checked: CheckedView,
    f: FindingView,
)
    ensures
        (next_round(d, checked, f).check == Check::End(true)) == (match (checked, f) {
            (CheckedView::Reading { hash }, FindingView::ReadBack(Ok(back))) => back == hash,
            _ => false,
        }),
        next_round(d, checked, f).check is ReadBack ==> f is Dropped,
{
}

// ---- inspecting -----------------------------------------------------------------------------

pub open spec fn entry_object(e: Entry) -> Seq<char> {
    json::object_text(
        seq![
            ("type"@, text::decimal(e.kind as nat)),
            ("type_name"@, json::quoted(e.kind_text())),
            ("bootable"@, json::truth(e.bootable)),
            ("start_lba"@, text::decimal(e.start_lba as nat)),
            ("sectors"@, text::decimal(e.sectors as nat)),
        ],
    )
}

pub open spec fn entry_objects(v: Seq<Entry>) -> Seq<Seq<char>> {
    v.map_values(|e: Entry| entry_object(e))
}

/// What the first bytes of an image or a stick show, for a program.
pub open spec fn scheme_event(path: Seq<char>, head: Seq<u8>) -> Seq<char> {
    json::object_text(
        seq![
            ("event"@, json::quoted("scheme"@)),
            ("path"@, json::quoted(path)),
            ("mbr"@, json::truth(parts::has_mbr(head))),
            ("gpt"@, json::truth(parts::has_gpt(head))),
            ("el_torito"@, json::truth(parts::has_el_torito(head))),
            ("efi_partition"@, json::truth(parts::has_kind(parts::table(head), 0xef))),
            ("summary"@, json::quoted(parts::head_summary(head))),
            ("boots"@, json::quoted(parts::head_boots(head))),
            ("partitions"@, json::list_text(entry_objects(parts::table(head)))),
        ],
    )
}

/// An entry of the partition table, the `i`th from zero, for a person.
pub open spec fn entry_line(i: nat, e: Entry) -> Seq<char> {
    "  "@ + DIM@ + text::decimal(i + 1) + RST@ + " "@ + layout::left(e.kind_text(), 16) + " "@
        + layout::right(layout::commas(e.sectors as nat), 12) + " sectors at LBA "@ + layout::left(
        text::decimal(e.start_lba as nat),
        10,
    ) + (if e.bootable {
        " "@ + YEL@ + "bootable"@ + RST@
    } else {
        Seq::empty()
    })
}

pub open spec fn entry_notes(v: Seq<Entry>) -> Seq<say::NoteView> {
    Seq::new(v.len(), |i: int| say::NoteView::Plain(entry_line(i as nat, v[i])))
}

pub open spec fn inspect_report(path: Seq<char>, head: Seq<u8>, json: bool) -> Seq<say::NoteView> {
    if json {
        seq![say::NoteView::Event(scheme_event(path, head))]
    } else {
        seq![
            say::NoteView::Step(path),
            say::NoteView::Good(parts::head_summary(head)),
            say::NoteView::Plain("     "@ + parts::head_boots(head)),
        ] + entry_notes(parts::table(head))
    }
}

fn tell_entry(e: &Entry) -> (r: String)
    ensures
        r@ == entry_object(*e),
{
    let mut f: Vec<json::Field> = Vec::new();
    f.push(("type", json::n(e.kind as u64)));
    f.push(("type_name", json::s(e.kind_name())));
    f.push(("bootable", json::b(e.bootable)));
    f.push(("start_lba", json::n(e.start_lba as u64)));
    f.push(("sectors", json::n(e.sectors as u64)));
    assert(json::fields_view(f@) =~= seq![
        ("type"@, text::decimal(e.kind as nat)),
        ("type_name"@, json::quoted(e.kind_text())),
        ("bootable"@, json::truth(e.bootable)),
        ("start_lba"@, text::decimal(e.start_lba as nat)),
        ("sectors"@, text::decimal(e.sectors as nat)),
    ]);
    json::object(&f)
}

fn tell_scheme(path: &str, s: &Scheme, Ghost(head): Ghost<Seq<u8>>) -> (r: String)
    requires
        s.describes(head),
    ensures
        r@ == scheme_event(path@, head),
{
    let mut rows: Vec<String> = Vec::new();
    let mut i: usize = 0;
    while i < s.entries.len()
        invariant
            i <= s.entries@.len(),
            rows@.len() == i,
            forall|j: int| 0 <= j < i ==> #[trigger] rows@[j]@ == entry_object(s.entries@[j]),
        decreases s.entries@.len() - i,
    {
        rows.push(tell_entry(&s.entries[i]));
        i += 1;
    }
    assert(text::strings(rows@) =~= entry_objects(parts::table(head)));
    let mut f: Vec<json::Field> = Vec::new();
    f.push(("event", json::s("scheme")));
    f.push(("path", json::s(path)));
    f.push(("mbr", json::b(s.mbr)));
    f.push(("gpt", json::b(s.gpt)));
    f.push(("el_torito", json::b(s.el_torito)));
    f.push(("efi_partition", json::b(s.efi_partition)));
    f.push(("summary", json::s(&s.summary())));
    f.push(("boots", json::s(&s.boots())));
    f.push(("partitions", json::list(&rows)));
    assert(json::fields_view(f@) =~= seq![
        ("event"@, json::quoted("scheme"@)),
        ("path"@, json::quoted(path@)),
        ("mbr"@, json::truth(parts::has_mbr(head))),
        ("gpt"@, json::truth(parts::has_gpt(head))),
        ("el_torito"@, json::truth(parts::has_el_torito(head))),
        ("efi_partition"@, json::truth(parts::has_kind(parts::table(head), 0xef))),
        ("summary"@, json::quoted(parts::head_summary(head))),
        ("boots"@, json::quoted(parts::head_boots(head))),
        ("partitions"@, json::list_text(entry_objects(parts::table(head)))),
    ]);
    json::object(&f)
}

fn line_of(i: usize, e: &Entry) -> (r: String)
    requires
        i < u64::MAX,
    ensures
        r@ == entry_line(i as nat, *e),
{
    let mut s: String = "  ".to_owned();
    s.append(DIM);
    s.append(&text::number_text(i as u64 + 1));
    s.append(RST);
    s.append(" ");
    s.append(&layout::at_left(e.kind_name(), 16));
    s.append(" ");
    s.append(&layout::at_right(&layout::with_commas(e.sectors as u64), 12));
    s.append(" sectors at LBA ");
    s.append(&layout::at_left(&text::number_text(e.start_lba as u64), 10));
    if e.bootable {
        let mut b: String = " ".to_owned();
        b.append(YEL);
        b.append("bootable");
        b.append(RST);
        s.append(&b);
    } else {
        assert(s@ =~= s@ + Seq::<char>::empty());
    }
    s
}

/// Say what a firmware will make of an image or a stick that begins with `head`.
pub fn inspect(path: &str, head: &[u8], json: bool) -> (r: Vec<Note>)
    ensures
        say::notes_view(r@) == inspect_report(path@, head@, json),
{
    let s: Scheme = parts::read(head);
    if json {
        return one_note(Note::Event(tell_scheme(path, &s, Ghost(head@))));
    }
    let mut boots: String = "     ".to_owned();
    boots.append(&s.boots());
    let mut notes: Vec<Note> = one_note(Note::Step(path.to_owned()));
    add_note(&mut notes, Note::Good(s.summary()));
    add_note(&mut notes, Note::Plain(boots));
    let ghost first = seq![
        say::NoteView::Step(path@),
        say::NoteView::Good(parts::head_summary(head@)),
        say::NoteView::Plain("     "@ + parts::head_boots(head@)),
    ];
    let ghost rows = entry_notes(parts::table(head@));
    assert(say::notes_view(notes@) =~= first + rows.take(0));
    let n: usize = s.entries.len();
    let mut i: usize = 0;
    while i < n
        invariant
            i <= n == s.entries@.len(),
            s.entries@ == parts::table(head@),
            rows == entry_notes(parts::table(head@)),
            say::notes_view(notes@) == first + rows.take(i as int),
        decreases n - i,
    {
        add_note(&mut notes, Note::Plain(line_of(i, &s.entries[i])));
        i += 1;
        assert(say::notes_view(notes@) =~= first + rows.take(i as int));
    }
    assert(rows.take(i as int) =~= rows);
    notes
}

/// The hash that was given is compared without regard to capitals and to white space around it.
pub proof fn law_a_given_hash_is_compared_in_any_case(
    path: Seq<char>,
    a: Seq<char>,
    e: Seq<char>,
    b: Seq<char>,
    hash: Seq<char>,
    size: u64,
)
    requires
        text::blank(a),
        text::blank(b),
        e.len() > 0 ==> !text::is_space(e[0]) && !text::is_space(e.last()),
    ensures
        verdict_of(Some(a + e + b), hash) == Some(text::lower(e) == hash),
        verdict_of(None, hash) is None,
        text::lower(e) == hash ==> hash_report(path, hash, size, Some(a + e + b)).last() is Good,
        text::lower(e) != hash ==> hash_report(path, hash, size, Some(a + e + b)).last() is Bad,
        hash_report(path, hash, size, None).len() == 2,
{
    text::law_white_space_around_is_ignored(a, e, b);
    text::law_a_trimmed_text_stays(e);
}

/// Checking a stick goes by what is on it: an image that is larger than the stick ends the check at once;
/// otherwise the caches are dropped, exactly as many bytes as the image has are read back, and the stick
/// passes exactly when their hash is the image's.
pub proof fn law_how_a_stick_is_checked(
    d: dev::DeviceView,
    hash: Seq<char>,
    len: u64,
    back: Seq<char>,
    e: Seq<char>,
)
    ensures
        first_round().check is HashImage && first_round().checked is Hashing,
        ({
            let r = next_round(d, CheckedView::Hashing, FindingView::Hashed(Ok((hash, len))));
            &&& len > d.size ==> r.check == Check::End(false) && r.notes.last() is Bad
            &&& len <= d.size ==> r.check is DropCaches && r.checked == (CheckedView::Dropping {
                hash,
                len,
            })
        }),
        next_round(d, CheckedView::Dropping { hash, len }, FindingView::Dropped).check
            == Check::ReadBack(len),
        next_round(d, CheckedView::Dropping { hash, len }, FindingView::Dropped).checked == (
        CheckedView::Reading { hash }),
        ({
            let r = next_round(d, CheckedView::Reading { hash }, FindingView::ReadBack(Ok(back)));
            &&& r.check == Check::End(back == hash)
            &&& r.notes.last() is Good <==> back == hash
            &&& r.notes.last() is Bad <==> back != hash
        }),
        next_round(d, CheckedView::Hashing, FindingView::Hashed(Err(e))).check == Check::End(false),
        next_round(d, CheckedView::Reading { hash }, FindingView::ReadBack(Err(e))).check == Check::End(
            false,
        ),
{
}

/// What is shown of an image are its summary, what boots it and then one line for each partition.
pub proof fn law_every_partition_is_shown(path: Seq<char>, head: Seq<u8>, s: Scheme)
    requires
        s.describes(head),
    ensures
        inspect_report(path, head, false).len() == 3 + s.entries@.len(),
        inspect_report(path, head, false)[1] == say::NoteView::Good(s.summary_text()),
        inspect_report(path, head, false)[2] == say::NoteView::Plain("     "@ + s.boots_text()),
        inspect_report(path, head, true).len() == 1,
{
}

/// The event about a hash says what the hash is and, when one was given, whether the two are the same.
pub proof fn law_what_the_hash_event_says(
    path: Seq<char>,
    hash: Seq<char>,
    size: u64,
    expect: Option<Seq<char>>,
)
    ensures
        ({
            let event = json::object_text(hash_fields(path, hash, size, expect));
            &&& hash_report(path, hash, size, expect)[0] == say::NoteView::Event(event)
            &&& json::has_field(event, "sha256"@, json::quoted(hash))
            &&& json::has_field(event, "size"@, text::decimal(size as nat))
            &&& json::has_field(event, "path"@, json::quoted(path))
            &&& expect is Some && text::lower(text::trim(expect->0)) == hash ==> json::has_field(
                event,
                "matches"@,
                "true"@,
            )
            &&& expect is Some && text::lower(text::trim(expect->0)) != hash ==> json::has_field(
                event,
                "matches"@,
                "false"@,
            )
        }),
{
    let f = hash_fields(path, hash, size, expect);
    json::law_a_written_field_is_there(f, 1);
    json::law_a_written_field_is_there(f, 2);
    json::law_a_written_field_is_there(f, 4);
    if expect is Some {
        json::law_a_written_field_is_there(f, 6);
    }
}

/// The event about an image says what its bytes hold: the boot record, the GPT and the EFI system
/// partition, each by itself, and what boots it.
pub proof fn law_what_the_scheme_event_says(path: Seq<char>, head: Seq<u8>, s: Scheme)
    requires
        s.describes(head),
    ensures
        ({
            let event = scheme_event(path, head);
            let mark = head.len() >= 512 && head[510] == 0x55 && head[511] == 0xaa;
            &&& json::has_field(event, "path"@, json::quoted(path))
            &&& json::has_field(event, "mbr"@, if mark {
                "true"@
            } else {
                "false"@
            })
            &&& json::has_field(event, "gpt"@, if parts::efi_part(head) {
                "true"@
            } else {
                "false"@
            })
            &&& json::has_field(event, "efi_partition"@, if mark && parts::efi_slot(head) {
                "true"@
            } else {
                "false"@
            })
            &&& json::has_field(event, "boots"@, json::quoted(s.boots_text()))
            &&& json::has_field(event, "summary"@, json::quoted(s.summary_text()))
        }),
{
    let f = seq![
        ("event"@, json::quoted("scheme"@)),
        ("path"@, json::quoted(path)),
        ("mbr"@, json::truth(parts::has_mbr(head))),
        ("gpt"@, json::truth(parts::has_gpt(head))),
        ("el_torito"@, json::truth(parts::has_el_torito(head))),
        ("efi_partition"@, json::truth(parts::has_kind(parts::table(head), 0xef))),
        ("summary"@, json::quoted(parts::head_summary(head))),
        ("boots"@, json::quoted(parts::head_boots(head))),
        ("partitions"@, json::list_text(entry_objects(parts::table(head)))),
    ];
    json::law_a_written_field_is_there(f, 1);
    json::law_a_written_field_is_there(f, 2);
    json::law_a_written_field_is_there(f, 3);
    json::law_a_written_field_is_there(f, 5);
    json::law_a_written_field_is_there(f, 6);
    json::law_a_written_field_is_there(f, 7);
    parts::lemma_kinds(head);
}

} // verus!
