//! Showing the devices, the networks, and the images of the catalog.

use vstd::prelude::*;
use vstd::string::*;

use crate::catalog;
use crate::catalog::{Family, Iso};
use crate::dev;
use crate::dev::Device;
use crate::fetch;
use crate::json;
use crate::layout;
use crate::resolve;
use crate::resolve::Resolved;
use crate::say;
use crate::say::{add_note, no_notes, one_note, Note, BOLD, DIM, GRN, RED, RST, YEL};
use crate::text;

verus! {

// ---- devices --------------------------------------------------------------------------------

/// A device for a program.
pub open spec fn device_object(d: dev::DeviceView) -> Seq<char> {
    json::object_text(
        seq![
            ("name"@, json::quoted(d.name)),
            ("path"@, json::quoted(d.path)),
            ("size"@, text::decimal(d.size as nat)),
            ("size_human"@, json::quoted(dev::human_text(d.size))),
            ("model"@, json::quoted(d.model)),
            ("removable"@, json::truth(d.removable)),
            ("holds_root"@, json::truth(d.holds_root)),
            ("mounts"@, json::list_text(json::quoted_all(d.mounts))),
            ("refusal"@, json::maybe_quoted(d.refusal(false))),
            ("refusal_internal_allowed"@, json::maybe_quoted(d.refusal(true))),
        ],
    )
}

fn tell_device(d: &Device) -> (r: String)
    ensures
        r@ == device_object(d@),
{
    let mut f: Vec<json::Field> = Vec::new();
    f.push(("name", json::s(&d.name)));
    f.push(("path", json::s(&d.path)));
    f.push(("size", json::n(d.size)));
    f.push(("size_human", json::s(&dev::human(d.size))));
    f.push(("model", json::s(&d.model)));
    f.push(("removable", json::b(d.removable)));
    f.push(("holds_root", json::b(d.holds_root)));
    f.push(("mounts", json::strs(&d.mounts)));
    f.push(("refusal", json::s_or_null(&d.refusal(false))));
    f.push(("refusal_internal_allowed", json::s_or_null(&d.refusal(true))));
    assert(json::fields_view(f@) =~= seq![
        ("name"@, json::quoted(d.name@)),
        ("path"@, json::quoted(d.path@)),
        ("size"@, text::decimal(d.size as nat)),
        ("size_human"@, json::quoted(dev::human_text(d.size))),
        ("model"@, json::quoted(d.model@)),
        ("removable"@, json::truth(d.removable)),
        ("holds_root"@, json::truth(d.holds_root)),
        ("mounts"@, json::list_text(json::quoted_all(d@.mounts))),
        ("refusal"@, json::maybe_quoted(d@.refusal(false))),
        ("refusal_internal_allowed"@, json::maybe_quoted(d@.refusal(true))),
    ]);
    json::object(&f)
}

pub open spec fn device_objects(v: Seq<dev::DeviceView>) -> Seq<Seq<char>> {
    v.map_values(|d: dev::DeviceView| device_object(d))
}

/// All devices for a program.
pub open spec fn devices_event(v: Seq<dev::DeviceView>) -> Seq<char> {
    json::object_text(
        seq![
            ("event"@, json::quoted("devices"@)),
            ("devices"@, json::list_text(device_objects(v))),
        ],
    )
}

fn tell_devices(v: &Vec<Device>) -> (r: String)
    ensures
        r@ == devices_event(dev::devices_view(v@)),
{
    let mut rows: Vec<String> = Vec::new();
    let mut i: usize = 0;
    while i < v.len()
        invariant
            i <= v@.len(),
            rows@.len() == i,
            forall|j: int| 0 <= j < i ==> #[trigger] rows@[j]@ == device_object(v@[j]@),
        decreases v@.len() - i,
    {
        rows.push(tell_device(&v[i]));
        i += 1;
    }
    assert(text::strings(rows@) =~= device_objects(dev::devices_view(v@)));
    let mut f: Vec<json::Field> = Vec::new();
    f.push(("event", json::s("devices")));
    f.push(("devices", json::list(&rows)));
    assert(json::fields_view(f@) =~= seq![
        ("event"@, json::quoted("devices"@)),
        ("devices"@, json::list_text(device_objects(dev::devices_view(v@)))),
    ]);
    json::object(&f)
}

/// What kind of disk it is.
pub open spec fn kind_text(d: dev::DeviceView) -> Seq<char> {
    if d.holds_root {
        "SYSTEM"@
    } else if d.removable {
        "removable"@
    } else {
        "internal"@
    }
}

/// Whether it can be written, and if not, why.
pub open spec fn status_text(d: dev::DeviceView) -> Seq<char> {
    match d.refusal(false) {
        Some(r) => RED@ + r + RST@,
        None => if d.mounts.len() == 0 {
            GRN@ + "writable"@ + RST@
        } else {
            YEL@ + "writable, mounted at "@ + text::join(d.mounts, ", "@) + RST@
        },
    }
}

/// A device for a person.
pub open spec fn device_row(d: dev::DeviceView) -> Seq<char> {
    "  "@ + layout::left(d.name, 11) + " "@ + layout::left(dev::human_text(d.size), 11) + " "@
        + layout::left(kind_text(d), 10) + " "@ + layout::left(
        layout::first_chars(d.model, 25),
        25,
    ) + " "@ + status_text(d)
}

fn status_of(d: &Device) -> (r: String)
    ensures
        r@ == status_text(d@),
{
    match d.refusal(false) {
        Some(reason) => {
            let mut s: String = RED.to_owned();
            s.append(&reason);
            s.append(RST);
            s
        },
        None => if d.mounts.len() == 0 {
            let mut s: String = GRN.to_owned();
            s.append("writable");
            s.append(RST);
            s
        } else {
            let mut s: String = YEL.to_owned();
            s.append("writable, mounted at ");
            s.append(&text::join_strings(&d.mounts, ", "));
            s.append(RST);
            s
        },
    }
}

fn row_of(d: &Device) -> (r: String)
    ensures
        r@ == device_row(d@),
{
    let kind: &str = if d.holds_root {
        "SYSTEM"
    } else if d.removable {
        "removable"
    } else {
        "internal"
    };
    let mut s: String = "  ".to_owned();
    s.append(&layout::at_left(&d.name, 11));
    s.append(" ");
    s.append(&layout::at_left(&dev::human(d.size), 11));
    s.append(" ");
    s.append(&layout::at_left(kind, 10));
    s.append(" ");
    s.append(&layout::at_left(&layout::clipped(&d.model, 25), 25));
    s.append(" ");
    s.append(&status_of(d));
    s
}

pub open spec fn device_notes(v: Seq<dev::DeviceView>) -> Seq<say::NoteView> {
    v.map_values(|d: dev::DeviceView| say::NoteView::Plain(device_row(d)))
}

/// The list of devices.
pub open spec fn devices_report(v: Seq<dev::DeviceView>, json: bool) -> Seq<say::NoteView> {
    if json {
        seq![say::NoteView::Event(devices_event(v))]
    } else if v.len() == 0 {
        seq![say::NoteView::Bad("no block devices found"@)]
    } else {
        seq![
            say::NoteView::Plain(
                BOLD@ + "  device      size        type       model                     status"@
                    + RST@,
            ),
        ] + device_notes(v)
    }
}

/// What is plugged in, and what is refused.
pub fn list_devices(v: &Vec<Device>, json: bool) -> (r: Vec<Note>)
    ensures
        say::notes_view(r@) == devices_report(dev::devices_view(v@), json),
{
    if json {
        return one_note(Note::Event(tell_devices(v)));
    }
    if v.len() == 0 {
        return one_note(Note::Bad("no block devices found".to_owned()));
    }
    let mut head: String = BOLD.to_owned();
    head.append("  device      size        type       model                     status");
    head.append(RST);
    let ghost first = say::NoteView::Plain(head@);
    let ghost rows = device_notes(dev::devices_view(v@));
    let mut notes: Vec<Note> = one_note(Note::Plain(head));
    let mut i: usize = 0;
    assert(say::notes_view(notes@) =~= seq![first] + rows.take(0));
    while i < v.len()
        invariant
            i <= v@.len(),
            rows == device_notes(dev::devices_view(v@)),
            say::notes_view(notes@) == seq![first] + rows.take(i as int),
        decreases v@.len() - i,
    {
        assert(rows[i as int] == say::NoteView::Plain(device_row(v@[i as int]@)));
        add_note(&mut notes, Note::Plain(row_of(&v[i])));
        i += 1;
        assert(say::notes_view(notes@) =~= seq![first] + rows.take(i as int));
    }
    assert(rows.take(i as int) =~= rows);
    notes
}

// ---- networks -------------------------------------------------------------------------------

pub open spec fn network_notes(v: Seq<Seq<char>>) -> Seq<say::NoteView> {
    v.map_values(|n: Seq<char>| say::NoteView::Plain("    "@ + n))
}

/// The networks that downloads will use.
pub open spec fn networks_report(v: Seq<Seq<char>>, json: bool) -> Seq<say::NoteView> {
    if json {
        seq![
            say::NoteView::Event(
                json::object_text(
                    seq![
                        ("event"@, json::quoted("networks"@)),
                        ("networks"@, json::list_text(json::quoted_all(v))),
                    ],
                ),
            ),
        ]
    } else if v.len() == 0 {
        seq![say::NoteView::Bad("no network interface is up"@)]
    } else {
        (seq![say::NoteView::Plain(BOLD@ + "  downloads will use"@ + RST@)] + network_notes(
            v,
        )).push(say::NoteView::Plain("  "@ + DIM@ + fetch::description(v, 4) + RST@))
    }
}

pub fn list_networks(v: &Vec<String>, json: bool) -> (r: Vec<Note>)
    requires
        v@.len() * 4 <= usize::MAX,
    ensures
        say::notes_view(r@) == networks_report(text::strings(v@), json),
{
    if json {
        let mut f: Vec<json::Field> = Vec::new();
        f.push(("event", json::s("networks")));
        f.push(("networks", json::strs(v)));
        assert(json::fields_view(f@) =~= seq![
            ("event"@, json::quoted("networks"@)),
            ("networks"@, json::list_text(json::quoted_all(text::strings(v@)))),
        ]);
        return one_note(Note::Event(json::object(&f)));
    }
    if v.len() == 0 {
        return one_note(Note::Bad("no network interface is up".to_owned()));
    }
    let mut head: String = BOLD.to_owned();
    head.append("  downloads will use");
    head.append(RST);
    let ghost first = say::NoteView::Plain(head@);
    let ghost rows = network_notes(text::strings(v@));
    let mut notes: Vec<Note> = one_note(Note::Plain(head));
    let mut i: usize = 0;
    assert(say::notes_view(notes@) =~= seq![first] + rows.take(0));
    while i < v.len()
        invariant
            i <= v@.len(),
            rows == network_notes(text::strings(v@)),
            say::notes_view(notes@) == seq![first] + rows.take(i as int),
        decreases v@.len() - i,
    {
        let mut line: String = "    ".to_owned();
        line.append(&v[i]);
        assert(rows[i as int] == say::NoteView::Plain(line@));
        add_note(&mut notes, Note::Plain(line));
        i += 1;
        assert(say::notes_view(notes@) =~= seq![first] + rows.take(i as int));
    }
    assert(rows.take(i as int) =~= rows);
    let mut last: String = "  ".to_owned();
    last.append(DIM);
    last.append(&fetch::describe(v, 4));
    last.append(RST);
    add_note(&mut notes, Note::Plain(last));
    notes
}

// ---- images ---------------------------------------------------------------------------------

/// The small letters of a text, as [`str::to_lowercase`] gives them.
pub uninterp spec fn lowercase_of(s: Seq<char>) -> Seq<char>;

/// [`str::to_lowercase`], which follows the tables of Unicode. Claimed is only that the result
/// depends on nothing but the text.
#[verifier::external_body]
pub(crate) fn to_lowercase(s: &str) -> (r: String)
    ensures
        r@ == lowercase_of(s@),
{
    s.to_lowercase()
}

/// Which images are to be shown.
pub struct Filter {
    pub term: Option<String>,
    pub windows: bool,
    pub linux: bool,
    pub tools: bool,
}

pub struct FilterView {
    pub term: Option<Seq<char>>,
    pub windows: bool,
    pub linux: bool,
    pub tools: bool,
}

impl View for Filter {
    type V = FilterView;

    open spec fn view(&self) -> FilterView {
        FilterView {
            term: text::text_opt(self.term),
            windows: self.windows,
            linux: self.linux,
            tools: self.tools,
        }
    }
}

/// The family is one of those asked for.
pub open spec fn in_families(family: Family, f: FilterView) -> bool {
    !(f.windows && family != Family::Windows) && !(f.linux && family != Family::Linux) && !(f.tools
        && family != Family::Tool)
}

/// One of the texts holds the term.
pub open spec fn mentions_in(
    term: Seq<char>,
    id: Seq<char>,
    name: Seq<char>,
    note: Seq<char>,
) -> bool {
    text::contains(id, term) || text::contains(name, term) || text::contains(note, term)
}

/// Whether one of three texts holds the term, all four in small letters.
pub fn mentions(term: &str, id: &str, name: &str, note: &str) -> (r: bool)
    ensures
        r == mentions_in(term@, id@, name@, note@),
{
    let t: Vec<char> = text::chars_of(term);
    text::holds(&text::chars_of(id), &t) || text::holds(&text::chars_of(name), &t) || text::holds(
        &text::chars_of(note),
        &t,
    )
}

/// The entry is about the term: its id, its name or its note holds it, small and capital letters
/// being the same.
pub open spec fn about(i: catalog::IsoView, term: Seq<char>) -> bool {
    mentions_in(
        lowercase_of(term),
        lowercase_of(i.id),
        lowercase_of(i.name),
        lowercase_of(i.note),
    )
}

/// The entry is to be shown.
pub open spec fn is_shown(i: catalog::IsoView, f: FilterView) -> bool {
    in_families(i.family, f) && match f.term {
        Some(t) => about(i, t),
        None => true,
    }
}

fn family_wanted(family: Family, f: &Filter) -> (r: bool)
    ensures
        r == in_families(family, f@),
{
    !(f.windows && family != Family::Windows) && !(f.linux && family != Family::Linux) && !(f.tools
        && family != Family::Tool)
}

fn entry_wanted(i: &Iso, f: &Filter) -> (r: bool)
    ensures
        r == is_shown(i@, f@),
{
    if !family_wanted(i.family, f) {
        return false;
    }
    match &f.term {
        Some(t) => mentions(
            &to_lowercase(t),
            &to_lowercase(&i.id),
            &to_lowercase(&i.name),
            &to_lowercase(&i.note),
        ),
        None => true,
    }
}

/// An entry for a program.
pub open spec fn entry_object(i: catalog::IsoView) -> Seq<char> {
    json::object_text(
        seq![
            ("id"@, json::quoted(i.id)),
            ("name"@, json::quoted(i.name)),
            ("family"@, json::quoted(i.family.label_text())),
            ("note"@, json::quoted(i.note)),
        ],
    )
}

fn tell_entry(i: &Iso) -> (r: String)
    ensures
        r@ == entry_object(i@),
{
    let mut f: Vec<json::Field> = Vec::new();
    f.push(("id", json::s(&i.id)));
    f.push(("name", json::s(&i.name)));
    f.push(("family", json::s(i.family.label())));
    f.push(("note", json::s(&i.note)));
    assert(json::fields_view(f@) =~= seq![
        ("id"@, json::quoted(i.id@)),
        ("name"@, json::quoted(i.name@)),
        ("family"@, json::quoted(i.family.label_text())),
        ("note"@, json::quoted(i.note@)),
    ]);
    json::object(&f)
}

/// The entries to be shown, for a program.
pub open spec fn entry_objects(v: Seq<catalog::IsoView>, f: FilterView) -> Seq<Seq<char>>
    decreases v.len(),
{
    if v.len() == 0 {
        seq![]
    } else if is_shown(v.last(), f) {
        entry_objects(v.drop_last(), f).push(entry_object(v.last()))
    } else {
        entry_objects(v.drop_last(), f)
    }
}

pub open spec fn images_event(v: Seq<catalog::IsoView>, f: FilterView) -> Seq<char> {
    json::object_text(
        seq![
            ("event"@, json::quoted("images"@)),
            ("images"@, json::list_text(entry_objects(v, f))),
        ],
    )
}

fn tell_images(v: &Vec<Iso>, f: &Filter) -> (r: String)
    ensures
        r@ == images_event(catalog::isos_view(v@), f@),
{
    let ghost all = catalog::isos_view(v@);
    let mut rows: Vec<String> = Vec::new();
    let mut i: usize = 0;
    assert(text::strings(rows@) =~= entry_objects(all.take(0), f@));
    while i < v.len()
        invariant
            i <= v@.len(),
            all == catalog::isos_view(v@),
            text::strings(rows@) == entry_objects(all.take(i as int), f@),
        decreases v@.len() - i,
    {
        assert(all.take(i + 1).drop_last() =~= all.take(i as int));
        assert(all[i as int] == v@[i as int]@);
        if entry_wanted(&v[i], f) {
            let ghost before = text::strings(rows@);
            rows.push(tell_entry(&v[i]));
            assert(text::strings(rows@) =~= before.push(entry_object(all[i as int])));
        }
        i += 1;
    }
    assert(all.take(i as int) =~= all);
    let mut o: Vec<json::Field> = Vec::new();
    o.push(("event", json::s("images")));
    o.push(("images", json::list(&rows)));
    assert(json::fields_view(o@) =~= seq![
        ("event"@, json::quoted("images"@)),
        ("images"@, json::list_text(entry_objects(all, f@))),
    ]);
    json::object(&o)
}

/// The family as a coloured tag.
pub open spec fn tag_text(family: Family) -> Seq<char> {
    match family {
        Family::Windows => YEL@ + "win"@ + RST@,
        Family::Tool => DIM@ + "tool"@ + RST@,
        Family::Linux => GRN@ + "linux"@ + RST@,
    }
}

/// An entry for a person.
pub open spec fn entry_row(i: catalog::IsoView) -> Seq<char> {
    "  "@ + layout::left(i.id, 17) + " "@ + layout::left(i.name, 30) + " "@ + tag_text(i.family)
        + " "@ + DIM@ + i.note + RST@
}

fn tag_of(family: Family) -> (r: String)
    ensures
        r@ == tag_text(family),
{
    let mut s: String = match family {
        Family::Windows => YEL.to_owned(),
        Family::Tool => DIM.to_owned(),
        Family::Linux => GRN.to_owned(),
    };
    s.append(
        match family {
            Family::Windows => "win",
            Family::Tool => "tool",
            Family::Linux => "linux",
        },
    );
    s.append(RST);
    s
}

fn entry_line(i: &Iso) -> (r: String)
    ensures
        r@ == entry_row(i@),
{
    let mut s: String = "  ".to_owned();
    s.append(&layout::at_left(&i.id, 17));
    s.append(" ");
    s.append(&layout::at_left(&i.name, 30));
    s.append(" ");
    s.append(&tag_of(i.family));
    s.append(" ");
    s.append(DIM);
    s.append(&i.note);
    s.append(RST);
    s
}

/// The entries to be shown, for a person.
pub open spec fn entry_notes(v: Seq<catalog::IsoView>, f: FilterView) -> Seq<say::NoteView>
    decreases v.len(),
{
    if v.len() == 0 {
        seq![]
    } else if is_shown(v.last(), f) {
        entry_notes(v.drop_last(), f).push(say::NoteView::Plain(entry_row(v.last())))
    } else {
        entry_notes(v.drop_last(), f)
    }
}

pub open spec fn images_head() -> say::NoteView {
    say::NoteView::Plain(BOLD@ + "  id                name                           what"@ + RST@)
}

/// The list of images.
pub open spec fn images_report(
    v: Seq<catalog::IsoView>,
    f: FilterView,
    json: bool,
) -> Seq<say::NoteView> {
    if json {
        seq![say::NoteView::Event(images_event(v, f))]
    } else if entry_notes(v, f).len() == 0 {
        seq![images_head(), say::NoteView::Bad("nothing matches"@)]
    } else {
        seq![images_head()] + entry_notes(v, f) + seq![
            say::NoteView::Plain(""@),
            say::NoteView::Plain(
                DIM@
                    + "  arxburn iso <id>        resolve the newest build and show its link and hash"@,
            ),
            say::NoteView::Plain(
                "  arxburn get <id> --to sdc   download it, check it, and burn it"@ + RST@,
            ),
        ]
    }
}

/// The images that can be fetched.
pub fn list_images(v: &Vec<Iso>, f: &Filter, json: bool) -> (r: Vec<Note>)
    ensures
        say::notes_view(r@) == images_report(catalog::isos_view(v@), f@, json),
{
    if json {
        return one_note(Note::Event(tell_images(v, f)));
    }
    let ghost all = catalog::isos_view(v@);
    let mut head: String = BOLD.to_owned();
    head.append("  id                name                           what");
    head.append(RST);
    let mut notes: Vec<Note> = one_note(Note::Plain(head));
    let mut i: usize = 0;
    let mut shown: bool = false;
    assert(say::notes_view(notes@) =~= seq![images_head()] + entry_notes(all.take(0), f@));
    while i < v.len()
        invariant
            i <= v@.len(),
            all == catalog::isos_view(v@),
            shown == (entry_notes(all.take(i as int), f@).len() > 0),
            say::notes_view(notes@) == seq![images_head()] + entry_notes(all.take(i as int), f@),
        decreases v@.len() - i,
    {
        assert(all.take(i + 1).drop_last() =~= all.take(i as int));
        assert(all[i as int] == v@[i as int]@);
        if entry_wanted(&v[i], f) {
            add_note(&mut notes, Note::Plain(entry_line(&v[i])));
            shown = true;
        }
        i += 1;
        assert(say::notes_view(notes@) =~= seq![images_head()] + entry_notes(
            all.take(i as int),
            f@,
        ));
    }
    assert(all.take(i as int) =~= all);
    if !shown {
        add_note(&mut notes, Note::Bad("nothing matches".to_owned()));
        assert(say::notes_view(notes@) =~= images_report(all, f@, json));
        return notes;
    }
    let mut hint: String = DIM.to_owned();
    hint.append(
        "  arxburn iso <id>        resolve the newest build and show its link and hash",
    );
    let mut hint2: String =
        "  arxburn get <id> --to sdc   download it, check it, and burn it".to_owned();
    hint2.append(RST);
    add_note(&mut notes, Note::Plain("".to_owned()));
    add_note(&mut notes, Note::Plain(hint));
    add_note(&mut notes, Note::Plain(hint2));
    assert(say::notes_view(notes@) =~= images_report(all, f@, json));
    notes
}

/// The entry that an exact id asks for: that one is worth a live lookup.
pub fn asked_for(v: &Vec<Iso>, term: &Option<String>) -> (r: Option<usize>)
    ensures
        match r {
            Some(i) => term is Some && catalog::entry_from(
                catalog::isos_view(v@),
                term->0@,
                0,
            ) == Some(i as int) && i < v@.len(),
            None => term is Some ==> catalog::entry_from(catalog::isos_view(v@), term->0@, 0)
                is None,
        },
{
    match term {
        Some(t) => catalog::position_of(v, t),
        None => None,
    }
}

// ---- one image ------------------------------------------------------------------------------

/// What is said before an image is looked up.
pub open spec fn intro_report(i: catalog::IsoView, json: bool) -> Seq<say::NoteView> {
    if json {
        seq![]
    } else {
        seq![
            say::NoteView::Step(i.name + " ("@ + i.id + ")"@),
            say::NoteView::Plain("  "@ + DIM@ + i.note + RST@),
        ]
    }
}

pub fn introduce_image(i: &Iso, json: bool) -> (r: Vec<Note>)
    ensures
        say::notes_view(r@) == intro_report(i@, json),
{
    if json {
        return no_notes();
    }
    let mut a: String = i.name.clone();
    a.append(" (");
    a.append(&i.id);
    a.append(")");
    let mut b: String = "  ".to_owned();
    b.append(DIM);
    b.append(&i.note);
    b.append(RST);
    let mut notes: Vec<Note> = one_note(Note::Step(a));
    add_note(&mut notes, Note::Plain(b));
    assert(say::notes_view(notes@) =~= intro_report(i@, json));
    notes
}

/// An image that was looked up, for a program.
pub open spec fn image_event(
    i: catalog::IsoView,
    r: resolve::ResolvedView,
    size: Option<u64>,
) -> Seq<char> {
    json::object_text(
        seq![
            ("event"@, json::quoted("image"@)),
            ("id"@, json::quoted(i.id)),
            ("name"@, json::quoted(i.name)),
            ("filename"@, json::quoted(r.filename)),
            ("url"@, json::quoted(r.url)),
            ("size"@, json::maybe_number(size)),
            ("sha256"@, json::maybe_quoted(r.sha256)),
        ],
    )
}

fn tell_image(i: &Iso, r: &Resolved, size: Option<u64>) -> (s: String)
    ensures
        s@ == image_event(i@, r@, size),
{
    let mut f: Vec<json::Field> = Vec::new();
    f.push(("event", json::s("image")));
    f.push(("id", json::s(&i.id)));
    f.push(("name", json::s(&i.name)));
    f.push(("filename", json::s(&r.filename)));
    f.push(("url", json::s(&r.url)));
    f.push(("size", json::n_or_null(size)));
    f.push(("sha256", json::s_or_null(&r.sha256)));
    assert(json::fields_view(f@) =~= seq![
        ("event"@, json::quoted("image"@)),
        ("id"@, json::quoted(i.id@)),
        ("name"@, json::quoted(i.name@)),
        ("filename"@, json::quoted(r.filename@)),
        ("url"@, json::quoted(r.url@)),
        ("size"@, json::maybe_number(size)),
        ("sha256"@, json::maybe_quoted(r@.sha256)),
    ]);
    json::object(&f)
}

/// What is said of the published hash.
pub open spec fn hash_line(sha256: Option<Seq<char>>) -> Seq<char> {
    match sha256 {
        Some(h) => "     sha256 "@ + h + " "@ + DIM@ + "(published by the project)"@ + RST@,
        None => "     "@ + DIM@
            + "no published sha256; arxburn still verifies the stick against the file it downloaded"@
            + RST@,
    }
}

/// What is said of an image that was looked up, `size` being what its server says.
pub open spec fn image_report(
    i: catalog::IsoView,
    r: resolve::ResolvedView,
    size: Option<u64>,
    json: bool,
) -> Seq<say::NoteView> {
    if json {
        seq![say::NoteView::Event(image_event(i, r, size))]
    } else {
        let a = seq![
            say::NoteView::Good("newest: "@ + r.filename),
            say::NoteView::Plain("     "@ + r.url),
        ];
        let b = match size {
            Some(n) => a.push(say::NoteView::Plain("     size   "@ + dev::human_text(n))),
            None => a,
        };
        b.push(say::NoteView::Plain(hash_line(r.sha256))).push(say::NoteView::Plain(""@)).push(
            say::NoteView::Plain(
                "  "@ + BOLD@ + "arxburn get "@ + i.id + " --to <device>"@ + RST@,
            ),
        )
    }
}

fn hash_said(sha256: &Option<String>) -> (r: String)
    ensures
        r@ == hash_line(text::text_opt(*sha256)),
{
    match sha256 {
        Some(h) => {
            let mut s: String = "     sha256 ".to_owned();
            s.append(h);
            s.append(" ");
            s.append(DIM);
            s.append("(published by the project)");
            s.append(RST);
            s
        },
        None => {
            let mut s: String = "     ".to_owned();
            s.append(DIM);
            s.append(
                "no published sha256; arxburn still verifies the stick against the file it downloaded",
            );
            s.append(RST);
            s
        },
    }
}

pub fn describe_image(i: &Iso, r: &Resolved, size: Option<u64>, json: bool) -> (v: Vec<Note>)
    ensures
        say::notes_view(v@) == image_report(i@, r@, size, json),
{
    if json {
        return one_note(Note::Event(tell_image(i, r, size)));
    }
    let mut newest: String = "newest: ".to_owned();
    newest.append(&r.filename);
    let mut url: String = "     ".to_owned();
    url.append(&r.url);
    let mut notes: Vec<Note> = one_note(Note::Good(newest));
    add_note(&mut notes, Note::Plain(url));
    assert(say::notes_view(notes@) =~= seq![
        say::NoteView::Good("newest: "@ + r.filename@),
        say::NoteView::Plain("     "@ + r.url@),
    ]);
    if let Some(n) = size {
        let mut line: String = "     size   ".to_owned();
        line.append(&dev::human(n));
        add_note(&mut notes, Note::Plain(line));
    }
    add_note(&mut notes, Note::Plain(hash_said(&r.sha256)));
    add_note(&mut notes, Note::Plain("".to_owned()));
    let mut hint: String = "  ".to_owned();
    hint.append(BOLD);
    hint.append("arxburn get ");
    hint.append(&i.id);
    hint.append(" --to <device>");
    hint.append(RST);
    add_note(&mut notes, Note::Plain(hint));
    notes
}

/// What is listed, for a person and for a program alike, is exactly the entries that are of a family
/// asked for and about the term asked for, in the order of the catalog.
pub proof fn law_listed_is_what_was_asked_for(v: Seq<catalog::IsoView>, f: FilterView)
    ensures
        ({
            let shown = v.filter(|i: catalog::IsoView| is_shown(i, f));
            &&& entry_notes(v, f) == shown.map_values(
                |i: catalog::IsoView| say::NoteView::Plain(entry_row(i)),
            )
            &&& entry_objects(v, f) == shown.map_values(|i: catalog::IsoView| entry_object(i))
        }),
    decreases v.len(),
{
    reveal(Seq::filter);
    if v.len() > 0 {
        law_listed_is_what_was_asked_for(v.drop_last(), f);
    }
    let shown = v.filter(|i: catalog::IsoView| is_shown(i, f));
    assert(entry_notes(v, f) =~= shown.map_values(
        |i: catalog::IsoView| say::NoteView::Plain(entry_row(i)),
    ));
    assert(entry_objects(v, f) =~= shown.map_values(|i: catalog::IsoView| entry_object(i)));
}

/// An image is shown when it is of every family that was asked for alone, and the term, in capitals or
/// not, stands in its id, its name or its note; without anything asked for, every image is.
pub proof fn law_which_images_are_shown(i: catalog::IsoView, f: FilterView)
    ensures
        is_shown(i, f) <==> (f.windows ==> i.family is Windows) && (f.linux ==> i.family is Linux) && (
        f.tools ==> i.family is Tool) && (f.term is Some ==> exists|k: int|
            text::occurs_at(lowercase_of(i.id), lowercase_of(f.term->0), k) || text::occurs_at(
                lowercase_of(i.name),
                lowercase_of(f.term->0),
                k,
            ) || text::occurs_at(lowercase_of(i.note), lowercase_of(f.term->0), k)),
        !f.windows && !f.linux && !f.tools && f.term is None ==> is_shown(i, f),
{
    if let Some(t) = f.term {
        let w = lowercase_of(t);
        if text::contains(lowercase_of(i.id), w) {
            let k = choose|k: int| text::occurs_at(lowercase_of(i.id), w, k);
            assert(text::occurs_at(lowercase_of(i.id), w, k));
        } else if text::contains(lowercase_of(i.name), w) {
            let k = choose|k: int| text::occurs_at(lowercase_of(i.name), w, k);
            assert(text::occurs_at(lowercase_of(i.name), w, k));
        } else if text::contains(lowercase_of(i.note), w) {
            let k = choose|k: int| text::occurs_at(lowercase_of(i.note), w, k);
            assert(text::occurs_at(lowercase_of(i.note), w, k));
        }
    }
}

/// The system disk is called so before anything else, and a disk is called writable exactly when it is not
/// refused; where it is mounted is said with it.
pub proof fn law_what_is_said_of_a_disk(d: dev::DeviceView)
    ensures
        d.holds_root ==> kind_text(d) == "SYSTEM"@,
        !d.holds_root && d.removable ==> kind_text(d) == "removable"@,
        !d.holds_root && !d.removable ==> kind_text(d) == "internal"@,
        d.refusal(false) is Some ==> status_text(d) == RED@ + d.refusal(false)->0 + RST@,
        !d.holds_root && d.size > 0 && d.removable && d.mounts.len() == 0 ==> status_text(d) == GRN@
            + "writable"@ + RST@,
        !d.holds_root && d.size > 0 && d.removable && d.mounts.len() > 0 ==> status_text(d) == YEL@
            + "writable, mounted at "@ + text::join(d.mounts, ", "@) + RST@,
{
}

proof fn lemma_inside(all: Seq<char>, one: Seq<char>, part: Seq<char>)
    requires
        text::contains(all, one),
        text::contains(one, part),
    ensures
        text::contains(all, part),
{
    let at = choose|at: int| text::occurs_at(all, one, at);
    let inner = choose|i: int| text::occurs_at(one, part, i);
    let n = part.len() as int;
    assert forall|i: int| 0 <= i < n implies all.subrange(at + inner, at + inner + n)[i] == part[i] by {
        assert(one.subrange(inner, inner + n)[i] == part[i]);
        assert(all.subrange(at, at + one.len())[inner + i] == one[inner + i]);
    }
    assert(all.subrange(at + inner, at + inner + n) =~= part);
    assert(text::occurs_at(all, part, at + inner));
}

proof fn lemma_disk_in_event(v: Seq<dev::DeviceView>, k: int)
    requires
        0 <= k < v.len(),
    ensures
        text::contains(devices_event(v), device_object(v[k])),
{
    let items = device_objects(v);
    let list = json::list_text(items);
    let e = seq![("event"@, json::quoted("devices"@)), ("devices"@, list)];
    let name = json::quoted("devices"@) + seq![':'];
    let one = name + list;
    json::law_a_list_holds_its_items(items, k);
    json::law_a_written_field_is_there(e, 1);
    assert(one.subrange(name.len() as int, one.len() as int) =~= list);
    assert(text::occurs_at(one, list, name.len() as int));
    assert(items[k] == device_object(v[k]));
    lemma_inside(devices_event(v), one, list);
    lemma_inside(devices_event(v), list, items[k]);
}

/// The event about the disks says of each whether it is removable, whether it carries the system, and why
/// it would be refused with and without the flag for internal disks.
pub proof fn law_what_the_devices_event_says(v: Seq<dev::DeviceView>, k: int)
    requires
        0 <= k < v.len(),
    ensures
        ({
            let d = v[k];
            let o = device_object(d);
            &&& text::contains(devices_event(v), o)
            &&& json::has_field(o, "path"@, json::quoted(d.path))
            &&& json::has_field(o, "size"@, text::decimal(d.size as nat))
            &&& json::has_field(o, "removable"@, if d.removable {
                "true"@
            } else {
                "false"@
            })
            &&& json::has_field(o, "holds_root"@, if d.holds_root {
                "true"@
            } else {
                "false"@
            })
            &&& !d.holds_root && d.size > 0 && d.removable ==> json::has_field(o, "refusal"@, "null"@)
            &&& !d.holds_root && d.size > 0 ==> json::has_field(
                o,
                "refusal_internal_allowed"@,
                "null"@,
            )
            &&& d.refusal(false) is Some ==> json::has_field(
                o,
                "refusal"@,
                json::quoted(d.refusal(false)->0),
            )
        }),
{
    let d = v[k];
    let f = seq![
        ("name"@, json::quoted(d.name)),
        ("path"@, json::quoted(d.path)),
        ("size"@, text::decimal(d.size as nat)),
        ("size_human"@, json::quoted(dev::human_text(d.size))),
        ("model"@, json::quoted(d.model)),
        ("removable"@, json::truth(d.removable)),
        ("holds_root"@, json::truth(d.holds_root)),
        ("mounts"@, json::list_text(json::quoted_all(d.mounts))),
        ("refusal"@, json::maybe_quoted(d.refusal(false))),
        ("refusal_internal_allowed"@, json::maybe_quoted(d.refusal(true))),
    ];
    json::law_a_written_field_is_there(f, 1);
    json::law_a_written_field_is_there(f, 2);
    json::law_a_written_field_is_there(f, 5);
    json::law_a_written_field_is_there(f, 6);
    json::law_a_written_field_is_there(f, 8);
    json::law_a_written_field_is_there(f, 9);
    lemma_disk_in_event(v, k);
}

/// The event about an image says where its newest build is, under which name, how large it is and which
/// hash was published, and says so where one of the last two is not known.
pub proof fn law_what_the_image_event_says(
    i: catalog::IsoView,
    r: resolve::ResolvedView,
    size: Option<u64>,
)
    ensures
        ({
            let event = image_event(i, r, size);
            &&& json::has_field(event, "id"@, json::quoted(i.id))
            &&& json::has_field(event, "filename"@, json::quoted(r.filename))
            &&& json::has_field(event, "url"@, json::quoted(r.url))
            &&& size is Some ==> json::has_field(event, "size"@, text::decimal(size->0 as nat))
            &&& size is None ==> json::has_field(event, "size"@, "null"@)
            &&& r.sha256 is Some ==> json::has_field(event, "sha256"@, json::quoted(r.sha256->0))
            &&& r.sha256 is None ==> json::has_field(event, "sha256"@, "null"@)
        }),
{
    let f = seq![
        ("event"@, json::quoted("image"@)),
        ("id"@, json::quoted(i.id)),
        ("name"@, json::quoted(i.name)),
        ("filename"@, json::quoted(r.filename)),
        ("url"@, json::quoted(r.url)),
        ("size"@, json::maybe_number(size)),
        ("sha256"@, json::maybe_quoted(r.sha256)),
    ];
    json::law_a_written_field_is_there(f, 1);
    json::law_a_written_field_is_there(f, 3);
    json::law_a_written_field_is_there(f, 4);
    json::law_a_written_field_is_there(f, 5);
    json::law_a_written_field_is_there(f, 6);
}

} // verus!
