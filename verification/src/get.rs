//! Downloading an image and checking what landed on disk.

use vstd::prelude::*;
use vstd::string::*;

use crate::catalog;
use crate::catalog::Iso;
use crate::dev;
use crate::fetch;
use crate::json;
use crate::resolve;
use crate::resolve::Resolved;
use crate::say;
use crate::say::{add_note, no_notes, one_note, Note, BOLD, DIM, RST};
use crate::text;

verus! {

// ---- which image ----------------------------------------------------------------------------

/// How many entries have an id that holds `part`.
pub open spec fn holding(v: Seq<catalog::IsoView>, part: Seq<char>) -> nat
    decreases v.len(),
{
    if v.len() == 0 {
        0
    } else {
        holding(v.drop_last(), part) + if text::contains(v.last().id, part) {
            1nat
        } else {
            0nat
        }
    }
}

/// The last entry whose id holds `part`.
pub open spec fn last_holding(v: Seq<catalog::IsoView>, part: Seq<char>) -> Option<int>
    decreases v.len(),
{
    if v.len() == 0 {
        None
    } else if text::contains(v.last().id, part) {
        Some(v.len() - 1)
    } else {
        last_holding(v.drop_last(), part)
    }
}

/// The entry that `id` means: the one with that id, or else the only one whose id holds it.
pub open spec fn meant(v: Seq<catalog::IsoView>, id: Seq<char>) -> Option<int> {
    match catalog::entry_from(v, id, 0) {
        Some(i) => Some(i),
        None => if holding(v, id) == 1 {
            last_holding(v, id)
        } else {
            None
        },
    }
}

pub open spec fn no_image(id: Seq<char>) -> Seq<char> {
    "no image called '"@ + id + "' (see: arxburn iso)"@
}

/// The entry of the catalog that `id` means.
pub fn find_image(v: &Vec<Iso>, id: &str) -> (r: Result<usize, String>)
    ensures
        match r {
            Ok(i) => i < v@.len() && meant(catalog::isos_view(v@), id@) == Some(i as int),
            Err(e) => meant(catalog::isos_view(v@), id@) is None && e@ == no_image(id@),
        },
{
    if let Some(i) = catalog::position_of(v, id) {
        return Ok(i);
    }
    let ghost all = catalog::isos_view(v@);
    let part: Vec<char> = text::chars_of(id);
    let mut count: usize = 0;
    let mut last: Option<usize> = None;
    let mut i: usize = 0;
    while i < v.len()
        invariant
            i <= v@.len(),
            all == catalog::isos_view(v@),
            part@ == id@,
            count <= i,
            count == holding(all.take(i as int), id@),
            match last {
                Some(k) => k < i && last_holding(all.take(i as int), id@) == Some(k as int),
                None => last_holding(all.take(i as int), id@) is None && count == 0,
            },
        decreases v@.len() - i,
    {
        assert(all.take(i + 1).drop_last() =~= all.take(i as int));
        assert(all[i as int] == v@[i as int]@);
        if text::holds(&text::chars_of(&v[i].id), &part) {
            count += 1;
            last = Some(i);
        }
        i += 1;
    }
    assert(all.take(i as int) =~= all);
    if count == 1 {
        if let Some(k) = last {
            return Ok(k);
        }
    }
    let mut e: String = "no image called '".to_owned();
    e.append(id);
    e.append("' (see: arxburn iso)");
    Err(e)
}

// ---- what is said on the way ----------------------------------------------------------------

pub fn introduce(i: &Iso) -> (r: Note)
    ensures
        r@ == say::NoteView::Step(i.name@ + " ("@ + i.id@ + ")"@),
{
    let mut s: String = i.name.clone();
    s.append(" (");
    s.append(&i.id);
    s.append(")");
    Note::Step(s)
}

pub open spec fn newest_report(r: resolve::ResolvedView) -> Seq<say::NoteView> {
    seq![
        say::NoteView::Good("newest is "@ + r.filename),
        say::NoteView::Plain("     "@ + r.url),
        say::NoteView::Step("asking the mirror how big it is"@),
    ]
}

pub fn tell_newest(r: &Resolved) -> (v: Vec<Note>)
    ensures
        say::notes_view(v@) == newest_report(r@),
{
    let mut a: String = "newest is ".to_owned();
    a.append(&r.filename);
    let mut b: String = "     ".to_owned();
    b.append(&r.url);
    let mut notes: Vec<Note> = one_note(Note::Good(a));
    add_note(&mut notes, Note::Plain(b));
    add_note(&mut notes, Note::Step("asking the mirror how big it is".to_owned()));
    assert(say::notes_view(notes@) =~= newest_report(r@));
    notes
}

/// The size that a probe found, if it found one.
pub open spec fn probed_size(p: fetch::Probe) -> Option<u64> {
    if p.size > 0 {
        Some(p.size)
    } else {
        None
    }
}

pub fn stated_size(p: &fetch::Probe) -> (r: Option<u64>)
    ensures
        r == probed_size(*p),
{
    if p.size > 0 {
        Some(p.size)
    } else {
        None
    }
}

pub open spec fn size_event(n: u64) -> Seq<char> {
    json::object_text(
        seq![("event"@, json::quoted("size"@)), ("bytes"@, text::decimal(n as nat))],
    )
}

pub open spec fn size_report(size: Option<u64>) -> Seq<say::NoteView> {
    match size {
        Some(n) => seq![
            say::NoteView::Plain("     "@ + dev::human_text(n)),
            say::NoteView::Event(size_event(n)),
        ],
        None => seq![
            say::NoteView::Step("the mirror did not say; the download will report its own size"@),
        ],
    }
}

pub fn tell_size(size: Option<u64>) -> (v: Vec<Note>)
    ensures
        say::notes_view(v@) == size_report(size),
{
    match size {
        Some(n) => {
            let mut a: String = "     ".to_owned();
            a.append(&dev::human(n));
            let mut f: Vec<json::Field> = Vec::new();
            f.push(("event", json::s("size")));
            f.push(("bytes", json::n(n)));
            assert(json::fields_view(f@) =~= seq![
                ("event"@, json::quoted("size"@)),
                ("bytes"@, text::decimal(n as nat)),
            ]);
            let mut notes: Vec<Note> = one_note(Note::Plain(a));
            add_note(&mut notes, Note::Event(json::object(&f)));
            assert(say::notes_view(notes@) =~= size_report(size));
            notes
        },
        None => one_note(
            Note::Step(
                "the mirror did not say; the download will report its own size".to_owned(),
            ),
        ),
    }
}

// ---- what is here already -------------------------------------------------------------------

/// A file of that name that is here already.
pub struct Local {
    /// Its hash and length, when it could be read.
    pub hashed: Option<(String, u64)>,
    /// Its length, when that could be read.
    pub len: Option<u64>,
}

pub struct LocalView {
    pub hashed: Option<(Seq<char>, u64)>,
    pub len: Option<u64>,
}

impl View for Local {
    type V = LocalView;

    open spec fn view(&self) -> LocalView {
        LocalView {
            hashed: match self.hashed {
                Some((h, n)) => Some((h@, n)),
                None => None,
            },
            len: self.len,
        }
    }
}

/// The file is as long as the one on the mirror, and no record beside it says that it was never
/// finished: a download over many connections gives its file the full length at once.
pub open spec fn looks_whole(local: LocalView, remote: Option<u64>, unfinished: bool) -> bool {
    !unfinished && remote is Some && local.len == remote
}

/// The file that is here does not have to be downloaded again: it has the published hash, or, when
/// the two cannot be compared, it looks whole.
pub open spec fn kept(
    local: LocalView,
    published: Option<Seq<char>>,
    remote: Option<u64>,
    unfinished: bool,
) -> bool {
    match (published, local.hashed) {
        (Some(expect), Some((got, _))) => got == expect,
        _ => looks_whole(local, remote, unfinished),
    }
}

/// One connection can go on from the end of the file: it is the beginning of the one on the mirror,
/// as far as its length and its hash tell. A file with a record beside it has gaps.
pub open spec fn is_beginning(
    local: LocalView,
    published: Option<Seq<char>>,
    remote: Option<u64>,
    unfinished: bool,
) -> bool {
    !unfinished && match remote {
        Some(n) => local.len matches Some(len) && len < n,
        None => published is None || local.hashed is None,
    }
}

pub open spec fn kept_report(
    dest: Seq<char>,
    local: LocalView,
    published: Option<Seq<char>>,
    remote: Option<u64>,
    unfinished: bool,
) -> Seq<say::NoteView> {
    match (published, local.hashed) {
        (Some(expect), Some((got, len))) => if got == expect {
            seq![
                say::NoteView::Good(
                    "already downloaded and verified: "@ + dest + " ("@ + dev::human_text(len)
                        + ")"@,
                ),
            ]
        } else {
            seq![
                say::NoteView::Bad(
                    "a file of that name is here but its hash is wrong; downloading again"@,
                ),
            ]
        },
        _ => if looks_whole(local, remote, unfinished) {
            seq![say::NoteView::Good("already downloaded (full length): "@ + dest)]
        } else {
            seq![]
        },
    }
}

fn by_length(dest: &str, local: &Local, remote: Option<u64>, unfinished: bool) -> (r: (
    bool,
    Vec<Note>,
))
    ensures
        r.0 == looks_whole(local@, remote, unfinished),
        say::notes_view(r.1@) == (if looks_whole(local@, remote, unfinished) {
            seq![say::NoteView::Good("already downloaded (full length): "@ + dest@)]
        } else {
            seq![]
        }),
{
    let full: bool = match (local.len, remote) {
        (Some(a), Some(b)) => a == b,
        _ => false,
    };
    if full && !unfinished {
        let mut s: String = "already downloaded (full length): ".to_owned();
        s.append(dest);
        (true, one_note(Note::Good(s)))
    } else {
        (false, no_notes())
    }
}

/// Whether the file that is here can be kept, and what is said about it. An image already here and
/// already correct is not downloaded again. `unfinished` is whether the record of an interrupted
/// download lies beside it.
pub fn keep(
    dest: &str,
    local: &Local,
    published: &Option<String>,
    remote: Option<u64>,
    unfinished: bool,
) -> (r: (bool, Vec<Note>))
    ensures
        r.0 == kept(local@, text::text_opt(*published), remote, unfinished),
        say::notes_view(r.1@) == kept_report(
            dest@,
            local@,
            text::text_opt(*published),
            remote,
            unfinished,
        ),
{
    match published {
        Some(expect) => match &local.hashed {
            Some((got, len)) => if text::same_str(&text::chars_of(got), expect) {
                let mut s: String = "already downloaded and verified: ".to_owned();
                s.append(dest);
                s.append(" (");
                s.append(&dev::human(*len));
                s.append(")");
                (true, one_note(Note::Good(s)))
            } else {
                (
                    false,
                    one_note(
                        Note::Bad(
                            "a file of that name is here but its hash is wrong; downloading again".to_owned(),
                        ),
                    ),
                )
            },
            None => by_length(dest, local, remote, unfinished),
        },
        None => by_length(dest, local, remote, unfinished),
    }
}

/// Whether one connection can go on from the end of the file.
pub fn can_go_on(
    local: &Local,
    published: &Option<String>,
    remote: Option<u64>,
    unfinished: bool,
) -> (r: bool)
    ensures
        r == is_beginning(local@, text::text_opt(*published), remote, unfinished),
{
    let shorter: bool = match remote {
        Some(n) => match local.len {
            Some(len) => len < n,
            None => false,
        },
        None => published.is_none() || local.hashed.is_none(),
    };
    !unfinished && shorter
}

// ---- downloading ----------------------------------------------------------------------------

pub open spec fn download_event(url: Seq<char>, dest: Seq<char>, size: Option<u64>) -> Seq<char> {
    json::object_text(
        seq![
            ("event"@, json::quoted("download"@)),
            ("url"@, json::quoted(url)),
            ("dest"@, json::quoted(dest)),
            ("size"@, json::maybe_number(size)),
        ],
    )
}

pub open spec fn download_report(url: Seq<char>, dest: Seq<char>, size: Option<u64>) -> Seq<
    say::NoteView,
> {
    seq![
        say::NoteView::Step("downloading to "@ + dest),
        say::NoteView::Event(download_event(url, dest, size)),
    ]
}

pub fn tell_download(url: &str, dest: &str, size: Option<u64>) -> (v: Vec<Note>)
    ensures
        say::notes_view(v@) == download_report(url@, dest@, size),
{
    let mut a: String = "downloading to ".to_owned();
    a.append(dest);
    let mut f: Vec<json::Field> = Vec::new();
    f.push(("event", json::s("download")));
    f.push(("url", json::s(url)));
    f.push(("dest", json::s(dest)));
    f.push(("size", json::n_or_null(size)));
    assert(json::fields_view(f@) =~= seq![
        ("event"@, json::quoted("download"@)),
        ("url"@, json::quoted(url@)),
        ("dest"@, json::quoted(dest@)),
        ("size"@, json::maybe_number(size)),
    ]);
    let mut notes: Vec<Note> = one_note(Note::Step(a));
    add_note(&mut notes, Note::Event(json::object(&f)));
    assert(say::notes_view(notes@) =~= download_report(url@, dest@, size));
    notes
}

/// How many connections there will be: so many on each network, or on the one that the system
/// chooses.
pub open spec fn connections(nets: nat, streams: nat) -> nat {
    streams * (if nets == 0 {
        1
    } else {
        nets
    })
}

pub open spec fn engine_report(nets: Seq<Seq<char>>, streams: nat) -> Seq<say::NoteView> {
    seq![
        say::NoteView::Step("fetching over "@ + fetch::description(nets, streams)),
        say::NoteView::Event(
            json::object_text(
                seq![
                    ("event"@, json::quoted("engine"@)),
                    ("connections"@, text::decimal(connections(nets.len(), streams))),
                    ("networks"@, json::list_text(json::quoted_all(nets))),
                ],
            ),
        ),
    ]
}

pub fn tell_engine(nets: &Vec<String>, streams: usize) -> (v: Vec<Note>)
    requires
        nets@.len() * streams <= usize::MAX,
    ensures
        say::notes_view(v@) == engine_report(text::strings(nets@), streams as nat),
{
    let mut a: String = "fetching over ".to_owned();
    a.append(&fetch::describe(nets, streams));
    let n: usize = if nets.len() == 0 {
        streams
    } else {
        assert(nets@.len() * streams == streams * nets@.len()) by (nonlinear_arith);
        streams * nets.len()
    };
    let mut f: Vec<json::Field> = Vec::new();
    f.push(("event", json::s("engine")));
    f.push(("connections", json::n(n as u64)));
    f.push(("networks", json::strs(nets)));
    assert(json::fields_view(f@) =~= seq![
        ("event"@, json::quoted("engine"@)),
        ("connections"@, text::decimal(connections(nets@.len(), streams as nat))),
        ("networks"@, json::list_text(json::quoted_all(text::strings(nets@)))),
    ]);
    let mut notes: Vec<Note> = one_note(Note::Step(a));
    add_note(&mut notes, Note::Event(json::object(&f)));
    assert(say::notes_view(notes@) =~= engine_report(text::strings(nets@), streams as nat));
    notes
}

/// The many connections did not work out.
pub fn fall_back(e: &str) -> (r: Note)
    ensures
        r@ == say::NoteView::Bad(e@ + "\n     falling back to a single connection"@),
{
    let mut s: String = e.to_owned();
    s.append("\n     falling back to a single connection");
    Note::Bad(s)
}

/// The total, when headers that came with the transfer announce so many bytes and `already` were on
/// disk before: the headers of a resumed download describe the remaining bytes.
pub fn late_total(announced: u64, already: u64) -> (r: u64)
    requires
        announced + already <= u64::MAX,
    ensures
        r == announced + already,
{
    announced + already
}

// ---- what landed ----------------------------------------------------------------------------

/// What landed on disk is what the project published, as far as it published anything.
pub open spec fn genuine(published: Option<Seq<char>>, got: Seq<char>) -> bool {
    match published {
        Some(expect) => expect == got,
        None => true,
    }
}

pub open spec fn landed_report(
    dest: Seq<char>,
    published: Option<Seq<char>>,
    got: Seq<char>,
    len: u64,
) -> Seq<say::NoteView> {
    let a = seq![say::NoteView::Plain("     "@ + dev::human_text(len) + " "@ + dest)];
    match published {
        Some(expect) => if expect == got {
            a.push(
                say::NoteView::Good(
                    "sha256 matches the project's published hash\n     "@ + got,
                ),
            )
        } else {
            a.push(
                say::NoteView::Bad(
                    "DOWNLOAD IS NOT WHAT THE PROJECT PUBLISHED\n     published "@ + expect
                        + "\n     downloaded "@ + got
                        + "\n     delete it and try another mirror"@,
                ),
            )
        },
        None => a.push(say::NoteView::Good("sha256 "@ + got)).push(
            say::NoteView::Plain(
                "  "@ + DIM@
                    + "this project publishes no checksum next to the image; compare it with their site if you can"@
                    + RST@,
            ),
        ),
    }
}

/// Whether to go on with what landed on disk, and what is said about it.
pub fn judge(dest: &str, published: &Option<String>, got: &str, len: u64) -> (r: (bool, Vec<Note>))
    ensures
        r.0 == genuine(text::text_opt(*published), got@),
        say::notes_view(r.1@) == landed_report(dest@, text::text_opt(*published), got@, len),
{
    let mut a: String = "     ".to_owned();
    a.append(&dev::human(len));
    a.append(" ");
    a.append(dest);
    let mut notes: Vec<Note> = one_note(Note::Plain(a));
    match published {
        Some(expect) => if text::same_str(&text::chars_of(expect), got) {
            let mut s: String = "sha256 matches the project's published hash\n     ".to_owned();
            s.append(got);
            add_note(&mut notes, Note::Good(s));
            (true, notes)
        } else {
            let mut s: String =
                "DOWNLOAD IS NOT WHAT THE PROJECT PUBLISHED\n     published ".to_owned();
            s.append(expect);
            s.append("\n     downloaded ");
            s.append(got);
            s.append("\n     delete it and try another mirror");
            add_note(&mut notes, Note::Bad(s));
            (false, notes)
        },
        None => {
            let mut s: String = "sha256 ".to_owned();
            s.append(got);
            let mut t: String = "  ".to_owned();
            t.append(DIM);
            t.append(
                "this project publishes no checksum next to the image; compare it with their site if you can",
            );
            t.append(RST);
            add_note(&mut notes, Note::Good(s));
            add_note(&mut notes, Note::Plain(t));
            (true, notes)
        },
    }
}

pub open spec fn ready_report(dest: Seq<char>, len: u64) -> Seq<say::NoteView> {
    seq![
        say::NoteView::Event(
            json::object_text(
                seq![
                    ("event"@, json::quoted("ready"@)),
                    ("path"@, json::quoted(dest)),
                    ("bytes"@, text::decimal(len as nat)),
                ],
            ),
        ),
        say::NoteView::Plain(""@),
        say::NoteView::Plain(
            "  "@ + BOLD@ + "arxburn write "@ + dest + " --to <device>"@ + RST@
                + "   (arxburn list shows the devices)"@,
        ),
    ]
}

/// The image is here and nothing more was wanted.
pub fn tell_ready(dest: &str, len: u64) -> (v: Vec<Note>)
    ensures
        say::notes_view(v@) == ready_report(dest@, len),
{
    let mut f: Vec<json::Field> = Vec::new();
    f.push(("event", json::s("ready")));
    f.push(("path", json::s(dest)));
    f.push(("bytes", json::n(len)));
    assert(json::fields_view(f@) =~= seq![
        ("event"@, json::quoted("ready"@)),
        ("path"@, json::quoted(dest@)),
        ("bytes"@, text::decimal(len as nat)),
    ]);
    let mut s: String = "  ".to_owned();
    s.append(BOLD);
    s.append("arxburn write ");
    s.append(dest);
    s.append(" --to <device>");
    s.append(RST);
    s.append("   (arxburn list shows the devices)");
    let mut notes: Vec<Note> = one_note(Note::Event(json::object(&f)));
    add_note(&mut notes, Note::Plain("".to_owned()));
    add_note(&mut notes, Note::Plain(s));
    assert(say::notes_view(notes@) =~= ready_report(dest@, len));
    notes
}

// ---- laws -----------------------------------------------------------------------------------

/// A file that is kept for its hash would be judged genuine: what is not downloaded again needs no
/// downloading again.
pub proof fn law_what_is_kept_for_its_hash_is_genuine(
    local: LocalView,
    published: Option<Seq<char>>,
    remote: Option<u64>,
    unfinished: bool,
)
    requires
        local.hashed is Some,
        published is Some,
    ensures
        kept(local, published, remote, unfinished) == genuine(published, (local.hashed->0).0),
{
}

proof fn lemma_holding(v: Seq<catalog::IsoView>, part: Seq<char>)
    ensures
        holding(v, part) == 0 <==> forall|i: int|
            0 <= i < v.len() ==> !text::contains((#[trigger] v[i]).id, part),
        match last_holding(v, part) {
            Some(k) => 0 <= k < v.len() && text::contains(v[k].id, part) && (holding(v, part) == 1
                <==> forall|i: int|
                0 <= i < v.len() && text::contains((#[trigger] v[i]).id, part) ==> i == k),
            None => holding(v, part) == 0,
        },
    decreases v.len(),
{
    if v.len() > 0 {
        let w = v.drop_last();
        lemma_holding(w, part);
        assert(forall|i: int| 0 <= i < w.len() ==> w[i] == v[i]);
        assert(v[v.len() - 1] == v.last());
        if holding(w, part) == 0 {
            assert forall|i: int| 0 <= i < w.len() implies !text::contains((#[trigger] v[i]).id, part) by {
                assert(!text::contains(w[i].id, part));
            }
        } else if text::contains(v.last().id, part) {
            let k = last_holding(w, part)->0;
            assert(text::contains(v[k].id, part));
        } else {
            let k = last_holding(w, part)->0;
            assert(text::contains(v[k].id, part));
            if holding(w, part) == 1 {
                assert forall|i: int|
                    0 <= i < v.len() && text::contains((#[trigger] v[i]).id, part) implies i == k by {
                    assert(w[i] == v[i]);
                }
            } else if forall|i: int|
                0 <= i < v.len() && text::contains((#[trigger] v[i]).id, part) ==> i == k {
                assert forall|i: int|
                    0 <= i < w.len() && text::contains((#[trigger] w[i]).id, part) implies i == k by {
                    assert(text::contains(v[i].id, part));
                }
            }
        }
    }
}

/// A part of an id is enough when no other id holds it, and is never taken to mean one of several.
pub proof fn law_a_part_of_an_id_must_be_clear(v: Seq<catalog::IsoView>, part: Seq<char>, k: int)
    requires
        catalog::entry_from(v, part, 0) is None,
        0 <= k < v.len(),
        text::contains(v[k].id, part),
    ensures
        meant(v, part) == (if forall|i: int|
            0 <= i < v.len() && text::contains((#[trigger] v[i]).id, part) ==> i == k {
            Some(k)
        } else {
            None
        }),
{
    lemma_holding(v, part);
    if holding(v, part) == 1 {
        let j = last_holding(v, part)->0;
        assert(j == k);
    } else if forall|i: int|
        0 <= i < v.len() && text::contains((#[trigger] v[i]).id, part) ==> i == k {
        let j = last_holding(v, part)->0;
        assert(j == k);
    }
}

/// An image is found by its whole id before anything else. A part of an id finds the one image that has
/// it, and none when several or none have.
pub proof fn law_an_image_is_found_by_its_id(v: Seq<catalog::IsoView>, id: Seq<char>, k: int)
    requires
        0 <= k < v.len(),
    ensures
        v[k].id == id && (forall|i: int| 0 <= i < k ==> (#[trigger] v[i]).id != id) ==> meant(v, id)
            == Some(k),
        (forall|i: int| 0 <= i < v.len() ==> (#[trigger] v[i]).id != id) && text::contains(v[k].id, id)
            && (forall|i: int|
            0 <= i < v.len() && text::contains((#[trigger] v[i]).id, id) ==> i == k) ==> meant(v, id)
            == Some(k),
        forall|j: int|
            (forall|i: int| 0 <= i < v.len() ==> (#[trigger] v[i]).id != id) && 0 <= j < v.len() && j != k
                && text::contains(v[k].id, id) && text::contains((#[trigger] v[j]).id, id) ==> meant(v, id)
                is None,
        (forall|i: int| 0 <= i < v.len() ==> !text::contains((#[trigger] v[i]).id, id)) ==> meant(v, id)
            is None,
{
    if v[k].id == id && (forall|i: int| 0 <= i < k ==> (#[trigger] v[i]).id != id) {
        lemma_found_at(v, id, 0, k);
    }
    if forall|i: int| 0 <= i < v.len() ==> (#[trigger] v[i]).id != id {
        lemma_not_found(v, id, 0);
        if text::contains(v[k].id, id) {
            law_a_part_of_an_id_must_be_clear(v, id, k);
        }
    }
    if forall|i: int| 0 <= i < v.len() ==> !text::contains((#[trigger] v[i]).id, id) {
        assert forall|i: int| 0 <= i < v.len() implies (#[trigger] v[i]).id != id by {
            if v[i].id == id {
                assert(id.subrange(0, id.len() as int) =~= id);
                assert(text::occurs_at(id, id, 0));
                assert(text::contains(v[i].id, id));
            }
        }
        lemma_not_found(v, id, 0);
        lemma_none_holds(v, id);
    }
}

proof fn lemma_none_holds(v: Seq<catalog::IsoView>, part: Seq<char>)
    requires
        forall|i: int| 0 <= i < v.len() ==> !text::contains((#[trigger] v[i]).id, part),
    ensures
        holding(v, part) == 0,
    decreases v.len(),
{
    if v.len() > 0 {
        assert forall|i: int| 0 <= i < v.drop_last().len() implies !text::contains(
            (#[trigger] v.drop_last()[i]).id,
            part,
        ) by {
            assert(v.drop_last()[i] == v[i]);
        }
        lemma_none_holds(v.drop_last(), part);
        assert(v.last() == v[v.len() - 1]);
    }
}

proof fn lemma_found_at(v: Seq<catalog::IsoView>, id: Seq<char>, i: int, k: int)
    requires
        0 <= i <= k < v.len(),
        v[k].id == id,
        forall|j: int| i <= j < k ==> (#[trigger] v[j]).id != id,
    ensures
        catalog::entry_from(v, id, i) == Some(k),
    decreases k - i,
{
    if i < k {
        lemma_found_at(v, id, i + 1, k);
    }
}

proof fn lemma_not_found(v: Seq<catalog::IsoView>, id: Seq<char>, i: int)
    requires
        0 <= i,
        forall|j: int| i <= j < v.len() ==> (#[trigger] v[j]).id != id,
    ensures
        catalog::entry_from(v, id, i) is None,
    decreases v.len() - i,
{
    if i < v.len() {
        lemma_not_found(v, id, i + 1);
    }
}

/// What is here already is kept without downloading it again when it has the published hash; where no
/// hash was published, or the file could not be hashed, only when it has its full length and no
/// unfinished download is on record. A size of zero is no size.
pub proof fn law_what_is_kept(
    local: LocalView,
    published: Option<Seq<char>>,
    probe: fetch::Probe,
    unfinished: bool,
)
    ensures
        published is Some && local.hashed is Some ==> (kept(
            local,
            published,
            probed_size(probe),
            unfinished,
        ) <==> (local.hashed->0).0 == published->0),
        published is None || local.hashed is None ==> (kept(
            local,
            published,
            probed_size(probe),
            unfinished,
        ) <==> !unfinished && probe.size > 0 && local.len == Some(probe.size)),
{
}

/// The events of a download say what is fetched and where it goes, how large it is when that is known,
/// over how many connections, and where the image lies when it is there.
pub proof fn law_what_the_events_of_a_download_say(
    url: Seq<char>,
    dest: Seq<char>,
    size: Option<u64>,
    nets: Seq<Seq<char>>,
    streams: nat,
    len: u64,
)
    ensures
        ({
            let begun = download_event(url, dest, size);
            &&& json::has_field(begun, "url"@, json::quoted(url))
            &&& json::has_field(begun, "dest"@, json::quoted(dest))
            &&& size is None ==> json::has_field(begun, "size"@, "null"@)
            &&& size is Some ==> json::has_field(begun, "size"@, text::decimal(size->0 as nat))
        }),
        nets.len() > 0 ==> json::has_field(
            engine_report(nets, streams)[1]->Event_0,
            "connections"@,
            text::decimal(nets.len() * streams),
        ),
        nets.len() == 0 ==> json::has_field(
            engine_report(nets, streams)[1]->Event_0,
            "connections"@,
            text::decimal(streams),
        ),
        json::has_field(size_event(len), "bytes"@, text::decimal(len as nat)),
        json::has_field(ready_report(dest, len)[0]->Event_0, "path"@, json::quoted(dest)),
        json::has_field(ready_report(dest, len)[0]->Event_0, "bytes"@, text::decimal(len as nat)),
{
    let f = seq![
        ("event"@, json::quoted("download"@)),
        ("url"@, json::quoted(url)),
        ("dest"@, json::quoted(dest)),
        ("size"@, json::maybe_number(size)),
    ];
    json::law_a_written_field_is_there(f, 1);
    json::law_a_written_field_is_there(f, 2);
    json::law_a_written_field_is_there(f, 3);
    let g = seq![
        ("event"@, json::quoted("engine"@)),
        ("connections"@, text::decimal(connections(nets.len(), streams))),
        ("networks"@, json::list_text(json::quoted_all(nets))),
    ];
    json::law_a_written_field_is_there(g, 1);
    assert(streams * nets.len() == nets.len() * streams) by (nonlinear_arith);
    let h = seq![("event"@, json::quoted("size"@)), ("bytes"@, text::decimal(len as nat))];
    json::law_a_written_field_is_there(h, 1);
    let r = seq![
        ("event"@, json::quoted("ready"@)),
        ("path"@, json::quoted(dest)),
        ("bytes"@, text::decimal(len as nat)),
    ];
    json::law_a_written_field_is_there(r, 1);
    json::law_a_written_field_is_there(r, 2);
}

} // verus!
