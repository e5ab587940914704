//! Getting an image: finding its newest build, downloading it unless it is here already, checking
//! what landed on disk, and handing it on to be burned.
//!
//! As with a burn, what is asked for and in which order is decided here, one turn at a time.

use vstd::prelude::*;
use vstd::string::*;

use crate::catalog;
use crate::catalog::Iso;
use crate::fetch;
use crate::fetch::Probe;
use crate::get;
use crate::get::Local;
use crate::resolve;
use crate::resolve::Resolved;
use crate::say;
use crate::say::{add_note, no_notes, one_note, Note};
use crate::text;

verus! {

/// What to get, and how.
pub struct Wish {
    /// The image, by its id or a part of it.
    pub id: Option<String>,
    /// Where downloads land.
    pub out: Option<String>,
    /// The device to burn it to.
    pub to: Option<String>,
    /// Use one connection only.
    pub single: bool,
    /// How many connections to open on each network.
    pub streams: Option<String>,
}

pub struct WishView {
    pub id: Option<Seq<char>>,
    pub out: Option<Seq<char>>,
    pub to: Option<Seq<char>>,
    pub single: bool,
    pub streams: Option<Seq<char>>,
}

impl View for Wish {
    type V = WishView;

    open spec fn view(&self) -> WishView {
        WishView {
            id: text::text_opt(self.id),
            out: text::text_opt(self.out),
            to: text::text_opt(self.to),
            single: self.single,
            streams: text::text_opt(self.streams),
        }
    }
}

/// What a turn asks for.
pub enum Task {
    /// Find the newest build of this entry of the catalog.
    Resolve(usize),
    /// Ask for one byte at this address.
    Probe(String),
    /// See whether this directory is there, and whether a file of this name is in it.
    Look { dir: String, name: String },
    /// Download over so many connections on each network.
    Parallel { url: String, dest: String, size: u64, streams: usize },
    /// Download over one connection, going on from the end of the file that is there. With `anew` it
    /// begins from nothing, in a file of its own, which takes the place of the one that is there, and
    /// of any record beside it, once it is whole: until then nothing that was fetched is lost.
    Single { url: String, dest: String, size: u64, anew: bool },
    /// Hash what landed on disk.
    Hash(String),
    /// Burn it; this is its hash.
    Burn { image: String, target: String, hash: String },
    /// It is over, and whether it went well.
    End(bool),
}

pub enum TaskView {
    Resolve(int),
    Probe(Seq<char>),
    Look { dir: Seq<char>, name: Seq<char> },
    Parallel { url: Seq<char>, dest: Seq<char>, size: u64, streams: usize },
    Single { url: Seq<char>, dest: Seq<char>, size: u64, anew: bool },
    Hash(Seq<char>),
    Burn { image: Seq<char>, target: Seq<char>, hash: Seq<char> },
    End(bool),
}

impl View for Task {
    type V = TaskView;

    open spec fn view(&self) -> TaskView {
        match self {
            Task::Resolve(i) => TaskView::Resolve(*i as int),
            Task::Probe(u) => TaskView::Probe(u@),
            Task::Look { dir, name } => TaskView::Look { dir: dir@, name: name@ },
            Task::Parallel { url, dest, size, streams } => TaskView::Parallel {
                url: url@,
                dest: dest@,
                size: *size,
                streams: *streams,
            },
            Task::Single { url, dest, size, anew } => TaskView::Single {
                url: url@,
                dest: dest@,
                size: *size,
                anew: *anew,
            },
            Task::Hash(d) => TaskView::Hash(d@),
            Task::Burn { image, target, hash } => TaskView::Burn {
                image: image@,
                target: target@,
                hash: hash@,
            },
            Task::End(ok) => TaskView::End(*ok),
        }
    }
}

/// How far it has come.
pub enum Phase {
    Resolving,
    Probing { found: Resolved },
    Looking { found: Resolved, probe: Probe },
    Trying { found: Resolved, dest: String, size: u64 },
    Fetching { found: Resolved, dest: String },
    Checking { found: Resolved, dest: String },
    Over,
}

pub enum PhaseView {
    Resolving,
    Probing { found: resolve::ResolvedView },
    Looking { found: resolve::ResolvedView, probe: Probe },
    Trying { found: resolve::ResolvedView, dest: Seq<char>, size: u64 },
    Fetching { found: resolve::ResolvedView, dest: Seq<char> },
    Checking { found: resolve::ResolvedView, dest: Seq<char> },
    Over,
}

impl View for Phase {
    type V = PhaseView;

    open spec fn view(&self) -> PhaseView {
        match self {
            Phase::Resolving => PhaseView::Resolving,
            Phase::Probing { found } => PhaseView::Probing { found: found@ },
            Phase::Looking { found, probe } => PhaseView::Looking { found: found@, probe: *probe },
            Phase::Trying { found, dest, size } => PhaseView::Trying {
                found: found@,
                dest: dest@,
                size: *size,
            },
            Phase::Fetching { found, dest } => PhaseView::Fetching { found: found@, dest: dest@ },
            Phase::Checking { found, dest } => PhaseView::Checking { found: found@, dest: dest@ },
            Phase::Over => PhaseView::Over,
        }
    }
}

/// What is said, what is asked for, and how far it has come.
pub struct Move {
    pub notes: Vec<Note>,
    pub task: Task,
    pub phase: Phase,
}

pub struct MoveView {
    pub notes: Seq<say::NoteView>,
    pub task: TaskView,
    pub phase: PhaseView,
}

impl View for Move {
    type V = MoveView;

    open spec fn view(&self) -> MoveView {
        MoveView {
            notes: say::notes_view(self.notes@),
            task: self.task@,
            phase: self.phase@,
        }
    }
}

/// A directory that is there.
pub struct Place {
    /// Where the download goes, as it is shown.
    pub dest: String,
    /// The file that is there already, if one is.
    pub local: Option<Local>,
    /// The record of a download that was not finished lies beside it.
    pub record: bool,
    /// The networks that are up.
    pub nets: Vec<String>,
}

pub struct PlaceView {
    pub dest: Seq<char>,
    pub local: Option<get::LocalView>,
    pub record: bool,
    pub nets: Seq<Seq<char>>,
}

impl View for Place {
    type V = PlaceView;

    open spec fn view(&self) -> PlaceView {
        PlaceView {
            dest: self.dest@,
            local: match self.local {
                Some(l) => Some(l@),
                None => None,
            },
            record: self.record,
            nets: text::strings(self.nets@),
        }
    }
}

/// What came of what was asked for.
pub enum Outcome {
    Resolved(Result<Resolved, String>),
    Probed(Probe),
    /// What was found, or nothing when the directory is not there.
    Looked(Option<Place>),
    Fetched(Result<(), String>),
    Hashed(Result<(String, u64), String>),
}

pub enum OutcomeView {
    Resolved(Result<resolve::ResolvedView, Seq<char>>),
    Probed(Probe),
    Looked(Option<PlaceView>),
    Fetched(Result<(), Seq<char>>),
    Hashed(Result<(Seq<char>, u64), Seq<char>>),
}

impl View for Outcome {
    type V = OutcomeView;

    open spec fn view(&self) -> OutcomeView {
        match self {
            Outcome::Resolved(r) => OutcomeView::Resolved(
                match r {
                    Ok(x) => Ok(x@),
                    Err(e) => Err(e@),
                },
            ),
            Outcome::Probed(p) => OutcomeView::Probed(*p),
            Outcome::Looked(p) => OutcomeView::Looked(
                match p {
                    Some(x) => Some(x@),
                    None => None,
                },
            ),
            Outcome::Fetched(r) => OutcomeView::Fetched(
                match r {
                    Ok(_) => Ok(()),
                    Err(e) => Err(e@),
                },
            ),
            Outcome::Hashed(r) => OutcomeView::Hashed(
                match r {
                    Ok((h, n)) => Ok((h@, *n)),
                    Err(e) => Err(e@),
                },
            ),
        }
    }
}

// ---- what each turn does --------------------------------------------------------------------

/// It ends badly, for this reason.
pub open spec fn failed(why: Seq<char>) -> MoveView {
    MoveView {
        notes: seq![say::NoteView::Bad(why)],
        task: TaskView::End(false),
        phase: PhaseView::Over,
    }
}

/// The first turn.
pub open spec fn first_move(list: Seq<catalog::IsoView>, w: WishView) -> MoveView {
    match w.id {
        None => failed("usage: arxburn get <id> [--to <device>]   (see: arxburn iso)"@),
        Some(id) => match get::meant(list, id) {
            None => failed(get::no_image(id)),
            Some(i) => MoveView {
                notes: seq![
                    say::NoteView::Step(list[i].name + " ("@ + list[i].id + ")"@),
                ],
                task: TaskView::Resolve(i),
                phase: PhaseView::Resolving,
            },
        },
    }
}

/// The directory in which downloads land.
pub open spec fn out_dir(w: WishView) -> Seq<char> {
    match w.out {
        Some(d) => d,
        None => "."@,
    }
}

/// The download is to be checked.
pub open spec fn checking(
    said: Seq<say::NoteView>,
    found: resolve::ResolvedView,
    dest: Seq<char>,
) -> MoveView {
    MoveView {
        notes: said.push(say::NoteView::Step("checking what landed on disk"@)),
        task: TaskView::Hash(dest),
        phase: PhaseView::Checking { found, dest },
    }
}

/// What lies in the directory is of no use to one connection: it has gaps, or is wrong, or is not the
/// beginning of what is on the mirror.
pub open spec fn useless(found: resolve::ResolvedView, probe: Probe, place: PlaceView) -> bool {
    place.record || (place.local matches Some(local) && !get::is_beginning(
        local,
        found.sha256,
        get::probed_size(probe),
        place.record,
    ))
}

/// The image is to be downloaded.
pub open spec fn fetching(
    w: WishView,
    said: Seq<say::NoteView>,
    found: resolve::ResolvedView,
    probe: Probe,
    place: PlaceView,
) -> MoveView {
    let told = said + get::download_report(found.url, place.dest, get::probed_size(probe));
    if !w.single && probe.ranges && probe.size > 33554432 {
        let streams = fetch::streams_asked(w.streams);
        MoveView {
            notes: told + get::engine_report(place.nets, streams as nat),
            task: TaskView::Parallel { url: found.url, dest: place.dest, size: probe.size, streams },
            phase: PhaseView::Trying { found, dest: place.dest, size: probe.size },
        }
    } else {
        MoveView {
            notes: told,
            task: TaskView::Single {
                url: found.url,
                dest: place.dest,
                size: probe.size,
                anew: useless(found, probe, place),
            },
            phase: PhaseView::Fetching { found, dest: place.dest },
        }
    }
}

/// What is in the directory is known.
pub open spec fn looked(
    w: WishView,
    found: resolve::ResolvedView,
    probe: Probe,
    place: PlaceView,
) -> MoveView {
    let remote = get::probed_size(probe);
    match place.local {
        Some(local) => {
            let said = get::kept_report(place.dest, local, found.sha256, remote, place.record);
            if get::kept(local, found.sha256, remote, place.record) {
                checking(said, found, place.dest)
            } else {
                fetching(w, said, found, probe, place)
            }
        },
        None => fetching(w, seq![], found, probe, place),
    }
}

/// What landed on disk has been hashed.
pub open spec fn landed(
    w: WishView,
    found: resolve::ResolvedView,
    dest: Seq<char>,
    hash: Seq<char>,
    len: u64,
) -> MoveView {
    let said = get::landed_report(dest, found.sha256, hash, len);
    if !get::genuine(found.sha256, hash) {
        MoveView { notes: said, task: TaskView::End(false), phase: PhaseView::Over }
    } else {
        match w.to {
            Some(target) => MoveView {
                notes: said.push(say::NoteView::Plain(""@)),
                task: TaskView::Burn { image: dest, target, hash },
                phase: PhaseView::Over,
            },
            None => MoveView {
                notes: said + get::ready_report(dest, len),
                task: TaskView::End(true),
                phase: PhaseView::Over,
            },
        }
    }
}

/// The turn after an outcome. One that is not about what was asked for ends it.
pub open spec fn next_move(w: WishView, phase: PhaseView, outcome: OutcomeView) -> MoveView {
    match (phase, outcome) {
        (PhaseView::Resolving, OutcomeView::Resolved(r)) => match r {
            Ok(found) => MoveView {
                notes: get::newest_report(found),
                task: TaskView::Probe(found.url),
                phase: PhaseView::Probing { found },
            },
            Err(e) => failed(e),
        },
        (PhaseView::Probing { found }, OutcomeView::Probed(probe)) => MoveView {
            notes: get::size_report(get::probed_size(probe)),
            task: TaskView::Look { dir: out_dir(w), name: found.filename },
            phase: PhaseView::Looking { found, probe },
        },
        (PhaseView::Looking { found, probe }, OutcomeView::Looked(p)) => match p {
            Some(place) => looked(w, found, probe, place),
            None => failed("no such directory: "@ + out_dir(w)),
        },
        (PhaseView::Trying { found, dest, size }, OutcomeView::Fetched(r)) => match r {
            Ok(_) => checking(seq![], found, dest),
            Err(e) => MoveView {
                notes: seq![
                    say::NoteView::Bad(e + "\n     falling back to a single connection"@),
                ],
                // the file has its full length by now, with gaps in it
                task: TaskView::Single { url: found.url, dest, size, anew: true },
                phase: PhaseView::Fetching { found, dest },
            },
        },
        (PhaseView::Fetching { found, dest }, OutcomeView::Fetched(r)) => match r {
            Ok(_) => checking(seq![], found, dest),
            Err(e) => failed(e),
        },
        (PhaseView::Checking { found, dest }, OutcomeView::Hashed(r)) => match r {
            Ok((hash, len)) => landed(w, found, dest, hash, len),
            Err(e) => failed("cannot read the download: "@ + e),
        },
        _ => MoveView { notes: seq![], task: TaskView::End(false), phase: PhaseView::Over },
    }
}

// ---- carrying it out ------------------------------------------------------------------------

fn fail(why: String) -> (r: Move)
    ensures
        r@ == failed(why@),
{
    Move { notes: one_note(Note::Bad(why)), task: Task::End(false), phase: Phase::Over }
}

fn add_all(notes: &mut Vec<Note>, more: Vec<Note>)
    ensures
        say::notes_view(final(notes)@) == say::notes_view(old(notes)@) + say::notes_view(more@),
{
    let ghost before = notes@;
    let mut rest: Vec<Note> = more;
    notes.append(&mut rest);
    assert(say::notes_view(notes@) =~= say::notes_view(before) + say::notes_view(more@));
}

/// The first turn of getting an image out of a catalog.
pub fn start(list: &Vec<Iso>, w: &Wish) -> (r: Move)
    ensures
        r@ == first_move(catalog::isos_view(list@), w@),
{
    match &w.id {
        None => fail(
            "usage: arxburn get <id> [--to <device>]   (see: arxburn iso)".to_owned(),
        ),
        Some(id) => match get::find_image(list, id) {
            Err(e) => fail(e),
            Ok(i) => {
                assert(catalog::isos_view(list@)[i as int] == list@[i as int]@);
                Move {
                    notes: one_note(get::introduce(&list[i])),
                    task: Task::Resolve(i),
                    phase: Phase::Resolving,
                }
            },
        },
    }
}

fn to_check(notes: Vec<Note>, found: Resolved, dest: &str) -> (r: Move)
    ensures
        r@ == checking(say::notes_view(notes@), found@, dest@),
{
    let mut said: Vec<Note> = notes;
    add_note(&mut said, Note::Step("checking what landed on disk".to_owned()));
    Move {
        notes: said,
        task: Task::Hash(dest.to_owned()),
        phase: Phase::Checking { found, dest: dest.to_owned() },
    }
}

fn to_fetch(w: &Wish, notes: Vec<Note>, found: Resolved, probe: Probe, place: &Place) -> (r: Move)
    requires
        place.nets@.len() * 16 <= usize::MAX,
    ensures
        r@ == fetching(w@, say::notes_view(notes@), found@, probe, place@),
{
    let mut said: Vec<Note> = notes;
    add_all(&mut said, get::tell_download(&found.url, &place.dest, get::stated_size(&probe)));
    let url: String = found.url.clone();
    let dest: String = place.dest.clone();
    if fetch::in_parallel(w.single, &probe) {
        let streams: usize = fetch::streams_option(&w.streams);
        assert(place.nets@.len() * streams <= place.nets@.len() * 16) by (nonlinear_arith)
            requires
                streams <= 16,
        ;
        add_all(&mut said, get::tell_engine(&place.nets, streams));
        Move {
            notes: said,
            task: Task::Parallel { url, dest: dest.clone(), size: probe.size, streams },
            phase: Phase::Trying { found, dest, size: probe.size },
        }
    } else {
        let anew: bool = place.record || match &place.local {
            Some(local) => !get::can_go_on(
                local,
                &found.sha256,
                get::stated_size(&probe),
                place.record,
            ),
            None => false,
        };
        Move {
            notes: said,
            task: Task::Single { url, dest: dest.clone(), size: probe.size, anew },
            phase: Phase::Fetching { found, dest },
        }
    }
}

fn after_look(w: &Wish, found: Resolved, probe: Probe, place: &Place) -> (r: Move)
    requires
        place.nets@.len() * 16 <= usize::MAX,
    ensures
        r@ == looked(w@, found@, probe, place@),
{
    match &place.local {
        Some(local) => {
            let (kept, said) = get::keep(
                &place.dest,
                local,
                &found.sha256,
                get::stated_size(&probe),
                place.record,
            );
            if kept {
                to_check(said, found, &place.dest)
            } else {
                to_fetch(w, said, found, probe, place)
            }
        },
        None => to_fetch(w, no_notes(), found, probe, place),
    }
}

fn after_hash(w: &Wish, found: &Resolved, dest: String, hash: String, len: u64) -> (r: Move)
    ensures
        r@ == landed(w@, found@, dest@, hash@, len),
{
    let (genuine, notes) = get::judge(&dest, &found.sha256, &hash, len);
    let mut said: Vec<Note> = notes;
    if !genuine {
        return Move { notes: said, task: Task::End(false), phase: Phase::Over };
    }
    match &w.to {
        Some(target) => {
            add_note(&mut said, Note::Plain("".to_owned()));
            Move {
                notes: said,
                task: Task::Burn { image: dest, target: target.clone(), hash },
                phase: Phase::Over,
            }
        },
        None => {
            add_all(&mut said, get::tell_ready(&dest, len));
            Move { notes: said, task: Task::End(true), phase: Phase::Over }
        },
    }
}

fn no_directory(w: &Wish) -> (r: Move)
    ensures
        r@ == failed("no such directory: "@ + out_dir(w@)),
{
    let mut s: String = "no such directory: ".to_owned();
    match &w.out {
        Some(d) => s.append(d),
        None => s.append("."),
    }
    fail(s)
}

fn after_probe(w: &Wish, found: Resolved, probe: Probe) -> (r: Move)
    ensures
        r@ == next_move(w@, PhaseView::Probing { found: found@ }, OutcomeView::Probed(probe)),
{
    let dir: String = match &w.out {
        Some(d) => d.clone(),
        None => ".".to_owned(),
    };
    Move {
        notes: get::tell_size(get::stated_size(&probe)),
        task: Task::Look { dir, name: found.filename.clone() },
        phase: Phase::Looking { found, probe },
    }
}

fn after_try(found: Resolved, dest: String, size: u64, e: &str) -> (r: Move)
    ensures
        r@ == (MoveView {
            notes: seq![say::NoteView::Bad(e@ + "\n     falling back to a single connection"@)],
            task: TaskView::Single { url: found@.url, dest: dest@, size, anew: true },
            phase: PhaseView::Fetching { found: found@, dest: dest@ },
        }),
{
    Move {
        notes: one_note(get::fall_back(e)),
        task: Task::Single { url: found.url.clone(), dest: dest.clone(), size, anew: true },
        phase: Phase::Fetching { found, dest },
    }
}

/// The number of networks can be multiplied by the number of streams on each.
pub open spec fn countable(outcome: OutcomeView) -> bool {
    match outcome {
        OutcomeView::Looked(Some(p)) => p.nets.len() * 16 <= usize::MAX,
        _ => true,
    }
}

/// The turn after what was asked for has been carried out.
pub fn advance(w: &Wish, phase: Phase, outcome: Outcome) -> (r: Move)
    requires
        countable(outcome@),
    ensures
        r@ == next_move(w@, phase@, outcome@),
{
    match (phase, outcome) {
        (Phase::Resolving, Outcome::Resolved(x)) => match x {
            Ok(found) => Move {
                notes: get::tell_newest(&found),
                task: Task::Probe(found.url.clone()),
                phase: Phase::Probing { found },
            },
            Err(e) => fail(e),
        },
        (Phase::Probing { found }, Outcome::Probed(probe)) => after_probe(w, found, probe),
        (Phase::Looking { found, probe }, Outcome::Looked(p)) => match p {
            Some(place) => {
                assert(place@.nets.len() == place.nets@.len());
                after_look(w, found, probe, &place)
            },
            None => no_directory(w),
        },
        (Phase::Trying { found, dest, size }, Outcome::Fetched(x)) => match x {
            Ok(_) => to_check(no_notes(), found, &dest),
            Err(e) => after_try(found, dest, size, &e),
        },
        (Phase::Fetching { found, dest }, Outcome::Fetched(x)) => match x {
            Ok(_) => to_check(no_notes(), found, &dest),
            Err(e) => fail(e),
        },
        (Phase::Checking { found, dest }, Outcome::Hashed(x)) => match x {
            Ok((hash, len)) => after_hash(w, &found, dest, hash, len),
            Err(e) => {
                let mut s: String = "cannot read the download: ".to_owned();
                s.append(&e);
                fail(s)
            },
        },
        _ => Move { notes: no_notes(), task: Task::End(false), phase: Phase::Over },
    }
}

// ---- laws -----------------------------------------------------------------------------------

/// The turn that getting an image has come to after these outcomes.
pub open spec fn run(
    list: Seq<catalog::IsoView>,
    w: WishView,
    outcomes: Seq<OutcomeView>,
) -> MoveView
    decreases outcomes.len(),
{
    if outcomes.len() == 0 {
        first_move(list, w)
    } else {
        next_move(w, run(list, w, outcomes.drop_last()).phase, outcomes.last())
    }
}

/// The newest build that a phase is about.
pub open spec fn build_of(p: PhaseView) -> Option<resolve::ResolvedView> {
    match p {
        PhaseView::Probing { found } => Some(found),
        PhaseView::Looking { found, probe: _ } => Some(found),
        PhaseView::Trying { found, dest: _, size: _ } => Some(found),
        PhaseView::Fetching { found, dest: _ } => Some(found),
        PhaseView::Checking { found, dest: _ } => Some(found),
        _ => None,
    }
}

proof fn lemma_build(list: Seq<catalog::IsoView>, w: WishView, outcomes: Seq<OutcomeView>)
    ensures
        build_of(run(list, w, outcomes).phase) matches Some(found) ==> outcomes.contains(
            OutcomeView::Resolved(Ok(found)),
        ),
    decreases outcomes.len(),
{
    if outcomes.len() > 0 {
        let before = outcomes.drop_last();
        lemma_build(list, w, before);
        let p = run(list, w, before).phase;
        if let Some(found) = build_of(run(list, w, outcomes).phase) {
            if p is Resolving {
                assert(outcomes[outcomes.len() - 1] == OutcomeView::Resolved(Ok(found)));
            } else {
                assert(build_of(p) == Some(found));
                let k = choose|k: int|
                    0 <= k < before.len() && before[k] == OutcomeView::Resolved(Ok(found));
                assert(outcomes[k] == OutcomeView::Resolved(Ok(found)));
            }
        }
    }
}

/// This build was found.
pub open spec fn was_found(outcomes: Seq<OutcomeView>, found: resolve::ResolvedView) -> bool {
    outcomes.contains(OutcomeView::Resolved(Ok(found)))
}

/// Hashing gave this hash.
pub open spec fn hashed_to(outcome: OutcomeView, hash: Seq<char>) -> bool {
    match outcome {
        OutcomeView::Hashed(Ok((h, _))) => h == hash,
        _ => false,
    }
}

/// Nothing is burned that is not what its project published: the image that a burn is asked for is the
/// very file that was asked to be hashed just before, and its hash is the published one of the build
/// that was found, as far as one is published.
pub proof fn law_only_a_genuine_image_is_burned(
    list: Seq<catalog::IsoView>,
    w: WishView,
    outcomes: Seq<OutcomeView>,
)
    ensures
        run(list, w, outcomes).task matches TaskView::Burn { image, target, hash } ==> {
            &&& w.to == Some(target)
            &&& outcomes.len() > 0
            &&& run(list, w, outcomes.drop_last()).task == TaskView::Hash(image)
            &&& hashed_to(outcomes.last(), hash)
            &&& exists|found: resolve::ResolvedView|
                #[trigger] was_found(outcomes, found) && get::genuine(found.sha256, hash)
        },
{
    if outcomes.len() > 0 {
        let before = outcomes.drop_last();
        lemma_build(list, w, before);
        if let PhaseView::Checking { found, dest } = run(list, w, before).phase {
            let k = choose|k: int|
                0 <= k < before.len() && before[k] == OutcomeView::Resolved(Ok(found));
            assert(outcomes[k] == OutcomeView::Resolved(Ok(found)));
            assert(was_found(outcomes, found));
        }
    }
}

/// One connection goes on from the end of a file only where that file is the beginning of the one on
/// the mirror, as far as can be told: never after a download over many connections, which leaves its
/// file at full length with gaps in it, and never from a file that is as long as the one on the mirror
/// or longer.
pub proof fn law_one_connection_goes_on_only_from_a_beginning(
    w: WishView,
    p: PhaseView,
    outcome: OutcomeView,
)
    ensures
        next_move(w, p, outcome).task matches TaskView::Single { url: _, dest: _, size: _, anew }
            ==> anew || (match (p, outcome) {
            (
                PhaseView::Looking { found: _, probe },
                OutcomeView::Looked(Some(place)),
            ) => !place.record && (place.local matches Some(local) ==> probe.size > 0 ==> (
            local.len matches Some(len) && len < probe.size)),
            _ => false,
        }),
{
}

/// What an interrupted download over many connections left behind is never taken for the image by its
/// length: without a published hash to hold it to, it is downloaded on.
pub proof fn law_an_unfinished_download_is_not_kept(
    w: WishView,
    found: resolve::ResolvedView,
    probe: Probe,
    place: PlaceView,
)
    requires
        place.record,
        found.sha256 is None,
    ensures
        looked(w, found, probe, place).task is Parallel || looked(w, found, probe, place).task
            is Single,
{
}

/// An image that is here already and right is not downloaded again, but it is checked again.
pub proof fn law_what_is_here_is_rechecked_not_refetched(
    w: WishView,
    found: resolve::ResolvedView,
    probe: Probe,
    place: PlaceView,
)
    requires
        place.local is Some,
        get::kept(place.local->0, found.sha256, get::probed_size(probe), place.record),
    ensures
        looked(w, found, probe, place).task == TaskView::Hash(place.dest),
{
}

/// How many outcomes are still to come at the most.
pub open spec fn outcomes_left(p: PhaseView) -> nat {
    match p {
        PhaseView::Resolving => 6,
        PhaseView::Probing { found: _ } => 5,
        PhaseView::Looking { found: _, probe: _ } => 4,
        PhaseView::Trying { found: _, dest: _, size: _ } => 3,
        PhaseView::Fetching { found: _, dest: _ } => 2,
        PhaseView::Checking { found: _, dest: _ } => 1,
        PhaseView::Over => 0,
    }
}

/// Getting an image comes to an end: every outcome leaves fewer to come.
pub proof fn law_getting_ends(w: WishView, p: PhaseView, outcome: OutcomeView)
    ensures
        p is Over || outcomes_left(next_move(w, p, outcome).phase) < outcomes_left(p),
{
}

/// What landed is trusted only by its hash: one that differs from the published one ends it all, and
/// otherwise the image is burned where a device was given, or reported as ready.
pub proof fn law_what_landed_is_judged_by_its_hash(
    w: WishView,
    found: resolve::ResolvedView,
    dest: Seq<char>,
    hash: Seq<char>,
    len: u64,
    e: Seq<char>,
)
    ensures
        ({
            let m = next_move(
                w,
                PhaseView::Checking { found, dest },
                OutcomeView::Hashed(Ok((hash, len))),
            );
            &&& m.phase is Over
            &&& found.sha256 is Some && found.sha256->0 != hash ==> m.task == TaskView::End(false)
                && m.notes.last() is Bad
            &&& found.sha256 is None || found.sha256->0 == hash ==> m.task == match w.to {
                Some(target) => TaskView::Burn { image: dest, target, hash },
                None => TaskView::End(true),
            }
        }),
        next_move(w, PhaseView::Checking { found, dest }, OutcomeView::Hashed(Err(e))).task
            == TaskView::End(false),
{
}

/// Whether and how an image is downloaded. A file with the published hash, or of the full length where
/// there is no hash to go by, is only checked again. Anything else is downloaded from where the build is,
/// to where the file goes: over several connections when the mirror serves ranges of a file of more than
/// 32 MiB and they were not declined, else over one. One connection goes on from the end of what is here
/// only when that is a beginning: no unfinished download is on record, and it is shorter than the whole.
pub proof fn law_how_an_image_is_downloaded(
    w: WishView,
    found: resolve::ResolvedView,
    probe: Probe,
    place: PlaceView,
)
    ensures
        ({
            let task = next_move(
                w,
                PhaseView::Looking { found, probe },
                OutcomeView::Looked(Some(place)),
            ).task;
            let several = !w.single && probe.ranges && probe.size > 32 * 1024 * 1024;
            let right = place.local is Some && match (found.sha256, place.local->0.hashed) {
                (Some(want), Some((got, _))) => got == want,
                _ => !place.record && probe.size > 0 && place.local->0.len == Some(probe.size),
            };
            &&& right <==> task == TaskView::Hash(place.dest)
            &&& !right && several ==> task == (TaskView::Parallel {
                url: found.url,
                dest: place.dest,
                size: probe.size,
                streams: fetch::streams_asked(w.streams),
            })
            &&& !right && !several ==> (task matches TaskView::Single { url, dest, size, anew } && url
                == found.url && dest == place.dest && size == probe.size && (place.record ==> anew) && (
            place.local is None && !place.record ==> !anew) && (place.local is Some && probe.size > 0
                && !place.record ==> (anew <==> !(place.local->0.len is Some && place.local->0.len->0
                < probe.size))))
        }),
{
}

/// The steps before and after the download: what was resolved is probed at its own address and looked for
/// under its own name, in the directory that was asked for or here; a download over several connections
/// that fails is tried again over one, from nothing; one that succeeds is checked; and any other failure
/// ends it.
pub proof fn law_what_follows_what(
    list: Seq<catalog::IsoView>,
    w: WishView,
    found: resolve::ResolvedView,
    probe: Probe,
    dest: Seq<char>,
    size: u64,
    e: Seq<char>,
)
    ensures
        w.id is None ==> first_move(list, w).task == TaskView::End(false),
        w.id is Some && get::meant(list, w.id->0) is None ==> first_move(list, w).task == TaskView::End(
            false,
        ),
        w.id is Some && get::meant(list, w.id->0) is Some ==> first_move(list, w).task
            == TaskView::Resolve(get::meant(list, w.id->0)->0) && first_move(list, w).phase is Resolving,
        next_move(w, PhaseView::Resolving, OutcomeView::Resolved(Ok(found))).task == TaskView::Probe(
            found.url,
        ),
        next_move(w, PhaseView::Resolving, OutcomeView::Resolved(Ok(found))).phase == (
        PhaseView::Probing { found }),
        next_move(w, PhaseView::Resolving, OutcomeView::Resolved(Err(e))).task == TaskView::End(false),
        next_move(w, PhaseView::Probing { found }, OutcomeView::Probed(probe)).task == (TaskView::Look {
            dir: if w.out is Some {
                w.out->0
            } else {
                "."@
            },
            name: found.filename,
        }),
        next_move(w, PhaseView::Probing { found }, OutcomeView::Probed(probe)).phase == (
        PhaseView::Looking { found, probe }),
        next_move(w, PhaseView::Looking { found, probe }, OutcomeView::Looked(None)).task
            == TaskView::End(false),
        next_move(w, PhaseView::Trying { found, dest, size }, OutcomeView::Fetched(Err(e))).task == (
        TaskView::Single { url: found.url, dest, size, anew: true }),
        next_move(w, PhaseView::Trying { found, dest, size }, OutcomeView::Fetched(Ok(()))).task
            == TaskView::Hash(dest),
        next_move(w, PhaseView::Fetching { found, dest }, OutcomeView::Fetched(Ok(()))).task
            == TaskView::Hash(dest),
        next_move(w, PhaseView::Fetching { found, dest }, OutcomeView::Fetched(Err(e))).task
            == TaskView::End(false),
        next_move(w, PhaseView::Trying { found, dest, size }, OutcomeView::Fetched(Ok(()))).phase == (
        PhaseView::Checking { found, dest }),
        next_move(w, PhaseView::Fetching { found, dest }, OutcomeView::Fetched(Ok(()))).phase == (
        PhaseView::Checking { found, dest }),
        next_move(w, PhaseView::Trying { found, dest, size }, OutcomeView::Fetched(Err(e))).phase == (
        PhaseView::Fetching { found, dest }),
{
}

} // verus!
