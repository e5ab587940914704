//! Writing an image to a stick, and proving that the stick got it.
//!
//! What is asked, what is refused, what is done and in which order is decided here, one turn at a
//! time; carrying out what a turn asks for, and saying what came of it, is left to the caller.
//!
//! Safety, in order of importance:
//!   - the disk carrying "/" is never written, with any flag combination
//!   - internal disks need a flag; removable media is the default
//!   - the image must fit, and mounted partitions are unmounted deliberately, never silently
//!   - unless told otherwise a person types the device name to proceed; a y/n prompt is too easy to
//!     answer by reflex
//!   - after writing, the bytes are read back off the device and hashed against the image

use vstd::prelude::*;
use vstd::string::*;

use crate::dev;
use crate::dev::Device;
use crate::json;
use crate::layout;
use crate::parts;
use crate::say;
use crate::say::{add_note, no_notes, one_note, Note, DIM, RST, YEL};
use crate::text;

verus! {

/// What to burn, where, and how.
pub struct Order {
    /// The image as it is called.
    pub image: String,
    pub image_len: u64,
    /// The first bytes of the image, when they can be read.
    pub head: Option<Vec<u8>>,
    pub device: Device,
    pub allow_internal: bool,
    /// The hash that the image is to have.
    pub expect: Option<String>,
    /// The hash of the image, when it is known already.
    pub known: Option<String>,
    /// Whether the program may write to block devices.
    pub root: bool,
    pub yes: bool,
    pub skip_read_back: bool,
    /// The partition scheme to leave behind.
    pub scheme: Option<String>,
}

pub struct OrderView {
    pub image: Seq<char>,
    pub image_len: u64,
    pub head: Option<Seq<u8>>,
    pub device: dev::DeviceView,
    pub allow_internal: bool,
    pub expect: Option<Seq<char>>,
    pub known: Option<Seq<char>>,
    pub root: bool,
    pub yes: bool,
    pub skip_read_back: bool,
    pub scheme: Option<Seq<char>>,
}

impl View for Order {
    type V = OrderView;

    open spec fn view(&self) -> OrderView {
        OrderView {
            image: self.image@,
            image_len: self.image_len,
            head: match self.head {
                Some(h) => Some(h@),
                None => None,
            },
            device: self.device@,
            allow_internal: self.allow_internal,
            expect: text::text_opt(self.expect),
            known: text::text_opt(self.known),
            root: self.root,
            yes: self.yes,
            skip_read_back: self.skip_read_back,
            scheme: text::text_opt(self.scheme),
        }
    }
}

/// What a turn asks for.
pub enum Act {
    /// Hash the image.
    HashImage,
    /// Unmount what is mounted there.
    Unmount(String),
    /// Say `warning`, then ask with `prompt` and read a line.
    Confirm { warning: String, prompt: String },
    /// Write the image to the device, hashing it on the way.
    Write,
    /// Drop the page cache, or reading back would be answered from memory: it would confirm what was
    /// just written, not what the stick stored.
    DropCaches,
    /// Hash the first so many bytes of the device.
    ReadBack(u64),
    /// Leave this partition scheme behind.
    Scheme(String),
    /// It is over, and whether it went well.
    End(bool),
}

pub enum ActView {
    HashImage,
    Unmount(Seq<char>),
    Confirm { warning: Seq<char>, prompt: Seq<char> },
    Write,
    DropCaches,
    ReadBack(u64),
    Scheme(Seq<char>),
    End(bool),
}

impl View for Act {
    type V = ActView;

    open spec fn view(&self) -> ActView {
        match self {
            Act::HashImage => ActView::HashImage,
            Act::Unmount(m) => ActView::Unmount(m@),
            Act::Confirm { warning, prompt } => ActView::Confirm {
                warning: warning@,
                prompt: prompt@,
            },
            Act::Write => ActView::Write,
            Act::DropCaches => ActView::DropCaches,
            Act::ReadBack(n) => ActView::ReadBack(*n),
            Act::Scheme(s) => ActView::Scheme(s@),
            Act::End(ok) => ActView::End(*ok),
        }
    }
}

/// How far it has come.
pub enum Stage {
    Hashing,
    Unmounting { hash: String, next: usize },
    Confirming { hash: String },
    Writing { hash: String },
    Dropping { hash: String, written: u64 },
    ReadingBack { hash: String, written: u64 },
    Over,
}

pub enum StageView {
    Hashing,
    Unmounting { hash: Seq<char>, next: nat },
    Confirming { hash: Seq<char> },
    Writing { hash: Seq<char> },
    Dropping { hash: Seq<char>, written: u64 },
    ReadingBack { hash: Seq<char>, written: u64 },
    Over,
}

impl View for Stage {
    type V = StageView;

    open spec fn view(&self) -> StageView {
        match self {
            Stage::Hashing => StageView::Hashing,
            Stage::Unmounting { hash, next } => StageView::Unmounting {
                hash: hash@,
                next: *next as nat,
            },
            Stage::Confirming { hash } => StageView::Confirming { hash: hash@ },
            Stage::Writing { hash } => StageView::Writing { hash: hash@ },
            Stage::Dropping { hash, written } => StageView::Dropping {
                hash: hash@,
                written: *written,
            },
            Stage::ReadingBack { hash, written } => StageView::ReadingBack {
                hash: hash@,
                written: *written,
            },
            Stage::Over => StageView::Over,
        }
    }
}

/// What is said, what is asked for, and how far it has come.
pub struct Turn {
    pub notes: Vec<Note>,
    pub act: Act,
    pub stage: Stage,
}

pub struct TurnView {
    pub notes: Seq<say::NoteView>,
    pub act: ActView,
    pub stage: StageView,
}

impl View for Turn {
    type V = TurnView;

    open spec fn view(&self) -> TurnView {
        TurnView {
            notes: say::notes_view(self.notes@),
            act: self.act@,
            stage: self.stage@,
        }
    }
}

/// What writing came to.
pub struct Wrote {
    /// The hash of what was read of the image.
    pub hash: String,
    pub written: u64,
    /// How long it took, in seconds, as it is to be shown.
    pub seconds: String,
    /// In bytes per second.
    pub rate: u64,
}

pub struct WroteView {
    pub hash: Seq<char>,
    pub written: u64,
    pub seconds: Seq<char>,
    pub rate: u64,
}

impl View for Wrote {
    type V = WroteView;

    open spec fn view(&self) -> WroteView {
        WroteView {
            hash: self.hash@,
            written: self.written,
            seconds: self.seconds@,
            rate: self.rate,
        }
    }
}

/// What came of what was asked for.
pub enum Event {
    Hashed(Result<String, String>),
    Unmounted(bool),
    Answered(Option<String>),
    Wrote(Result<Wrote, String>),
    Dropped,
    ReadBack(Result<String, String>),
}

pub enum EventView {
    Hashed(Result<Seq<char>, Seq<char>>),
    Unmounted(bool),
    Answered(Option<Seq<char>>),
    Wrote(Result<WroteView, Seq<char>>),
    Dropped,
    ReadBack(Result<Seq<char>, Seq<char>>),
}

impl View for Event {
    type V = EventView;

    open spec fn view(&self) -> EventView {
        match self {
            Event::Hashed(r) => EventView::Hashed(text::text_result(*r)),
            Event::Unmounted(ok) => EventView::Unmounted(*ok),
            Event::Answered(l) => EventView::Answered(text::text_opt(*l)),
            Event::Wrote(r) => EventView::Wrote(
                match r {
                    Ok(w) => Ok(w@),
                    Err(e) => Err(e@),
                },
            ),
            Event::Dropped => EventView::Dropped,
            Event::ReadBack(r) => EventView::ReadBack(text::text_result(*r)),
        }
    }
}

// ---- what each turn does --------------------------------------------------------------------

/// It ends badly, for this reason.
pub open spec fn failed(said: Seq<say::NoteView>, why: Seq<char>) -> TurnView {
    TurnView {
        notes: said.push(say::NoteView::Bad(why)),
        act: ActView::End(false),
        stage: StageView::Over,
    }
}

/// The event that tells what is burned where.
pub open spec fn target_event(o: OrderView) -> Seq<char> {
    json::object_text(
        seq![
            ("event"@, json::quoted("target"@)),
            ("device"@, json::quoted(o.device.path)),
            ("size"@, text::decimal(o.device.size as nat)),
            ("image_size"@, text::decimal(o.image_len as nat)),
        ],
    )
}

/// The event that tells what kind of image it is.
pub open spec fn image_event(head: Seq<u8>) -> Seq<char> {
    json::object_text(
        seq![
            ("event"@, json::quoted("image_scheme"@)),
            ("summary"@, json::quoted(parts::head_summary(head))),
            ("boots"@, json::quoted(parts::head_boots(head))),
            ("mbr"@, json::truth(parts::has_mbr(head))),
            ("gpt"@, json::truth(parts::has_gpt(head))),
        ],
    )
}

/// What is said before anything is decided.
pub open spec fn introduction(o: OrderView) -> Seq<say::NoteView> {
    let d = o.device;
    let said = seq![
        say::NoteView::Step(
            "image  "@ + o.image + " ("@ + dev::human_text(o.image_len) + ")"@,
        ),
        say::NoteView::Step(
            "target "@ + d.path + ", "@ + dev::human_text(d.size) + " "@ + (if d.removable {
                "removable"@
            } else {
                "internal"@
            }) + ", model "@ + d.model,
        ),
        say::NoteView::Event(target_event(o)),
    ];
    match o.head {
        Some(h) => said.push(
            say::NoteView::Step(
                "image is "@ + parts::head_summary(h) + ": "@ + parts::head_boots(h),
            ),
        ).push(say::NoteView::Event(image_event(h))),
        None => said,
    }
}

/// The first turn.
pub open spec fn first_turn(o: OrderView) -> TurnView {
    let said = introduction(o);
    let d = o.device;
    match d.refusal(o.allow_internal) {
        Some(reason) => failed(said, "refusing "@ + d.path + ": "@ + reason),
        None => if o.image_len > d.size {
            failed(
                said,
                "image is "@ + dev::human_text(o.image_len) + " but the device holds "@
                    + dev::human_text(d.size),
            )
        } else {
            match o.known {
                Some(hash) => checked(o, said, hash),
                None => TurnView {
                    notes: said.push(
                        say::NoteView::Step("checking the image before anything is erased"@),
                    ),
                    act: ActView::HashImage,
                    stage: StageView::Hashing,
                },
            }
        },
    }
}

/// The hash is the one that was asked for, if one was.
pub open spec fn expected(o: OrderView, hash: Seq<char>) -> bool {
    match o.expect {
        Some(e) => text::lower(text::trim(e)) == text::lower(hash),
        None => true,
    }
}

/// The hash of the image is known.
pub open spec fn checked(o: OrderView, said: Seq<say::NoteView>, hash: Seq<char>) -> TurnView {
    match o.expect {
        Some(e) => if expected(o, hash) {
            allowed(o, said.push(say::NoteView::Good("matches --expect"@)), hash)
        } else {
            failed(
                said,
                "image does NOT match --expect\n     expected "@ + e + "\n     actual   "@ + hash,
            )
        },
        None => allowed(o, said, hash),
    }
}

/// The image is the right one.
pub open spec fn allowed(o: OrderView, said: Seq<say::NoteView>, hash: Seq<char>) -> TurnView {
    if !o.root {
        failed(said, "writing to a block device needs root: run with sudo"@)
    } else if o.device.mounts.len() > 0 {
        TurnView {
            notes: said.push(
                say::NoteView::Step("unmounting "@ + text::join(o.device.mounts, ", "@)),
            ),
            act: ActView::Unmount(o.device.mounts[0]),
            stage: StageView::Unmounting { hash, next: 0 },
        }
    } else {
        released(o, said, hash)
    }
}

/// Nothing of the device is mounted.
pub open spec fn released(o: OrderView, said: Seq<say::NoteView>, hash: Seq<char>) -> TurnView {
    if o.yes {
        confirmed(o, said, hash)
    } else {
        TurnView {
            notes: said,
            act: ActView::Confirm {
                warning: "  "@ + YEL@ + "This ERASES "@ + o.device.path + " completely."@ + RST@,
                prompt: "  Type the device name ("@ + o.device.name + ") to continue: "@,
            },
            stage: StageView::Confirming { hash },
        }
    }
}

/// It is really meant.
pub open spec fn confirmed(o: OrderView, said: Seq<say::NoteView>, hash: Seq<char>) -> TurnView {
    TurnView {
        notes: said.push(
            say::NoteView::Step(
                "writing "@ + dev::human_text(o.image_len) + " to "@ + o.device.path,
            ),
        ),
        act: ActView::Write,
        stage: StageView::Writing { hash },
    }
}

/// The device has taken the image.
pub open spec fn written(o: OrderView, hash: Seq<char>, w: WroteView) -> TurnView {
    if w.hash != hash {
        failed(
            seq![],
            "the image changed while it was being written; nothing about this stick can be trusted"@,
        )
    } else {
        let said = seq![
            say::NoteView::Good(
                "wrote "@ + layout::commas(w.written as nat) + " in "@ + w.seconds + "s ("@
                    + dev::human_text(w.rate) + "/s)"@,
            ),
        ];
        if o.skip_read_back {
            TurnView {
                notes: said.push(
                    say::NoteView::Bad(
                        "verification skipped (--no-verify): nothing proves the stick matches the image"@,
                    ),
                ),
                act: ActView::End(true),
                stage: StageView::Over,
            }
        } else {
            TurnView {
                notes: said.push(
                    say::NoteView::Step("verifying: reading the bytes back off the device"@),
                ),
                act: ActView::DropCaches,
                stage: StageView::Dropping { hash, written: w.written },
            }
        }
    }
}

pub open spec fn verified_event(back: Seq<char>, written: u64) -> Seq<char> {
    json::object_text(
        seq![
            ("event"@, json::quoted("done"@)),
            ("verified"@, json::truth(true)),
            ("sha256"@, json::quoted(back)),
            ("bytes"@, text::decimal(written as nat)),
        ],
    )
}

pub open spec fn mismatch_event(back: Seq<char>, hash: Seq<char>) -> Seq<char> {
    json::object_text(
        seq![
            ("event"@, json::quoted("done"@)),
            ("verified"@, json::truth(false)),
            ("sha256"@, json::quoted(back)),
            ("expected"@, json::quoted(hash)),
        ],
    )
}

/// The device has been read back.
pub open spec fn compared(o: OrderView, hash: Seq<char>, written: u64, back: Seq<char>) -> TurnView {
    if back == hash {
        TurnView {
            notes: seq![
                say::NoteView::Good(
                    "VERIFIED: "@ + o.device.path + " carries the image, byte for byte"@,
                ),
                say::NoteView::Event(verified_event(back, written)),
                say::NoteView::Plain("  "@ + DIM@ + "sha256 "@ + back + RST@),
            ],
            // only now, with the copy proved, is the partition table deliberately changed
            act: match o.scheme {
                Some(want) => ActView::Scheme(want),
                None => ActView::End(true),
            },
            stage: StageView::Over,
        }
    } else {
        TurnView {
            notes: seq![
                say::NoteView::Bad(
                    "MISMATCH: do not boot this\n     image  "@ + hash + "\n     device "@ + back,
                ),
                say::NoteView::Event(mismatch_event(back, hash)),
            ],
            act: ActView::End(false),
            stage: StageView::Over,
        }
    }
}

/// The turn after an event. One that is not about what the stage waits for ends the burn.
pub open spec fn next_turn(o: OrderView, stage: StageView, event: EventView) -> TurnView {
    match (stage, event) {
        (StageView::Hashing, EventView::Hashed(r)) => match r {
            Ok(hash) => checked(o, seq![say::NoteView::Good("sha256 "@ + hash)], hash),
            Err(e) => failed(seq![], "cannot read image: "@ + e),
        },
        (StageView::Unmounting { hash, next }, EventView::Unmounted(ok)) => {
            let m = o.device.mounts[next as int];
            if !ok {
                failed(
                    seq![],
                    "could not unmount "@ + m + ": close anything using it and retry"@,
                )
            } else {
                let said = seq![say::NoteView::Good("unmounted "@ + m)];
                if next + 1 < o.device.mounts.len() {
                    TurnView {
                        notes: said,
                        act: ActView::Unmount(o.device.mounts[next as int + 1]),
                        stage: StageView::Unmounting { hash, next: next + 1 },
                    }
                } else {
                    released(o, said, hash)
                }
            }
        },
        (StageView::Confirming { hash }, EventView::Answered(line)) => match line {
            Some(l) => if text::trim(l) == o.device.name {
                confirmed(o, seq![], hash)
            } else {
                failed(seq![], "not confirmed, nothing was written"@)
            },
            None => failed(seq![], "not confirmed, nothing was written"@),
        },
        (StageView::Writing { hash }, EventView::Wrote(r)) => match r {
            Ok(w) => written(o, hash, w),
            Err(e) => failed(seq![], e),
        },
        (StageView::Dropping { hash, written }, EventView::Dropped) => TurnView {
            notes: seq![],
            act: ActView::ReadBack(written),
            stage: StageView::ReadingBack { hash, written },
        },
        (StageView::ReadingBack { hash, written }, EventView::ReadBack(r)) => match r {
            Ok(back) => compared(o, hash, written, back),
            Err(e) => failed(seq![], "read back: "@ + e),
        },
        _ => TurnView { notes: seq![], act: ActView::End(false), stage: StageView::Over },
    }
}

// ---- carrying it out ------------------------------------------------------------------------

fn fail(notes: Vec<Note>, why: String) -> (r: Turn)
    ensures
        r@ == failed(say::notes_view(notes@), why@),
{
    let mut said: Vec<Note> = notes;
    add_note(&mut said, Note::Bad(why));
    Turn { notes: said, act: Act::End(false), stage: Stage::Over }
}

fn tell_target(o: &Order) -> (r: String)
    ensures
        r@ == target_event(o@),
{
    let mut f: Vec<json::Field> = Vec::new();
    f.push(("event", json::s("target")));
    f.push(("device", json::s(&o.device.path)));
    f.push(("size", json::n(o.device.size)));
    f.push(("image_size", json::n(o.image_len)));
    assert(json::fields_view(f@) =~= seq![
        ("event"@, json::quoted("target"@)),
        ("device"@, json::quoted(o.device.path@)),
        ("size"@, text::decimal(o.device.size as nat)),
        ("image_size"@, text::decimal(o.image_len as nat)),
    ]);
    json::object(&f)
}

fn tell_image(head: &Vec<u8>) -> (r: (String, String))
    ensures
        r.0@ == "image is "@ + parts::head_summary(head@) + ": "@ + parts::head_boots(head@),
        r.1@ == image_event(head@),
{
    let sc: parts::Scheme = parts::read(head);
    let summary: String = sc.summary();
    let boots: String = sc.boots();
    let mut line: String = "image is ".to_owned();
    line.append(&summary);
    line.append(": ");
    line.append(&boots);
    let mut f: Vec<json::Field> = Vec::new();
    f.push(("event", json::s("image_scheme")));
    f.push(("summary", json::s(&summary)));
    f.push(("boots", json::s(&boots)));
    f.push(("mbr", json::b(sc.mbr)));
    f.push(("gpt", json::b(sc.gpt)));
    assert(json::fields_view(f@) =~= seq![
        ("event"@, json::quoted("image_scheme"@)),
        ("summary"@, json::quoted(parts::head_summary(head@))),
        ("boots"@, json::quoted(parts::head_boots(head@))),
        ("mbr"@, json::truth(parts::has_mbr(head@))),
        ("gpt"@, json::truth(parts::has_gpt(head@))),
    ]);
    (line, json::object(&f))
}

fn introduce(o: &Order) -> (r: Vec<Note>)
    ensures
        say::notes_view(r@) == introduction(o@),
{
    let mut image: String = "image  ".to_owned();
    image.append(&o.image);
    image.append(" (");
    image.append(&dev::human(o.image_len));
    image.append(")");
    let mut target: String = "target ".to_owned();
    target.append(&o.device.path);
    target.append(", ");
    target.append(&dev::human(o.device.size));
    target.append(" ");
    target.append(
        if o.device.removable {
            "removable"
        } else {
            "internal"
        },
    );
    target.append(", model ");
    target.append(&o.device.model);
    let mut said: Vec<Note> = one_note(Note::Step(image));
    add_note(&mut said, Note::Step(target));
    add_note(&mut said, Note::Event(tell_target(o)));
    assert(say::notes_view(said@) =~= introduction(OrderView { head: None, ..o@ }));
    match &o.head {
        Some(h) => {
            let (line, event) = tell_image(h);
            add_note(&mut said, Note::Step(line));
            add_note(&mut said, Note::Event(event));
        },
        None => {},
    }
    assert(say::notes_view(said@) =~= introduction(o@));
    said
}

fn refuse(notes: Vec<Note>, path: &str, reason: &str) -> (r: Turn)
    ensures
        r@ == failed(say::notes_view(notes@), "refusing "@ + path@ + ": "@ + reason@),
{
    let mut why: String = "refusing ".to_owned();
    why.append(path);
    why.append(": ");
    why.append(reason);
    fail(notes, why)
}

/// The first turn of a burn.
pub fn start(o: &Order) -> (r: Turn)
    ensures
        r@ == first_turn(o@),
        reachable(o@, r.stage@),
{
    let mut said: Vec<Note> = introduce(o);
    match o.device.refusal(o.allow_internal) {
        Some(reason) => refuse(said, &o.device.path, &reason),
        None => if o.image_len > o.device.size {
            let mut why: String = "image is ".to_owned();
            why.append(&dev::human(o.image_len));
            why.append(" but the device holds ");
            why.append(&dev::human(o.device.size));
            fail(said, why)
        } else {
            match &o.known {
                Some(hash) => after_check(o, said, hash),
                None => {
                    add_note(
                        &mut said,
                        Note::Step("checking the image before anything is erased".to_owned()),
                    );
                    Turn { notes: said, act: Act::HashImage, stage: Stage::Hashing }
                },
            }
        },
    }
}

fn is_expected(e: &str, hash: &str) -> (r: bool)
    ensures
        r == (text::lower(text::trim(e@)) == text::lower(hash@)),
{
    let c: Vec<char> = text::chars_of(e);
    let a: Vec<char> = text::lowered(text::trimmed(&c));
    let b: Vec<char> = text::lowered(&text::chars_of(hash));
    text::same(&a, &b)
}

fn after_check(o: &Order, notes: Vec<Note>, hash: &str) -> (r: Turn)
    ensures
        r@ == checked(o@, say::notes_view(notes@), hash@),
{
    match &o.expect {
        Some(e) => if is_expected(e, hash) {
            let mut said: Vec<Note> = notes;
            add_note(&mut said, Note::Good("matches --expect".to_owned()));
            after_match(o, said, hash)
        } else {
            let mut why: String = "image does NOT match --expect\n     expected ".to_owned();
            why.append(e);
            why.append("\n     actual   ");
            why.append(hash);
            fail(notes, why)
        },
        None => after_match(o, notes, hash),
    }
}

fn after_match(o: &Order, notes: Vec<Note>, hash: &str) -> (r: Turn)
    ensures
        r@ == allowed(o@, say::notes_view(notes@), hash@),
{
    if !o.root {
        return fail(notes, "writing to a block device needs root: run with sudo".to_owned());
    }
    if o.device.mounts.len() > 0 {
        let mut said: Vec<Note> = notes;
        let mut line: String = "unmounting ".to_owned();
        line.append(&text::join_strings(&o.device.mounts, ", "));
        add_note(&mut said, Note::Step(line));
        assert(o@.device.mounts[0] == o.device.mounts@[0]@);
        return Turn {
            notes: said,
            act: Act::Unmount(o.device.mounts[0].clone()),
            stage: Stage::Unmounting { hash: hash.to_owned(), next: 0 },
        };
    }
    after_release(o, notes, hash)
}

fn after_release(o: &Order, notes: Vec<Note>, hash: &str) -> (r: Turn)
    ensures
        r@ == released(o@, say::notes_view(notes@), hash@),
{
    if o.yes {
        return after_confirm(o, notes, hash);
    }
    let mut warning: String = "  ".to_owned();
    warning.append(YEL);
    warning.append("This ERASES ");
    warning.append(&o.device.path);
    warning.append(" completely.");
    warning.append(RST);
    let mut prompt: String = "  Type the device name (".to_owned();
    prompt.append(&o.device.name);
    prompt.append(") to continue: ");
    Turn {
        notes,
        act: Act::Confirm { warning, prompt },
        stage: Stage::Confirming { hash: hash.to_owned() },
    }
}

fn after_confirm(o: &Order, notes: Vec<Note>, hash: &str) -> (r: Turn)
    ensures
        r@ == confirmed(o@, say::notes_view(notes@), hash@),
{
    let mut said: Vec<Note> = notes;
    let mut line: String = "writing ".to_owned();
    line.append(&dev::human(o.image_len));
    line.append(" to ");
    line.append(&o.device.path);
    add_note(&mut said, Note::Step(line));
    Turn { notes: said, act: Act::Write, stage: Stage::Writing { hash: hash.to_owned() } }
}

fn after_write(o: &Order, hash: String, w: &Wrote) -> (r: Turn)
    ensures
        r@ == written(o@, hash@, w@),
{
    if !text::same_str(&text::chars_of(&w.hash), &hash) {
        return fail(
            no_notes(),
            "the image changed while it was being written; nothing about this stick can be trusted".to_owned(),
        );
    }
    let mut line: String = "wrote ".to_owned();
    line.append(&layout::with_commas(w.written));
    line.append(" in ");
    line.append(&w.seconds);
    line.append("s (");
    line.append(&dev::human(w.rate));
    line.append("/s)");
    let mut said: Vec<Note> = one_note(Note::Good(line));
    if o.skip_read_back {
        add_note(
            &mut said,
            Note::Bad(
                "verification skipped (--no-verify): nothing proves the stick matches the image".to_owned(),
            ),
        );
        Turn { notes: said, act: Act::End(true), stage: Stage::Over }
    } else {
        add_note(
            &mut said,
            Note::Step("verifying: reading the bytes back off the device".to_owned()),
        );
        Turn {
            notes: said,
            act: Act::DropCaches,
            stage: Stage::Dropping { hash, written: w.written },
        }
    }
}

fn tell_verified(back: &str, n: u64) -> (r: String)
    ensures
        r@ == verified_event(back@, n),
{
    let mut f: Vec<json::Field> = Vec::new();
    f.push(("event", json::s("done")));
    f.push(("verified", json::b(true)));
    f.push(("sha256", json::s(back)));
    f.push(("bytes", json::n(n)));
    assert(json::fields_view(f@) =~= seq![
        ("event"@, json::quoted("done"@)),
        ("verified"@, json::truth(true)),
        ("sha256"@, json::quoted(back@)),
        ("bytes"@, text::decimal(n as nat)),
    ]);
    json::object(&f)
}

fn tell_mismatch(back: &str, hash: &str) -> (r: String)
    ensures
        r@ == mismatch_event(back@, hash@),
{
    let mut f: Vec<json::Field> = Vec::new();
    f.push(("event", json::s("done")));
    f.push(("verified", json::b(false)));
    f.push(("sha256", json::s(back)));
    f.push(("expected", json::s(hash)));
    assert(json::fields_view(f@) =~= seq![
        ("event"@, json::quoted("done"@)),
        ("verified"@, json::truth(false)),
        ("sha256"@, json::quoted(back@)),
        ("expected"@, json::quoted(hash@)),
    ]);
    json::object(&f)
}

fn after_read_back(o: &Order, hash: &str, n: u64, back: &str) -> (r: Turn)
    ensures
        r@ == compared(o@, hash@, n, back@),
{
    if text::same_str(&text::chars_of(back), hash) {
        let mut line: String = "VERIFIED: ".to_owned();
        line.append(&o.device.path);
        line.append(" carries the image, byte for byte");
        let mut plain: String = "  ".to_owned();
        plain.append(DIM);
        plain.append("sha256 ");
        plain.append(back);
        plain.append(RST);
        let mut said: Vec<Note> = one_note(Note::Good(line));
        add_note(&mut said, Note::Event(tell_verified(back, n)));
        add_note(&mut said, Note::Plain(plain));
        assert(say::notes_view(said@) =~= compared(o@, hash@, n, back@).notes);
        Turn {
            notes: said,
            act: match &o.scheme {
                Some(want) => Act::Scheme(want.clone()),
                None => Act::End(true),
            },
            stage: Stage::Over,
        }
    } else {
        let mut line: String = "MISMATCH: do not boot this\n     image  ".to_owned();
        line.append(hash);
        line.append("\n     device ");
        line.append(back);
        let mut said: Vec<Note> = one_note(Note::Bad(line));
        add_note(&mut said, Note::Event(tell_mismatch(back, hash)));
        assert(say::notes_view(said@) =~= compared(o@, hash@, n, back@).notes);
        Turn { notes: said, act: Act::End(false), stage: Stage::Over }
    }
}

fn after_unmount(o: &Order, hash: String, next: usize, ok: bool) -> (r: Turn)
    requires
        next < o.device.mounts@.len(),
    ensures
        r@ == next_turn(
            o@,
            StageView::Unmounting { hash: hash@, next: next as nat },
            EventView::Unmounted(ok),
        ),
{
    assert(o@.device.mounts[next as int] == o.device.mounts@[next as int]@);
    if !ok {
        let mut why: String = "could not unmount ".to_owned();
        why.append(&o.device.mounts[next]);
        why.append(": close anything using it and retry");
        return fail(no_notes(), why);
    }
    let mut line: String = "unmounted ".to_owned();
    line.append(&o.device.mounts[next]);
    let said: Vec<Note> = one_note(Note::Good(line));
    let n: usize = o.device.mounts.len();
    if next < n - 1 {
        assert(o@.device.mounts[next + 1] == o.device.mounts@[next + 1]@);
        Turn {
            notes: said,
            act: Act::Unmount(o.device.mounts[next + 1].clone()),
            stage: Stage::Unmounting { hash, next: next + 1 },
        }
    } else {
        after_release(o, said, &hash)
    }
}

fn after_answer(o: &Order, hash: &str, line: &Option<String>) -> (r: Turn)
    ensures
        r@ == next_turn(
            o@,
            StageView::Confirming { hash: hash@ },
            EventView::Answered(text::text_opt(*line)),
        ),
{
    let meant: bool = match line {
        Some(l) => {
            let c: Vec<char> = text::chars_of(l);
            text::same_str(text::trimmed(&c), &o.device.name)
        },
        None => false,
    };
    if meant {
        after_confirm(o, no_notes(), hash)
    } else {
        fail(no_notes(), "not confirmed, nothing was written".to_owned())
    }
}

fn after_hash(o: &Order, r: &Result<String, String>) -> (t: Turn)
    ensures
        t@ == next_turn(o@, StageView::Hashing, EventView::Hashed(text::text_result(*r))),
{
    match r {
        Ok(hash) => {
            let mut line: String = "sha256 ".to_owned();
            line.append(hash);
            after_check(o, one_note(Note::Good(line)), hash)
        },
        Err(e) => {
            let mut why: String = "cannot read image: ".to_owned();
            why.append(e);
            fail(no_notes(), why)
        },
    }
}

/// A stage that a burn of this order can be in.
pub open spec fn reachable(o: OrderView, stage: StageView) -> bool {
    match stage {
        StageView::Unmounting { hash: _, next } => next < o.device.mounts.len(),
        _ => true,
    }
}

/// The turn after what was asked for has been carried out.
pub fn advance(o: &Order, stage: Stage, event: Event) -> (r: Turn)
    requires
        reachable(o@, stage@),
    ensures
        r@ == next_turn(o@, stage@, event@),
        reachable(o@, r.stage@),
{
    match (stage, event) {
        (Stage::Hashing, Event::Hashed(x)) => after_hash(o, &x),
        (Stage::Unmounting { hash, next }, Event::Unmounted(ok)) => after_unmount(
            o,
            hash,
            next,
            ok,
        ),
        (Stage::Confirming { hash }, Event::Answered(line)) => after_answer(o, &hash, &line),
        (Stage::Writing { hash }, Event::Wrote(x)) => match x {
            Ok(w) => after_write(o, hash, &w),
            Err(e) => fail(no_notes(), e),
        },
        (Stage::Dropping { hash, written }, Event::Dropped) => Turn {
            notes: no_notes(),
            act: Act::ReadBack(written),
            stage: Stage::ReadingBack { hash, written },
        },
        (Stage::ReadingBack { hash, written }, Event::ReadBack(x)) => match x {
            Ok(back) => after_read_back(o, &hash, written, &back),
            Err(e) => {
                let mut why: String = "read back: ".to_owned();
                why.append(&e);
                fail(no_notes(), why)
            },
        },
        _ => Turn { notes: no_notes(), act: Act::End(false), stage: Stage::Over },
    }
}

/// What is said while the device is flushed. Everything the image contains has been handed to the
/// kernel by then, so the counter reads 100%, but most of it is not on the stick yet, and a stick
/// pulled at that moment is a corrupt stick.
pub fn flushing() -> (r: Vec<Note>)
    ensures
        say::notes_view(r@) == seq![
            say::NoteView::Step(
                "flushing to the device: this is where a slow stick actually writes, and it is STILL WRITING"@,
            ),
            say::NoteView::Step("do not unplug it until this says verified"@),
        ],
{
    let mut notes: Vec<Note> = one_note(
        Note::Step(
            "flushing to the device: this is where a slow stick actually writes, and it is STILL WRITING".to_owned(),
        ),
    );
    add_note(&mut notes, Note::Step("do not unplug it until this says verified".to_owned()));
    assert(say::notes_view(notes@) =~= seq![
        say::NoteView::Step(
            "flushing to the device: this is where a slow stick actually writes, and it is STILL WRITING"@,
        ),
        say::NoteView::Step("do not unplug it until this says verified"@),
    ]);
    notes
}

/// Whether all that was read of the image has been handed to the device. One that ended early will
/// take no more, and what became of it is asked next.
pub fn drained(written: u64, read: u64, writer_ended: bool) -> (r: bool)
    ensures
        r == (written >= read || writer_ended),
{
    written >= read || writer_ended
}

/// What the end of the writer means. `None` is a writer that stopped without saying why.
pub open spec fn writing_outcome(end: Option<Result<(), Seq<char>>>) -> Result<(), Seq<char>> {
    match end {
        Some(Ok(_)) => Ok(()),
        Some(Err(e)) => Err("write device: "@ + e),
        None => Err("the writing thread stopped unexpectedly; the stick is not complete"@),
    }
}

/// What the end of the writer means: whether the device took everything, or why not.
pub fn writer_ended(end: Option<Result<(), String>>) -> (r: Result<(), String>)
    ensures
        (match r {
            Ok(_) => Ok::<(), Seq<char>>(()),
            Err(e) => Err(e@),
        }) == writing_outcome(
            match end {
                Some(Ok(_)) => Some(Ok(())),
                Some(Err(e)) => Some(Err(e@)),
                None => None,
            },
        ),
{
    match end {
        Some(Ok(_)) => Ok(()),
        Some(Err(e)) => {
            let mut s: String = "write device: ".to_owned();
            s.append(&e);
            Err(s)
        },
        None => Err(
            "the writing thread stopped unexpectedly; the stick is not complete".to_owned(),
        ),
    }
}

// ---- laws -----------------------------------------------------------------------------------

/// The turn that a burn has come to after these events.
pub open spec fn run(o: OrderView, events: Seq<EventView>) -> TurnView
    decreases events.len(),
{
    if events.len() == 0 {
        first_turn(o)
    } else {
        next_turn(o, run(o, events.drop_last()).stage, events.last())
    }
}

/// The device may be written and the image fits.
pub open spec fn permitted(o: OrderView) -> bool {
    o.device.refusal(o.allow_internal) is None && o.image_len <= o.device.size
}

/// `h` is the hash of the image: it was known, or hashing the image gave it.
pub open spec fn hash_found(o: OrderView, events: Seq<EventView>, h: Seq<char>) -> bool {
    match o.known {
        Some(k) => k == h,
        None => events.contains(EventView::Hashed(Ok(h))),
    }
}

/// How many mounts were unmounted.
pub open spec fn unmounts(events: Seq<EventView>) -> nat
    decreases events.len(),
{
    if events.len() == 0 {
        0
    } else {
        unmounts(events.drop_last()) + if events.last() == EventView::Unmounted(true) {
            1nat
        } else {
            0nat
        }
    }
}

/// The line that was typed is the name of the device.
pub open spec fn names_device(o: OrderView, e: EventView) -> bool {
    match e {
        EventView::Answered(Some(l)) => text::trim(l) == o.device.name,
        _ => false,
    }
}

/// Somebody typed the name of the device.
pub open spec fn name_typed(o: OrderView, events: Seq<EventView>) -> bool {
    exists|i: int| 0 <= i < events.len() && names_device(o, #[trigger] events[i])
}

/// Writing gave the hash `h` over `n` bytes.
pub open spec fn wrote_with(e: EventView, h: Seq<char>, n: u64) -> bool {
    match e {
        EventView::Wrote(Ok(w)) => w.hash == h && w.written == n,
        _ => false,
    }
}

pub open spec fn was_written(events: Seq<EventView>, h: Seq<char>, n: u64) -> bool {
    exists|i: int| 0 <= i < events.len() && wrote_with(#[trigger] events[i], h, n)
}

/// All that has to be settled before anything is erased, but for the question.
pub open spec fn cleared(o: OrderView, events: Seq<EventView>, h: Seq<char>) -> bool {
    permitted(o) && o.root && expected(o, h) && hash_found(o, events, h)
}

/// The device may be erased.
pub open spec fn safe(o: OrderView, events: Seq<EventView>, h: Seq<char>) -> bool {
    cleared(o, events, h) && unmounts(events) == o.device.mounts.len() && (o.yes || name_typed(
        o,
        events,
    ))
}

/// What holds once a burn has come to a stage.
spec fn holds_at(o: OrderView, events: Seq<EventView>, stage: StageView) -> bool {
    match stage {
        StageView::Hashing => permitted(o) && o.known is None && unmounts(events) == 0,
        StageView::Unmounting { hash, next } => cleared(o, events, hash) && unmounts(events)
            == next && next < o.device.mounts.len(),
        StageView::Confirming { hash } => cleared(o, events, hash) && unmounts(events)
            == o.device.mounts.len(),
        StageView::Writing { hash } => safe(o, events, hash),
        StageView::Dropping { hash, written } => safe(o, events, hash) && was_written(
            events,
            hash,
            written,
        ),
        StageView::ReadingBack { hash, written } => safe(o, events, hash) && was_written(
            events,
            hash,
            written,
        ),
        StageView::Over => true,
    }
}

proof fn lemma_grows(o: OrderView, events: Seq<EventView>, e: EventView, h: Seq<char>, n: u64)
    ensures
        hash_found(o, events, h) ==> hash_found(o, events.push(e), h),
        name_typed(o, events) ==> name_typed(o, events.push(e)),
        names_device(o, e) ==> name_typed(o, events.push(e)),
        was_written(events, h, n) ==> was_written(events.push(e), h, n),
        wrote_with(e, h, n) ==> was_written(events.push(e), h, n),
        events.push(e).contains(e),
        unmounts(events.push(e)) == unmounts(events) + if e == EventView::Unmounted(true) {
            1nat
        } else {
            0nat
        },
{
    let all = events.push(e);
    assert(all.drop_last() =~= events);
    assert(all[events.len() as int] == e);
    assert(forall|i: int| 0 <= i < events.len() ==> all[i] == events[i]);
    if events.contains(EventView::Hashed(Ok(h))) {
        let i = choose|i: int| 0 <= i < events.len() && events[i] == EventView::Hashed(Ok(h));
        assert(all[i] == EventView::Hashed(Ok(h)));
    }
    if name_typed(o, events) {
        let i = choose|i: int| 0 <= i < events.len() && names_device(o, #[trigger] events[i]);
        assert(names_device(o, all[i]));
    }
    if was_written(events, h, n) {
        let i = choose|i: int| 0 <= i < events.len() && wrote_with(#[trigger] events[i], h, n);
        assert(wrote_with(all[i], h, n));
    }
}

proof fn lemma_step(o: OrderView, events: Seq<EventView>, stage: StageView, e: EventView)
    requires
        holds_at(o, events, stage),
    ensures
        holds_at(o, events.push(e), next_turn(o, stage, e).stage),
        next_turn(o, stage, e).act is Write == (next_turn(o, stage, e).stage is Writing),
{
    match stage {
        StageView::Hashing => {
            if let EventView::Hashed(Ok(h)) = e {
                lemma_grows(o, events, e, h, 0);
            }
        },
        StageView::Unmounting { hash, next } => {
            lemma_grows(o, events, e, hash, 0);
        },
        StageView::Confirming { hash } => {
            lemma_grows(o, events, e, hash, 0);
        },
        StageView::Writing { hash } => {
            if let EventView::Wrote(Ok(w)) = e {
                lemma_grows(o, events, e, hash, w.written);
            }
        },
        StageView::Dropping { hash, written } => {
            lemma_grows(o, events, e, hash, written);
        },
        StageView::ReadingBack { hash, written } => {},
        StageView::Over => {},
    }
}

proof fn lemma_run(o: OrderView, events: Seq<EventView>)
    ensures
        holds_at(o, events, run(o, events).stage),
        run(o, events).act is Write == (run(o, events).stage is Writing),
    decreases events.len(),
{
    if events.len() > 0 {
        lemma_run(o, events.drop_last());
        lemma_step(o, events.drop_last(), run(o, events.drop_last()).stage, events.last());
        assert(events.drop_last().push(events.last()) =~= events);
    }
}

/// Nothing is written unless the device is a legitimate target, the image fits, the program may,
/// the hash of the image is known and is the one that was asked for, everything on the device is
/// unmounted, and the name of the device was typed or no question was wanted.
pub proof fn law_nothing_is_written_unless_it_is_safe(o: OrderView, events: Seq<EventView>)
    ensures
        run(o, events).act is Write ==> exists|h: Seq<char>| safe(o, events, h),
{
    lemma_run(o, events);
    if let StageView::Writing { hash } = run(o, events).stage {
        assert(safe(o, events, hash));
    }
}

/// The disk that carries the running system is never written, whatever the flags say and whatever
/// happens on the way.
pub proof fn law_the_system_disk_is_never_written(o: OrderView, events: Seq<EventView>)
    requires
        o.device.holds_root,
    ensures
        !(run(o, events).act is Write),
{
    lemma_run(o, events);
}

/// An image larger than the device is refused before anything happens to the device.
pub proof fn law_an_oversized_image_is_refused_first(o: OrderView)
    requires
        o.image_len > o.device.size,
    ensures
        first_turn(o).act == ActView::End(false),
{
}

/// A mistyped confirmation writes nothing: it ends the burn.
pub proof fn law_a_mistyped_name_writes_nothing(o: OrderView, hash: Seq<char>, e: EventView)
    requires
        !names_device(o, e),
    ensures
        next_turn(o, StageView::Confirming { hash }, e).act == ActView::End(false),
{
}

/// The copy was proved: the bytes that were read back off the device have the hash of the bytes of
/// the image, which is the one that was known before anything was erased.
pub open spec fn proved(o: OrderView, events: Seq<EventView>) -> bool {
    exists|h: Seq<char>, n: u64|
        #![trigger safe(o, events.drop_last(), h), was_written(events.drop_last(), h, n)]
        events.len() > 0 && events.last() == EventView::ReadBack(Ok(h)) && was_written(
            events.drop_last(),
            h,
            n,
        ) && safe(o, events.drop_last(), h)
}

/// The device is read back only right after the page cache was dropped.
pub proof fn law_the_cache_is_dropped_before_reading_back(o: OrderView, events: Seq<EventView>)
    ensures
        run(o, events).act is ReadBack ==> events.len() > 0 && events.last() == EventView::Dropped,
{
}

/// The partition table is changed only once the copy is proved, and only when that was wanted.
pub proof fn law_a_scheme_is_left_only_after_the_proof(o: OrderView, events: Seq<EventView>)
    ensures
        run(o, events).act is Scheme ==> proved(o, events) && o.scheme == Some(
            run(o, events).act->Scheme_0,
        ),
{
    lemma_proved(o, events);
}

/// A burn ends well only when the copy is proved, or when the proof was not wanted.
pub proof fn law_a_burn_ends_well_only_with_the_proof(o: OrderView, events: Seq<EventView>)
    ensures
        run(o, events).act == ActView::End(true) ==> proved(o, events) || o.skip_read_back,
{
    lemma_proved(o, events);
}

proof fn lemma_proved(o: OrderView, events: Seq<EventView>)
    ensures
        run(o, events).act is Scheme ==> proved(o, events) && o.scheme == Some(
            run(o, events).act->Scheme_0,
        ),
        run(o, events).act == ActView::End(true) ==> proved(o, events) || o.skip_read_back,
{
    if events.len() > 0 {
        let before = events.drop_last();
        lemma_run(o, before);
        if let StageView::ReadingBack { hash, written } = run(o, before).stage {
            assert(safe(o, before, hash));
            assert(was_written(before, hash, written));
        }
    }
}

/// A mismatch on reading back is never called good.
pub proof fn law_a_mismatch_is_never_called_good(o: OrderView, hash: Seq<char>, n: u64, back: Seq<char>)
    requires
        back != hash,
    ensures
        next_turn(
            o,
            StageView::ReadingBack { hash, written: n },
            EventView::ReadBack(Ok(back)),
        ).act == ActView::End(false),
{
}

/// Nothing went wrong: what the stage waits for was done, and came out as it should.
pub open spec fn went_well(o: OrderView, stage: StageView, e: EventView) -> bool {
    match (stage, e) {
        (StageView::Hashing, EventView::Hashed(Ok(h))) => expected(o, h) && o.root,
        (StageView::Unmounting { hash: _, next: _ }, EventView::Unmounted(ok)) => ok,
        (StageView::Confirming { hash: _ }, _) => names_device(o, e),
        (StageView::Writing { hash }, EventView::Wrote(Ok(w))) => w.hash == hash,
        (StageView::Dropping { hash: _, written: _ }, EventView::Dropped) => true,
        (StageView::ReadingBack { hash, written: _ }, EventView::ReadBack(Ok(back))) => back
            == hash,
        _ => false,
    }
}

/// A burn fails exactly when something is wrong: it begins when the device may be written, the image
/// fits, and a hash that is known already is the one that was asked for, and it goes on, to the
/// proof that the stick carries the image, for as long as every step goes well.
pub proof fn law_a_burn_fails_only_for_a_reason(o: OrderView, stage: StageView, e: EventView)
    ensures
        first_turn(o).act == ActView::End(false) <==> !(permitted(o) && (o.known matches Some(h)
            ==> expected(o, h) && o.root)),
        next_turn(o, stage, e).act == ActView::End(false) <==> !went_well(o, stage, e),
{
}

/// How many events are still to come at the most.
pub open spec fn events_left(o: OrderView, stage: StageView) -> int {
    match stage {
        StageView::Hashing => o.device.mounts.len() as int + 5,
        StageView::Unmounting { hash: _, next } => o.device.mounts.len() - next + 4,
        StageView::Confirming { hash: _ } => 4,
        StageView::Writing { hash: _ } => 3,
        StageView::Dropping { hash: _, written: _ } => 2,
        StageView::ReadingBack { hash: _, written: _ } => 1,
        StageView::Over => 0,
    }
}

/// A burn comes to an end: every event leaves fewer to come.
pub proof fn law_a_burn_ends(o: OrderView, stage: StageView, e: EventView)
    requires
        reachable(o, stage),
    ensures
        stage is Over || 0 <= events_left(o, next_turn(o, stage, e).stage) < events_left(o, stage),
{
}


/// `h` is a hash that the image was found to have, and it is the one that was asked for, if one was:
/// white space around what was asked for and the case of its letters make no difference.
pub open spec fn gate_passed(o: OrderView, events: Seq<EventView>, h: Seq<char>) -> bool {
    &&& o.known == Some(h) || (o.known is None && events.contains(EventView::Hashed(Ok(h))))
    &&& o.expect is Some ==> text::lower(text::trim(o.expect->0)) == text::lower(h)
}

/// Something is done to the device, or it is said to be done with.
pub open spec fn touches(act: ActView) -> bool {
    ||| act is Unmount
    ||| act is Confirm
    ||| act is Write
    ||| act is DropCaches
    ||| act is ReadBack
    ||| act is Scheme
    ||| act == ActView::End(true)
}

/// Event `j` says that what is mounted at place `k` was unmounted, as was asked.
pub open spec fn unmounted_at(o: OrderView, events: Seq<EventView>, k: int, j: int) -> bool {
    &&& 0 <= j < events.len()
    &&& run(o, events.take(j)).act == ActView::Unmount(o.device.mounts[k])
    &&& events[j] == EventView::Unmounted(true)
}

/// What is mounted at place `k` was unmounted.
pub open spec fn is_unmounted(o: OrderView, events: Seq<EventView>, k: int) -> bool {
    exists|j: int| #[trigger] unmounted_at(o, events, k, j)
}

spec fn settled_before(o: OrderView, events: Seq<EventView>, h: Seq<char>, n: int) -> bool {
    &&& gate_passed(o, events, h)
    &&& !o.device.holds_root && o.device.size > 0 && (o.device.removable || o.allow_internal)
    &&& o.image_len <= o.device.size
    &&& o.root
    &&& 0 <= n <= o.device.mounts.len()
    &&& forall|k: int| 0 <= k < n ==> #[trigger] is_unmounted(o, events, k)
}

spec fn was_confirmed(o: OrderView, events: Seq<EventView>) -> bool {
    o.yes || exists|i: int| 0 <= i < events.len() && typed_name(o, #[trigger] events[i])
}

/// The answer to the question is the name of the device, give or take white space around it.
pub open spec fn typed_name(o: OrderView, e: EventView) -> bool {
    match e {
        EventView::Answered(Some(l)) => text::trim(l) == o.device.name,
        _ => false,
    }
}

spec fn in_turn(o: OrderView, events: Seq<EventView>, turn: TurnView) -> bool {
    let all = o.device.mounts.len() as int;
    match turn.stage {
        StageView::Hashing => turn.act is HashImage && o.known is None && !o.device.holds_root
            && o.device.size > 0 && (o.device.removable || o.allow_internal) && o.image_len
            <= o.device.size,
        StageView::Unmounting { hash, next } => 0 <= next < all && turn.act == ActView::Unmount(
            o.device.mounts[next as int],
        ) && settled_before(o, events, hash, next as int),
        StageView::Confirming { hash } => turn.act is Confirm && !o.yes && settled_before(
            o,
            events,
            hash,
            all,
        ),
        StageView::Writing { hash } => turn.act is Write && settled_before(o, events, hash, all)
            && was_confirmed(o, events),
        StageView::Dropping { hash, written } => turn.act is DropCaches && !o.skip_read_back
            && settled_before(o, events, hash, all) && was_confirmed(o, events),
        StageView::ReadingBack { hash, written } => turn.act == ActView::ReadBack(written)
            && settled_before(o, events, hash, all) && was_confirmed(o, events),
        StageView::Over => touches(turn.act) ==> (turn.act is Scheme || turn.act == ActView::End(
            true,
        )) && exists|h: Seq<char>| #[trigger]
            settled_before(o, events, h, all) && was_confirmed(o, events),
    }
}

proof fn lemma_settled_still(
    o: OrderView,
    events: Seq<EventView>,
    h: Seq<char>,
    n: int,
)
    requires
        events.len() > 0,
        settled_before(o, events.drop_last(), h, n),
    ensures
        settled_before(o, events, h, n),
{
    let before = events.drop_last();
    if o.known is None {
        let i = choose|i: int|
            0 <= i < before.len() && before[i] == EventView::Hashed(Ok::<Seq<char>, Seq<char>>(h));
        assert(events[i] == EventView::Hashed(Ok::<Seq<char>, Seq<char>>(h)));
    }
    assert forall|k: int| 0 <= k < n implies #[trigger] is_unmounted(o, events, k) by {
        assert(is_unmounted(o, before, k));
        let j = choose|j: int| #[trigger] unmounted_at(o, before, k, j);
        assert(events.take(j) =~= before.take(j));
        assert(unmounted_at(o, events, k, j));
    }
}

proof fn lemma_confirmed_still(o: OrderView, events: Seq<EventView>)
    requires
        events.len() > 0,
    ensures
        was_confirmed(o, events.drop_last()) ==> was_confirmed(o, events),
        typed_name(o, events.last()) ==> was_confirmed(o, events),
{
    let before = events.drop_last();
    assert(events[events.len() - 1] == events.last());
    if !o.yes && was_confirmed(o, before) {
        let i = choose|i: int| 0 <= i < before.len() && typed_name(o, #[trigger] before[i]);
        assert(typed_name(o, events[i]));
    }
}

proof fn lemma_checked_turn(
    o: OrderView,
    events: Seq<EventView>,
    said: Seq<say::NoteView>,
    h: Seq<char>,
)
    requires
        o.known == Some(h) || (o.known is None && events.contains(EventView::Hashed(Ok(h)))),
        !o.device.holds_root && o.device.size > 0 && (o.device.removable || o.allow_internal),
        o.image_len <= o.device.size,
    ensures
        in_turn(o, events, checked(o, said, h)),
{
    if expected(o, h) && o.root {
        assert(settled_before(o, events, h, 0));
    }
}

proof fn lemma_turns(o: OrderView, events: Seq<EventView>)
    ensures
        in_turn(o, events, run(o, events)),
    decreases events.len(),
{
    if events.len() == 0 {
        if o.known is Some && permitted(o) {
            lemma_checked_turn(o, events, introduction(o), o.known->0);
        }
    } else {
        let before = events.drop_last();
        let turn = run(o, before);
        let e = events.last();
        let all = o.device.mounts.len() as int;
        lemma_turns(o, before);
        lemma_confirmed_still(o, events);
        assert(events[events.len() - 1] == e);
        match turn.stage {
            StageView::Hashing => {
                if let EventView::Hashed(Ok(h)) = e {
                    assert(events.contains(EventView::Hashed(Ok(h))));
                    lemma_checked_turn(o, events, seq![say::NoteView::Good("sha256 "@ + h)], h);
                }
            },
            StageView::Unmounting { hash, next } => {
                lemma_settled_still(o, events, hash, next as int);
                let j = events.len() - 1;
                assert(events.take(j) =~= before);
                if e == EventView::Unmounted(true) {
                    assert(unmounted_at(o, events, next as int, j));
                    assert(is_unmounted(o, events, next as int));
                    assert(settled_before(o, events, hash, next as int + 1));
                }
            },
            StageView::Confirming { hash } => {
                lemma_settled_still(o, events, hash, all);
            },
            StageView::Writing { hash } => {
                lemma_settled_still(o, events, hash, all);
            },
            StageView::Dropping { hash, written } => {
                lemma_settled_still(o, events, hash, all);
            },
            StageView::ReadingBack { hash, written } => {
                lemma_settled_still(o, events, hash, all);
            },
            StageView::Over => {},
        }
    }
}

/// What is asked for by `--expect` is a hard gate: whatever the other flags are and whatever happens,
/// nothing is unmounted, asked, written, read back or called good unless the image was found to have
/// that hash; and a burn whose image has another one ends with the turn that finds out.
pub proof fn law_expect_is_a_hard_gate(o: OrderView, events: Seq<EventView>, said: Seq<char>)
    ensures
        touches(run(o, events).act) ==> exists|h: Seq<char>| #[trigger] gate_passed(o, events, h),
        o.expect is Some && text::lower(text::trim(o.expect->0)) != text::lower(said) ==> {
            &&& next_turn(o, StageView::Hashing, EventView::Hashed(Ok(said))).act == ActView::End(
                false,
            )
            &&& o.known == Some(said) ==> first_turn(o).act == ActView::End(false)
        },
{
    lemma_turns(o, events);
    if touches(run(o, events).act) {
        let all = o.device.mounts.len() as int;
        match run(o, events).stage {
            StageView::Unmounting { hash, next: _ } => assert(gate_passed(o, events, hash)),
            StageView::Confirming { hash } => assert(gate_passed(o, events, hash)),
            StageView::Writing { hash } => assert(gate_passed(o, events, hash)),
            StageView::Dropping { hash, written: _ } => assert(gate_passed(o, events, hash)),
            StageView::ReadingBack { hash, written: _ } => assert(gate_passed(o, events, hash)),
            _ => {
                let h = choose|h: Seq<char>| #[trigger] settled_before(o, events, h, all);
                assert(gate_passed(o, events, h));
            },
        }
    }
}

/// Before the device is written, and before anything is called good: it does not carry the running
/// system, has a medium, is removable or was allowed not to be, the image fits, the program may write
/// devices, each thing that was mounted was asked to be unmounted and was, the image was found to have
/// a hash, and its name was typed unless no question was wanted.
pub proof fn law_what_comes_before_writing(o: OrderView, events: Seq<EventView>)
    ensures
        ({
            let act = run(o, events).act;
            act is Write || act is DropCaches || act is ReadBack || act is Scheme || act
                == ActView::End(true) ==> {
                &&& !o.device.holds_root
                &&& o.device.size > 0
                &&& o.device.removable || o.allow_internal
                &&& o.image_len <= o.device.size
                &&& o.root
                &&& forall|k: int|
                    0 <= k < o.device.mounts.len() ==> #[trigger] is_unmounted(o, events, k)
                &&& exists|h: Seq<char>| #[trigger] gate_passed(o, events, h)
                &&& o.yes || exists|i: int|
                    0 <= i < events.len() && typed_name(o, #[trigger] events[i])
            }
        }),
{
    lemma_turns(o, events);
    law_expect_is_a_hard_gate(o, events, Seq::empty());
}

/// The next thing once the image is known to be the right one: what is mounted is unmounted, from the
/// first on, then the question is asked, unless it was not wanted, and then it is written.
pub open spec fn goes_ahead(o: OrderView, act: ActView) -> bool {
    if o.device.mounts.len() > 0 {
        act == ActView::Unmount(o.device.mounts[0])
    } else if o.yes {
        act is Write
    } else {
        act is Confirm
    }
}

/// What each event leads to, for every order that has come so far: a burn goes on exactly when the event
/// is the good answer to what was asked, and then to exactly the next thing.
pub proof fn law_what_follows_what(o: OrderView, h: Seq<char>, n: u64, k: nat, e: EventView)
    ensures
        // the device, the size and the hash that is known decide first
        first_turn(o).act == ActView::End(false) <==> {
            ||| o.device.holds_root
            ||| o.device.size == 0
            ||| !o.device.removable && !o.allow_internal
            ||| o.image_len > o.device.size
            ||| o.known is Some && o.expect is Some && text::lower(text::trim(o.expect->0))
                != text::lower(o.known->0)
            ||| o.known is Some && !o.root
        },
        first_turn(o).act != ActView::End(false) ==> if o.known is None {
            first_turn(o).act is HashImage
        } else {
            goes_ahead(o, first_turn(o).act)
        },
        // a hash that was not known has to be the one that was asked for
        ({
            let next = next_turn(o, StageView::Hashing, e).act;
            match e {
                EventView::Hashed(Ok(got)) => if o.root && (o.expect is Some ==> text::lower(
                    text::trim(o.expect->0),
                ) == text::lower(got)) {
                    goes_ahead(o, next)
                } else {
                    next == ActView::End(false)
                },
                _ => next == ActView::End(false),
            }
        }),
        // unmounting goes through the mounts one by one
        ({
            let next = next_turn(o, StageView::Unmounting { hash: h, next: k }, e).act;
            if e != EventView::Unmounted(true) {
                next == ActView::End(false)
            } else if k + 1 < o.device.mounts.len() {
                next == ActView::Unmount(o.device.mounts[k as int + 1])
            } else if o.yes {
                next is Write
            } else {
                next is Confirm
            }
        }),
        // the name of the device, and nothing else, confirms
        next_turn(o, StageView::Confirming { hash: h }, e).act == (if typed_name(o, e) {
            ActView::Write
        } else {
            ActView::End(false)
        }),
        // what was written has to be what was hashed; then it is read back, as many bytes as were written
        next_turn(o, StageView::Writing { hash: h }, e).act == (match e {
            EventView::Wrote(Ok(w)) => if w.hash != h {
                ActView::End(false)
            } else if o.skip_read_back {
                ActView::End(true)
            } else {
                ActView::DropCaches
            },
            _ => ActView::End(false),
        }),
        forall|w: WroteView|
            w.hash == h && !o.skip_read_back ==> (#[trigger] next_turn(
                o,
                StageView::Writing { hash: h },
                EventView::Wrote(Ok(w)),
            )).stage == (StageView::Dropping { hash: h, written: w.written }),
        next_turn(o, StageView::Dropping { hash: h, written: n }, EventView::Dropped).act
            == ActView::ReadBack(n),
        // and only the same hash again is good
        next_turn(o, StageView::ReadingBack { hash: h, written: n }, e).act == (if e
            == EventView::ReadBack(Ok(h)) {
            match o.scheme {
                Some(want) => ActView::Scheme(want),
                None => ActView::End(true),
            }
        } else {
            ActView::End(false)
        }),
{
}

/// A stick is said to be verified only when what was read back off it has the hash that the image was
/// found to have before.
pub proof fn law_verified_is_said_only_of_the_image(
    o: OrderView,
    stage: StageView,
    e: EventView,
    i: int,
)
    requires
        0 <= i < next_turn(o, stage, e).notes.len(),
        next_turn(o, stage, e).notes[i] is Good,
        text::starts_with(next_turn(o, stage, e).notes[i]->Good_0, "VERIFIED"@),
    ensures
        match (stage, e) {
            (StageView::ReadingBack { hash, written: _ }, EventView::ReadBack(Ok(back))) => back
                == hash,
            _ => false,
        },
{
    reveal_strlit("VERIFIED");
    reveal_strlit("sha256 ");
    reveal_strlit("matches --expect");
    reveal_strlit("unmounted ");
    reveal_strlit("wrote ");
    let s = next_turn(o, stage, e).notes[i]->Good_0;
    assert(s.subrange(0, 8)[0] == 'V');
    assert(s[0] == 'V');
    match (stage, e) {
        (StageView::Hashing, EventView::Hashed(Ok(h))) => {
            assert(("sha256 "@ + h)[0] == 's');
        },
        (StageView::Unmounting { hash, next }, EventView::Unmounted(_)) => {
            assert(("unmounted "@ + o.device.mounts[next as int])[0] == 'u');
        },
        (StageView::Writing { hash }, EventView::Wrote(Ok(w))) => {
            let line = "wrote "@ + layout::commas(w.written as nat) + " in "@ + w.seconds + "s ("@
                + dev::human_text(w.rate) + "/s)"@;
            assert(line[0] == 'w');
        },
        _ => {},
    }
}

/// The event at the end says that the stick was verified exactly when what was read back is the image,
/// and which hash was read; what was read back wrongly is told with what was expected.
pub proof fn law_what_the_last_event_says(o: OrderView, hash: Seq<char>, n: u64, back: Seq<char>)
    ensures
        ({
            let said = next_turn(
                o,
                StageView::ReadingBack { hash, written: n },
                EventView::ReadBack(Ok(back)),
            ).notes;
            &&& said[1] is Event
            &&& json::has_field(said[1]->Event_0, "sha256"@, json::quoted(back))
            &&& back == hash ==> said[0] is Good && json::has_field(
                said[1]->Event_0,
                "verified"@,
                "true"@,
            ) && json::has_field(said[1]->Event_0, "bytes"@, text::decimal(n as nat))
            &&& back != hash ==> said[0] is Bad && json::has_field(
                said[1]->Event_0,
                "verified"@,
                "false"@,
            ) && json::has_field(said[1]->Event_0, "expected"@, json::quoted(hash))
        }),
{
    let good = seq![
        ("event"@, json::quoted("done"@)),
        ("verified"@, json::truth(true)),
        ("sha256"@, json::quoted(back)),
        ("bytes"@, text::decimal(n as nat)),
    ];
    let bad = seq![
        ("event"@, json::quoted("done"@)),
        ("verified"@, json::truth(false)),
        ("sha256"@, json::quoted(back)),
        ("expected"@, json::quoted(hash)),
    ];
    json::law_a_written_field_is_there(good, 1);
    json::law_a_written_field_is_there(good, 2);
    json::law_a_written_field_is_there(good, 3);
    json::law_a_written_field_is_there(bad, 1);
    json::law_a_written_field_is_there(bad, 2);
    json::law_a_written_field_is_there(bad, 3);
}

/// Writing went well only when the writer says so: an error is one, and so is silence.
pub proof fn law_the_writer_has_the_last_word(e: Seq<char>)
    ensures
        writing_outcome(Some(Ok(()))) is Ok,
        writing_outcome(Some(Err(e))) == Err::<(), Seq<char>>("write device: "@ + e),
        writing_outcome(None) is Err,
{
}

} // verus!
