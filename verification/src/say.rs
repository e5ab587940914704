//! What the program says, to a person or to a program that reads it.

use vstd::prelude::*;
use vstd::string::*;

use crate::json;
use crate::text;

verus! {

pub const BOLD: &'static str = "\x1b[1m";

pub const DIM: &'static str = "\x1b[2m";

pub const RED: &'static str = "\x1b[31m";

pub const GRN: &'static str = "\x1b[32m";

pub const YEL: &'static str = "\x1b[33m";

pub const RST: &'static str = "\x1b[0m";

/// One thing to say.
pub enum Note {
    /// Something went well.
    Good(String),
    /// Something is wrong.
    Bad(String),
    /// Something begins.
    Step(String),
    /// A line for a person only.
    Plain(String),
    /// A line for a program only.
    Event(String),
}

pub enum NoteView {
    Good(Seq<char>),
    Bad(Seq<char>),
    Step(Seq<char>),
    Plain(Seq<char>),
    Event(Seq<char>),
}

impl View for Note {
    type V = NoteView;

    open spec fn view(&self) -> NoteView {
        match self {
            Note::Good(s) => NoteView::Good(s@),
            Note::Bad(s) => NoteView::Bad(s@),
            Note::Step(s) => NoteView::Step(s@),
            Note::Plain(s) => NoteView::Plain(s@),
            Note::Event(s) => NoteView::Event(s@),
        }
    }
}

pub open spec fn notes_view(v: Seq<Note>) -> Seq<NoteView> {
    Seq::new(v.len(), |i: int| v[i]@)
}

/// Add a note to some.
pub fn add_note(notes: &mut Vec<Note>, note: Note)
    ensures
        notes_view(final(notes)@) == notes_view(old(notes)@).push(note@),
{
    let ghost before = notes@;
    notes.push(note);
    assert(notes_view(notes@) =~= notes_view(before).push(note@));
}

pub fn no_notes() -> (r: Vec<Note>)
    ensures
        notes_view(r@) == Seq::<NoteView>::empty(),
{
    let v: Vec<Note> = Vec::new();
    assert(notes_view(v@) =~= Seq::<NoteView>::empty());
    v
}

pub fn one_note(note: Note) -> (r: Vec<Note>)
    ensures
        notes_view(r@) == seq![note@],
{
    let mut v: Vec<Note> = no_notes();
    add_note(&mut v, note);
    assert(notes_view(v@) =~= seq![note@]);
    v
}

/// A line, and where it goes.
pub enum Shown {
    Out(String),
    Complaint(String),
    Nothing,
}

pub enum ShownView {
    Out(Seq<char>),
    Complaint(Seq<char>),
    Nothing,
}

impl View for Shown {
    type V = ShownView;

    open spec fn view(&self) -> ShownView {
        match self {
            Shown::Out(s) => ShownView::Out(s@),
            Shown::Complaint(s) => ShownView::Complaint(s@),
            Shown::Nothing => ShownView::Nothing,
        }
    }
}

/// The event that carries a message.
pub open spec fn message_event(event: Seq<char>, message: Seq<char>) -> Seq<char> {
    json::object_text(
        seq![("event"@, json::quoted(event)), ("message"@, json::quoted(message))],
    )
}

/// How a note is shown, to a program when `json` holds, to a person otherwise.
pub open spec fn shown_as(note: NoteView, json: bool) -> ShownView {
    match note {
        NoteView::Good(m) => if json {
            ShownView::Out(message_event("ok"@, m))
        } else {
            ShownView::Out("  "@ + GRN@ + "ok"@ + RST@ + " "@ + m)
        },
        NoteView::Bad(m) => if json {
            ShownView::Out(message_event("error"@, m))
        } else {
            ShownView::Complaint("  "@ + RED@ + "!!"@ + RST@ + " "@ + m)
        },
        NoteView::Step(m) => if json {
            ShownView::Out(message_event("step"@, m))
        } else {
            ShownView::Out(BOLD@ + ">>"@ + RST@ + " "@ + m)
        },
        NoteView::Plain(m) => if json {
            ShownView::Nothing
        } else {
            ShownView::Out(m)
        },
        NoteView::Event(m) => if json {
            ShownView::Out(m)
        } else {
            ShownView::Nothing
        },
    }
}

fn event_line(event: &str, message: &str) -> (r: String)
    ensures
        r@ == message_event(event@, message@),
{
    let mut f: Vec<json::Field> = Vec::new();
    f.push(("event", json::s(event)));
    f.push(("message", json::s(message)));
    assert(json::fields_view(f@) =~= seq![
        ("event"@, json::quoted(event@)),
        ("message"@, json::quoted(message@)),
    ]);
    json::object(&f)
}

fn marked(before: &str, mark: &str, message: &str) -> (r: String)
    ensures
        r@ == before@ + mark@ + RST@ + " "@ + message@,
{
    let mut s: String = before.to_owned();
    s.append(mark);
    s.append(RST);
    s.append(" ");
    s.append(message);
    s
}

pub fn show(note: &Note, json: bool) -> (r: Shown)
    ensures
        r@ == shown_as(note@, json),
{
    match note {
        Note::Good(m) => if json {
            Shown::Out(event_line("ok", m))
        } else {
            let mut b: String = "  ".to_owned();
            b.append(GRN);
            Shown::Out(marked(&b, "ok", m))
        },
        Note::Bad(m) => if json {
            Shown::Out(event_line("error", m))
        } else {
            let mut b: String = "  ".to_owned();
            b.append(RED);
            Shown::Complaint(marked(&b, "!!", m))
        },
        Note::Step(m) => if json {
            Shown::Out(event_line("step", m))
        } else {
            Shown::Out(marked(BOLD, ">>", m))
        },
        Note::Plain(m) => if json {
            Shown::Nothing
        } else {
            Shown::Out(m.clone())
        },
        Note::Event(m) => if json {
            Shown::Out(m.clone())
        } else {
            Shown::Nothing
        },
    }
}

/// A program reads events only: each message is one, and what is meant for a person alone is left out. A
/// person reads the rest, and what went wrong is a complaint.
pub proof fn law_who_reads_what(m: Seq<char>)
    ensures
        shown_as(NoteView::Plain(m), true) is Nothing && shown_as(NoteView::Plain(m), false)
            == ShownView::Out(m),
        shown_as(NoteView::Event(m), true) == ShownView::Out(m) && shown_as(NoteView::Event(m), false)
            is Nothing,
        shown_as(NoteView::Bad(m), false) is Complaint && shown_as(NoteView::Bad(m), true) is Out,
        shown_as(NoteView::Good(m), false) is Out && text::ends_with(
            shown_as(NoteView::Good(m), false)->Out_0,
            m,
        ),
        text::ends_with(shown_as(NoteView::Bad(m), false)->Complaint_0, m),
        shown_as(NoteView::Step(m), false) is Out && text::ends_with(
            shown_as(NoteView::Step(m), false)->Out_0,
            m,
        ),
        shown_as(NoteView::Good(m), true) == ShownView::Out(
            json::object_text(
                seq![("event"@, json::quoted("ok"@)), ("message"@, json::quoted(m))],
            ),
        ),
        shown_as(NoteView::Bad(m), true) == ShownView::Out(
            json::object_text(
                seq![("event"@, json::quoted("error"@)), ("message"@, json::quoted(m))],
            ),
        ),
        shown_as(NoteView::Step(m), true) == ShownView::Out(
            json::object_text(
                seq![("event"@, json::quoted("step"@)), ("message"@, json::quoted(m))],
            ),
        ),
{
    let g = shown_as(NoteView::Good(m), false)->Out_0;
    let b = shown_as(NoteView::Bad(m), false)->Complaint_0;
    let s = shown_as(NoteView::Step(m), false)->Out_0;
    assert(g.subrange(g.len() - m.len(), g.len() as int) =~= m);
    assert(b.subrange(b.len() - m.len(), b.len() as int) =~= m);
    assert(s.subrange(s.len() - m.len(), s.len() as int) =~= m);
}

} // verus!
