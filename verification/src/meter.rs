//! The live byte counter.
//!
//! It reports exact byte counts rather than a rounded percentage: on a 4 GB image a percent is 42
//! megabytes wide.

use vstd::prelude::*;
use vstd::string::*;

use crate::dev;
use crate::json;
use crate::layout;
use crate::say::{RST, YEL};
use crate::text;

verus! {

/// The segments of the bar.
pub const SEGMENTS: usize = 24;

/// Whether it is time to draw: a twelfth of a second after the last time, or at the end.
pub fn due(since_last_ms: u64, done: u64, total: u64) -> (r: bool)
    ensures
        r == (since_last_ms >= 80 || done >= total),
{
    since_last_ms >= 80 || done >= total
}

// ---- for a program --------------------------------------------------------------------------

/// The progress event.
pub open spec fn progress_text(
    phase: Seq<char>,
    done: u64,
    total: u64,
    rate: u64,
    eta: u64,
    elapsed_ms: u64,
) -> Seq<char> {
    json::object_text(
        seq![
            ("event"@, json::quoted("progress"@)),
            ("phase"@, json::quoted(phase)),
            ("done"@, text::decimal(done as nat)),
            ("total"@, text::decimal(total as nat)),
            ("bytes_per_second"@, text::decimal(rate as nat)),
            ("eta_seconds"@, text::decimal(eta as nat)),
            ("elapsed_ms"@, text::decimal(elapsed_ms as nat)),
        ],
    )
}

pub fn progress(phase: &str, done: u64, total: u64, rate: u64, eta: u64, elapsed_ms: u64) -> (r:
    String)
    ensures
        r@ == progress_text(phase@, done, total, rate, eta, elapsed_ms),
{
    let mut f: Vec<json::Field> = Vec::new();
    f.push(("event", json::s("progress")));
    f.push(("phase", json::s(phase)));
    f.push(("done", json::n(done)));
    f.push(("total", json::n(total)));
    f.push(("bytes_per_second", json::n(rate)));
    f.push(("eta_seconds", json::n(eta)));
    f.push(("elapsed_ms", json::n(elapsed_ms)));
    assert(json::fields_view(f@) =~= seq![
        ("event"@, json::quoted("progress"@)),
        ("phase"@, json::quoted(phase@)),
        ("done"@, text::decimal(done as nat)),
        ("total"@, text::decimal(total as nat)),
        ("bytes_per_second"@, text::decimal(rate as nat)),
        ("eta_seconds"@, text::decimal(eta as nat)),
        ("elapsed_ms"@, text::decimal(elapsed_ms as nat)),
    ]);
    json::object(&f)
}

// ---- for a person ---------------------------------------------------------------------------

/// A bar with its first `filled` segments full.
pub open spec fn bar_of(filled: nat) -> Seq<char> {
    Seq::new(
        SEGMENTS as nat,
        |i: int|
            if i < filled {
                '\u{25B0}'
            } else {
                '\u{25B1}'
            },
    )
}

/// A bar that only shows that something moves.
pub open spec fn spinning(phase: nat) -> Seq<char> {
    Seq::new(
        SEGMENTS as nat,
        |i: int|
            if (i + phase) % 2 == 0 {
                '\u{25B0}'
            } else {
                '\u{25B1}'
            },
    )
}

/// How many segments are full.
pub open spec fn filled_of(done: u64, total: u64) -> nat {
    (done * SEGMENTS / total as int) as nat
}

fn push_bar(out: &mut String, filled: u128)
    ensures
        final(out)@ == old(out)@ + bar_of(filled as nat),
{
    let ghost before = out@;
    let mut i: usize = 0;
    assert(bar_of(filled as nat).take(0) =~= Seq::<char>::empty());
    while i < SEGMENTS
        invariant
            i <= SEGMENTS,
            out@ == before + bar_of(filled as nat).take(i as int),
        decreases SEGMENTS - i,
    {
        if (i as u128) < filled {
            out.push('\u{25B0}');
        } else {
            out.push('\u{25B1}');
        }
        i += 1;
        assert(out@ =~= before + bar_of(filled as nat).take(i as int));
    }
    assert(bar_of(filled as nat).take(i as int) =~= bar_of(filled as nat));
}

fn push_spinning(out: &mut String, phase: u64)
    ensures
        final(out)@ == old(out)@ + spinning(phase as nat),
{
    let ghost before = out@;
    let odd: usize = (phase % 2) as usize;
    let mut i: usize = 0;
    assert(spinning(phase as nat).take(0) =~= Seq::<char>::empty());
    while i < SEGMENTS
        invariant
            i <= SEGMENTS,
            odd == phase % 2,
            out@ == before + spinning(phase as nat).take(i as int),
        decreases SEGMENTS - i,
    {
        if (i + odd) % 2 == 0 {
            out.push('\u{25B0}');
        } else {
            out.push('\u{25B1}');
        }
        i += 1;
        assert(out@ =~= before + spinning(phase as nat).take(i as int));
    }
    assert(spinning(phase as nat).take(i as int) =~= spinning(phase as nat));
}

/// The line of a counter whose total is not known: what has arrived, not a bar that cannot move.
pub open spec fn unknown_line(done: u64, rate: u64, elapsed_ms: u64) -> Seq<char> {
    "\r  "@ + YEL@ + spinning((elapsed_ms / 120) as nat) + RST@ + "  "@ + layout::right(
        layout::commas(done as nat),
        13,
    ) + " bytes  "@ + layout::right(dev::human_text(rate), 9) + "/s  (total unknown)   "@
}

/// The line of a counter whose total is known.
pub open spec fn known_line(done: u64, total: u64, rate: u64, eta: u64) -> Seq<char> {
    "\r  "@ + YEL@ + bar_of(filled_of(done, total)) + RST@ + " "@ + layout::right(
        text::decimal((done * 100 / total as int) as nat),
        3,
    ) + "%  "@ + layout::right(layout::commas(done as nat), 13) + " / "@ + layout::left(
        layout::commas(total as nat),
        13,
    ) + " "@ + layout::right(dev::human_text(rate), 9) + "/s  eta "@ + layout::two(
        (eta / 60) as nat,
    ) + ":"@ + layout::two((eta % 60) as nat) + "  "@
}

pub open spec fn line_text(done: u64, total: u64, rate: u64, eta: u64, elapsed_ms: u64) -> Seq<
    char,
> {
    if total == 0 {
        unknown_line(done, rate, elapsed_ms)
    } else {
        known_line(done, total, rate, eta)
    }
}

fn draw_unknown(done: u64, rate: u64, elapsed_ms: u64) -> (r: String)
    ensures
        r@ == unknown_line(done, rate, elapsed_ms),
{
    let mut s: String = "\r  ".to_owned();
    s.append(YEL);
    push_spinning(&mut s, elapsed_ms / 120);
    s.append(RST);
    s.append("  ");
    s.append(&layout::at_right(&layout::with_commas(done), 13));
    s.append(" bytes  ");
    s.append(&layout::at_right(&dev::human(rate), 9));
    s.append("/s  (total unknown)   ");
    s
}

fn draw_known(done: u64, total: u64, rate: u64, eta: u64) -> (r: String)
    requires
        total > 0,
        done * 100 <= u64::MAX,
    ensures
        r@ == known_line(done, total, rate, eta),
{
    let filled: u128 = done as u128 * SEGMENTS as u128 / total as u128;
    assert(filled as nat == filled_of(done, total));
    let mut s: String = "\r  ".to_owned();
    s.append(YEL);
    push_bar(&mut s, filled);
    s.append(RST);
    s.append(" ");
    s.append(&layout::at_right(&text::number_text(done * 100 / total), 3));
    s.append("%  ");
    s.append(&layout::at_right(&layout::with_commas(done), 13));
    s.append(" / ");
    s.append(&layout::at_left(&layout::with_commas(total), 13));
    s.append(" ");
    s.append(&layout::at_right(&dev::human(rate), 9));
    s.append("/s  eta ");
    s.append(&layout::two_digits(eta / 60));
    s.append(":");
    s.append(&layout::two_digits(eta % 60));
    s.append("  ");
    s
}

/// The line a person sees, drawn over the one before.
pub fn draw(done: u64, total: u64, rate: u64, eta: u64, elapsed_ms: u64) -> (r: String)
    requires
        done * 100 <= u64::MAX,
    ensures
        r@ == line_text(done, total, rate, eta, elapsed_ms),
{
    if total == 0 {
        draw_unknown(done, rate, elapsed_ms)
    } else {
        draw_known(done, total, rate, eta)
    }
}

/// The bar is empty at the start, full at the end, and never shrinks on the way.
pub proof fn law_the_bar_only_grows(a: u64, b: u64, total: u64)
    requires
        total > 0,
        a <= b <= total,
    ensures
        filled_of(0, total) == 0,
        filled_of(total, total) == SEGMENTS,
        filled_of(a, total) <= filled_of(b, total) <= SEGMENTS,
{
    vstd::arithmetic::div_mod::lemma_div_is_ordered(a * 24, b * 24, total as int);
    vstd::arithmetic::div_mod::lemma_div_is_ordered(b * 24, total * 24, total as int);
    vstd::arithmetic::div_mod::lemma_div_multiples_vanish(24, total as int);
    vstd::arithmetic::div_mod::lemma_div_basics(total as int);
    assert(total * 24 == 24 * total);
}

// ---- flushing -------------------------------------------------------------------------------

/// The kilobytes that a line of /proc/meminfo says are still owed to a device.
pub open spec fn owed_kb(line: Seq<char>) -> nat {
    let w = text::words(line);
    if (text::starts_with(line, "Dirty:"@) || text::starts_with(line, "Writeback:"@)) && w.len() > 1
        && text::parse_u64(w[1]) is Some {
        text::parse_u64(w[1])->0 as nat
    } else {
        0
    }
}

/// The bytes that some lines say are still owed.
pub open spec fn owed(ls: Seq<Seq<char>>) -> nat
    decreases ls.len(),
{
    if ls.len() == 0 {
        0
    } else {
        owed(ls.drop_last()) + owed_kb(ls.last()) * 1024
    }
}

proof fn lemma_owed_grows(ls: Seq<Seq<char>>, i: int)
    requires
        0 <= i <= ls.len(),
    ensures
        owed(ls.take(i)) <= owed(ls),
    decreases ls.len(),
{
    if i < ls.len() {
        assert(ls.drop_last().take(i) =~= ls.take(i));
        lemma_owed_grows(ls.drop_last(), i);
    } else {
        assert(ls.take(i) =~= ls);
    }
}

fn line_owes(line: &[char]) -> (r: u64)
    ensures
        r == owed_kb(line@),
{
    if !text::begins(line, "Dirty:") && !text::begins(line, "Writeback:") {
        return 0;
    }
    let w: Vec<Vec<char>> = text::words_of(line);
    if w.len() < 2 {
        return 0;
    }
    assert(text::texts(w@)[1] == w@[1]@);
    match text::number_u64(&w[1]) {
        Some(kb) => kb,
        None => 0,
    }
}

/// Bytes the kernel has accepted but not yet handed to any device, when they can be counted.
///
/// Dirty is waiting to be written back, Writeback is in flight; together they are what is still
/// owed to the hardware. The values are in kB and the suffix is on the line, so a value is taken by
/// its position.
pub fn unflushed_checked(meminfo: &str) -> (r: Option<u64>)
    ensures
        r == (if owed(text::lines(meminfo@)) <= u64::MAX {
            Some(owed(text::lines(meminfo@)) as u64)
        } else {
            None
        }),
{
    let ls: Vec<Vec<char>> = text::lines_of(&text::chars_of(meminfo));
    let ghost all = text::texts(ls@);
    let mut total: u64 = 0;
    let mut i: usize = 0;
    while i < ls.len()
        invariant
            i <= ls@.len(),
            all == text::texts(ls@),
            all == text::lines(meminfo@),
            total == owed(all.take(i as int)),
        decreases ls@.len() - i,
    {
        assert(all[i as int] == ls@[i as int]@);
        assert(all.take(i + 1).drop_last() =~= all.take(i as int));
        let kb: u64 = line_owes(&ls[i]);
        proof {
            lemma_owed_grows(all, i + 1);
        }
        if kb > u64::MAX / 1024 || total > u64::MAX - kb * 1024 {
            return None;
        }
        total = total + kb * 1024;
        i += 1;
    }
    assert(all.take(i as int) =~= all);
    Some(total)
}

/// Bytes the kernel has accepted but not yet handed to any device.
pub fn unflushed(meminfo: &str) -> (r: u64)
    requires
        owed(text::lines(meminfo@)) <= u64::MAX,
    ensures
        r == owed(text::lines(meminfo@)),
{
    match unflushed_checked(meminfo) {
        Some(n) => n,
        None => 0,
    }
}

/// How much of a flush is done, when `peak` was owed at its start and `left` is owed now.
pub fn flushed(peak: u64, left: u64) -> (r: u64)
    ensures
        r == (if left < peak {
            peak - left
        } else {
            0
        }),
{
    if left < peak {
        peak - left
    } else {
        0
    }
}

// ---- numbers in full ------------------------------------------------------------------------

/// The bar is filled in proportion: as many segments as the part that is done reaches, and no more.
pub proof fn law_the_bar_is_in_proportion(done: u64, total: u64)
    requires
        total > 0,
        done <= total,
    ensures
        filled_of(done, total) * total <= done * 24,
        (filled_of(done, total) + 1) * total > done * 24,
        forall|i: int|
            0 <= i < 24 ==> (#[trigger] bar_of(filled_of(done, total))[i] == '\u{25B0}' <==> i < filled_of(
                done,
                total,
            )),
{
    let q = (done * 24) / total as int;
    let t = total as int;
    let m = done * 24;
    assert(q * t <= m && m < (q + 1) * t && q >= 0) by (nonlinear_arith)
        requires
            t > 0,
            m >= 0,
            q == m / t,
    ;
}

/// What is still to be written out is the sum of what the lines `Dirty:` and `Writeback:` say in
/// kilobytes, and no other line counts.
pub proof fn law_what_is_owed_is_dirty_or_in_flight(
    ls: Seq<Seq<char>>,
    name: Seq<char>,
    gap: Seq<char>,
    n: u64,
    unit: Seq<char>,
    other: Seq<char>,
)
    requires
        name == "Dirty:"@ || name == "Writeback:"@,
        text::blank(gap) && gap.len() > 0,
        other.len() < 6 || other.take(6) != "Dirty:"@,
        other.len() < 10 || other.take(10) != "Writeback:"@,
    ensures
        owed(ls.push(name + gap + (text::decimal(n as nat) + seq![' '] + unit))) == owed(ls) + 1024 * n,
        owed(ls.push(other)) == owed(ls),
        owed(Seq::empty()) == 0,
{
    reveal_strlit("Dirty:");
    reveal_strlit("Writeback:");
    let d = text::decimal(n as nat);
    let rest = d + seq![' '] + unit;
    let line = name + gap + rest;
    assert(ls.push(line).drop_last() =~= ls);
    assert(ls.push(other).drop_last() =~= ls);
    assert forall|i: int| 0 <= i < name.len() implies !text::is_space(#[trigger] name[i]) by {
        text::law_what_white_space_is(name[i]);
    }
    text::lemma_decimal(n as nat);
    assert forall|i: int| 0 <= i < d.len() implies !text::is_space(#[trigger] d[i]) by {
        assert(text::is_digit(d[i]));
        text::law_what_white_space_is(d[i]);
    }
    assert(text::blank(seq![' '])) by {
        text::law_what_white_space_is(' ');
    }
    text::law_the_first_word_comes_first(name, gap, rest);
    text::law_the_first_word_comes_first(d, seq![' '], unit);
    assert(text::words(line)[1] == d);
    text::lemma_parse_decimal(n);
    assert(line.subrange(0, name.len() as int) =~= name);
    assert(text::starts_with(line, name));
    if other.len() >= 6 {
        assert(other.take(6) =~= other.subrange(0, 6));
    }
    if other.len() >= 10 {
        assert(other.take(10) =~= other.subrange(0, 10));
    }
}

/// The event about progress says how far it is, of how much, and how fast, as it was measured.
pub proof fn law_what_the_progress_event_says(
    phase: Seq<char>,
    done: u64,
    total: u64,
    rate: u64,
    eta: u64,
    elapsed_ms: u64,
)
    ensures
        ({
            let event = progress_text(phase, done, total, rate, eta, elapsed_ms);
            &&& json::has_field(event, "phase"@, json::quoted(phase))
            &&& json::has_field(event, "done"@, text::decimal(done as nat))
            &&& json::has_field(event, "total"@, text::decimal(total as nat))
            &&& json::has_field(event, "bytes_per_second"@, text::decimal(rate as nat))
            &&& json::has_field(event, "eta_seconds"@, text::decimal(eta as nat))
            &&& json::has_field(event, "elapsed_ms"@, text::decimal(elapsed_ms as nat))
        }),
{
    let f = seq![
        ("event"@, json::quoted("progress"@)),
        ("phase"@, json::quoted(phase)),
        ("done"@, text::decimal(done as nat)),
        ("total"@, text::decimal(total as nat)),
        ("bytes_per_second"@, text::decimal(rate as nat)),
        ("eta_seconds"@, text::decimal(eta as nat)),
        ("elapsed_ms"@, text::decimal(elapsed_ms as nat)),
    ];
    json::law_a_written_field_is_there(f, 1);
    json::law_a_written_field_is_there(f, 2);
    json::law_a_written_field_is_there(f, 3);
    json::law_a_written_field_is_there(f, 4);
    json::law_a_written_field_is_there(f, 5);
    json::law_a_written_field_is_there(f, 6);
}

/// The line of a known total begins with the bar, then says how many whole hundredths are done, then how
/// many bytes of how many; the time left is in minutes and seconds, and the seconds stay below sixty.
pub proof fn law_what_the_line_says(done: u64, total: u64, rate: u64, eta: u64, elapsed_ms: u64)
    requires
        total > 0,
        done <= total,
    ensures
        exists|p: nat, m: nat, s: nat|
            p * total <= done * 100 && (p + 1) * total > done * 100 && m * 60 + s == eta && s < 60
                && line_text(done, total, rate, eta, elapsed_ms) == "\r  "@ + YEL@ + bar_of(
                filled_of(done, total),
            ) + RST@ + " "@ + layout::right(#[trigger] text::decimal(p), 3) + "%  "@ + layout::right(
                layout::commas(done as nat),
                13,
            ) + " / "@ + layout::left(layout::commas(total as nat), 13) + " "@ + layout::right(
                dev::human_text(rate),
                9,
            ) + "/s  eta "@ + #[trigger] layout::two(m) + ":"@ + #[trigger] layout::two(s) + "  "@,
{
    let t = total as int;
    let d = done * 100;
    let q = d / t;
    assert(q * t <= d && d < (q + 1) * t && q >= 0) by (nonlinear_arith)
        requires
            t > 0,
            d >= 0,
            q == d / t,
    ;
    let p = q as nat;
    let m = (eta / 60) as nat;
    let s = (eta % 60) as nat;
    assert(m * 60 + s == eta && s < 60);
    assert(line_text(done, total, rate, eta, elapsed_ms) == known_line(done, total, rate, eta));
    let x = text::decimal(p);
    let y = layout::two(m);
    let z = layout::two(s);
}

} // verus!
