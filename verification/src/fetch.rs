//! The download engine: one file, many connections, every network at once.
//!
//! What is asked of the mirror, how the file is cut up, what is put on record for a later run, and
//! what each answer comes to. The schedule itself is in [`crate::plan`].

use vstd::prelude::*;
use vstd::string::*;

use crate::dev::copy_strings;
use crate::plan;
use crate::plan::Plan;
use crate::text;

verus! {

/// An attempt that has delivered nothing for this long is abandoned and the block requeued.
pub const STALL_AFTER_NS: u64 = 20_000_000_000;

/// What the program calls itself.
pub const UA: &'static str = "Mozilla/5.0 (X11; Linux x86_64) arxburn";

// ---- probing --------------------------------------------------------------------------------

/// What a one byte ranged GET tells us. Cheaper than fetching the body and, unlike HEAD, the
/// 206 proves range requests actually work rather than merely being advertised.
#[derive(Debug, Clone, Copy, PartialEq, Eq, Structural)]
pub struct Probe {
    pub size: u64,
    pub ranges: bool,
}

pub open spec fn number_or_zero(s: Seq<char>) -> u64 {
    match text::parse_u64(s) {
        Some(n) => n,
        None => 0,
    }
}

/// What is known after one more line of the headers.
pub open spec fn probe_line(p: Probe, line: Seq<char>) -> Probe {
    let low = text::lower(line);
    if text::starts_with(low, "content-range:"@) {
        match text::parse_u64(text::trim(text::after_last(line, '/'))) {
            Some(n) => Probe { size: n, ranges: true },
            None => p,
        }
    } else if text::starts_with(low, "content-length:"@) && p.size == 0 && text::split(
        line,
        ':',
    ).len() > 1 {
        Probe { size: number_or_zero(text::trim(text::split(line, ':')[1])), ranges: p.ranges }
    } else {
        p
    }
}

pub open spec fn probe_lines(ls: Seq<Seq<char>>) -> Probe
    decreases ls.len(),
{
    if ls.len() == 0 {
        Probe { size: 0, ranges: false }
    } else {
        probe_line(probe_lines(ls.drop_last()), ls.last())
    }
}

fn read_line(p: Probe, line: &[char]) -> (r: Probe)
    ensures
        r == probe_line(p, line@),
{
    let low: Vec<char> = text::lowered(line);
    if text::begins(&low, "content-range:") {
        let total: Vec<char> = text::last_piece(line, '/');
        match text::number_u64(text::trimmed(&total)) {
            Some(n) => Probe { size: n, ranges: true },
            None => p,
        }
    } else if text::begins(&low, "content-length:") && p.size == 0 {
        let parts: Vec<Vec<char>> = text::pieces_at(line, ':');
        if parts.len() > 1 {
            assert(text::texts(parts@)[1] == parts@[1]@);
            let size: u64 = match text::number_u64(text::trimmed(&parts[1])) {
                Some(n) => n,
                None => 0,
            };
            Probe { size, ranges: p.ranges }
        } else {
            p
        }
    } else {
        p
    }
}

/// Read the headers of the answer to a one byte ranged GET.
pub fn probe(head: &str) -> (r: Probe)
    ensures
        r == probe_lines(text::lines(head@)),
{
    let ls: Vec<Vec<char>> = text::lines_of(&text::chars_of(head));
    let ghost all = text::texts(ls@);
    let mut p: Probe = Probe { size: 0, ranges: false };
    let mut i: usize = 0;
    while i < ls.len()
        invariant
            i <= ls@.len(),
            all == text::texts(ls@),
            p == probe_lines(all.take(i as int)),
        decreases ls@.len() - i,
    {
        assert(all.take(i + 1).drop_last() =~= all.take(i as int));
        assert(all[i as int] == ls@[i as int]@);
        p = read_line(p, &ls[i]);
        i += 1;
    }
    assert(all.take(i as int) =~= all);
    p
}

proof fn lemma_probe_case(p: Probe, a: Seq<char>, b: Seq<char>)
    requires
        text::same_header(a, b),
    ensures
        probe_line(p, a) == probe_line(p, b),
{
    if a != b {
        let k = choose|k: int| text::same_header_at(a, b, k);
        text::lemma_same_header(a, b, k);
        reveal_strlit("content-range:");
        reveal_strlit("content-range");
        if text::starts_with(text::lower(a), "content-range:"@) {
            let name = "content-range"@;
            assert(name + seq![':'] =~= "content-range:"@);
            text::lemma_name_ends(a, name);
            text::lemma_name_ends(b, name);
            assert(k == name.len()) by {
                if k < name.len() {
                    assert(a.take(name.len() as int)[k] == a[k]);
                } else if k > name.len() {
                    assert(a.take(k)[name.len() as int] == ':');
                }
            }
            let rest = a.skip(k);
            if text::lacks(rest, '/') {
                assert forall|i: int| 0 <= i < a.len() implies #[trigger] a[i] != '/' && b[i] != '/' by {
                    if i < k {
                        assert(a.take(k)[i] != '/' && b.take(k)[i] != '/');
                    } else {
                        assert(rest[i - k] == a[i] && b.skip(k)[i - k] == b[i]);
                    }
                }
                assert(text::lacks(a, '/'));
                assert forall|i: int| 0 <= i < b.len() implies #[trigger] b[i] != '/' by {
                    assert(a[i] != '/');
                }
                text::lemma_split_none(a, '/');
                text::lemma_split_none(b, '/');
                lemma_no_number(a);
                lemma_no_number(b);
            } else {
                let j = text::lemma_last_place(rest, '/');
                let v = rest.skip(j + 1);
                text::law_the_last_piece_comes_last(a.take(k) + rest.take(j), '/', v);
                text::law_the_last_piece_comes_last(b.take(k) + rest.take(j), '/', v);
                assert(a =~= a.take(k) + rest.take(j) + seq!['/'] + v);
                assert(b =~= b.take(k) + b.skip(k));
                assert(b =~= b.take(k) + rest.take(j) + seq!['/'] + v);
            }
        }
    }
}

proof fn lemma_no_number(line: Seq<char>)
    requires
        text::starts_with(text::lower(line), "content-range:"@),
    ensures
        text::parse_u64(text::trim(line)) is None,
{
    reveal_strlit("content-range:");
    let low = text::lower(line);
    assert(low[0] == low.subrange(0, "content-range:"@.len() as int)[0]);
    lemma_c(line[0]);
    text::lemma_trim_keeps_first(line);
    text::law_numbers_are_read_from_digits(0, text::trim(line));
}

proof fn lemma_c(c: char)
    requires
        text::lower_char(c) == 'c',
    ensures
        !text::is_space(c),
        !('0' <= c && c <= '9'),
        c != '+',
{
}

/// Header names are read in any case: when only the letters of header names change case, the probe
/// says the same.
pub proof fn law_header_names_are_read_in_any_case(ls: Seq<Seq<char>>, other: Seq<Seq<char>>)
    requires
        ls.len() == other.len(),
        forall|i: int| 0 <= i < ls.len() ==> text::same_header(#[trigger] ls[i], other[i]),
    ensures
        probe_lines(ls) == probe_lines(other),
    decreases ls.len(),
{
    if ls.len() > 0 {
        let n = ls.len() - 1;
        assert forall|i: int| 0 <= i < n implies text::same_header(
            #[trigger] ls.drop_last()[i],
            other.drop_last()[i],
        ) by {
            assert(text::same_header(ls[i], other[i]));
        }
        law_header_names_are_read_in_any_case(ls.drop_last(), other.drop_last());
        assert(text::same_header(ls[n], other[n]));
        lemma_probe_case(probe_lines(ls.drop_last()), ls.last(), other.last());
    }
}

/// A `Content-Range` line, its name in whatever case, says how large the file is, by the number after
/// its last slash, and that ranges work, whatever the lines before it said.
pub proof fn law_a_content_range_gives_the_size(
    ls: Seq<Seq<char>>,
    name: Seq<char>,
    mid: Seq<char>,
    n: u64,
)
    requires
        text::lower(name) == "content-range:"@,
    ensures
        probe_lines(ls.push(name + mid + seq!['/'] + text::decimal(n as nat))) == (Probe {
            size: n,
            ranges: true,
        }),
{
    let d = text::decimal(n as nat);
    let line = name + mid + seq!['/'] + d;
    let all = ls.push(line);
    assert(all.drop_last() =~= ls);
    text::lemma_begins_lowered("content-range:"@, name, mid + seq!['/'] + d);
    assert(name + (mid + seq!['/'] + d) =~= line);
    text::lemma_digits_alone(n as nat, '/');
    text::law_the_last_piece_comes_last(name + mid, '/', d);
    text::lemma_parse_decimal(n);
}

/// A `Content-Length` line, its name in whatever case, says how large the file is only as long as
/// nothing else did, and never that ranges work.
pub proof fn law_a_content_length_counts_only_at_first(
    ls: Seq<Seq<char>>,
    name: Seq<char>,
    space: Seq<char>,
    n: u64,
)
    requires
        text::lower(name) == "content-length:"@,
        text::blank(space),
    ensures
        probe_lines(ls.push(name + space + text::decimal(n as nat))) == (Probe {
            size: if probe_lines(ls).size == 0 {
                n
            } else {
                probe_lines(ls).size
            },
            ranges: probe_lines(ls).ranges,
        }),
{
    reveal_strlit("content-length:");
    reveal_strlit("content-length");
    reveal_strlit("content-range:");
    let d = text::decimal(n as nat);
    let line = name + space + d;
    let all = ls.push(line);
    assert(all.drop_last() =~= ls);
    text::lemma_begins_lowered("content-length:"@, name, space + d);
    assert(name + (space + d) =~= line);
    let low = text::lower(line);
    assert(low.subrange(0, 15)[8] == low[8] && "content-length:"@[8] == 'l');
    if text::starts_with(low, "content-range:"@) {
        assert(low.subrange(0, 14)[8] == low[8]);
        assert("content-range:"@[8] == 'r');
    }
    let x = "content-length"@;
    assert(x + seq![':'] =~= "content-length:"@);
    text::lemma_name_ends(line, x);
    let rest = space + d;
    text::lemma_digits_alone(n as nat, ':');
    assert forall|i: int| 0 <= i < rest.len() implies #[trigger] rest[i] != ':' by {
        if i < space.len() {
            assert(text::is_space(space[i]));
        } else {
            assert(rest[i] == d[i - space.len()]);
        }
    }
    assert(line =~= line.take(14) + seq![':'] + rest);
    text::law_the_first_piece_comes_first(line.take(14), ':', rest);
    text::lemma_split_none(rest, ':');
    assert(text::split(line, ':')[1] == rest);
    text::lemma_parse_decimal(n);
}

/// No other line says anything of the size, and without any line nothing is known.
pub proof fn law_other_headers_say_nothing(ls: Seq<Seq<char>>, line: Seq<char>)
    requires
        line.len() < 14 || text::lower(line.take(14)) != "content-range:"@,
        line.len() < 15 || text::lower(line.take(15)) != "content-length:"@,
    ensures
        probe_lines(ls.push(line)) == probe_lines(ls),
        probe_lines(Seq::empty()) == (Probe { size: 0, ranges: false }),
{
    reveal_strlit("content-length:");
    reveal_strlit("content-range:");
    assert(ls.push(line).drop_last() =~= ls);
    let low = text::lower(line);
    if line.len() >= 14 {
        assert(text::lower(line.take(14)) =~= low.subrange(0, 14));
    }
    if line.len() >= 15 {
        assert(text::lower(line.take(15)) =~= low.subrange(0, 15));
    }
}

/// What is probed are the lines of the headers, one after the other: the answer of a mirror whose last
/// line is a `Content-Range` gives its size and that ranges work.
pub proof fn law_the_answer_of_a_mirror_gives_its_size(
    before: Seq<char>,
    name: Seq<char>,
    mid: Seq<char>,
    n: u64,
)
    requires
        before.len() == 0 || before.last() == '\n',
        text::lower(name) == "content-range:"@,
        text::lacks(name + mid, '\n'),
    ensures
        ({
            let head = before + (name + mid + seq!['/'] + text::decimal(n as nat)) + seq!['\r', '\n'];
            let p = probe_lines(text::lines(head));
            p.size == n && p.ranges
        }),
{
    let d = text::decimal(n as nat);
    let line = name + mid + seq!['/'] + d;
    text::lemma_digits_alone(n as nat, '\n');
    assert forall|i: int| 0 <= i < line.len() implies #[trigger] line[i] != '\n' by {
        if i < (name + mid).len() {
            assert(line[i] == (name + mid)[i]);
        } else if i > (name + mid).len() {
            assert(line[i] == d[i - (name + mid).len() - 1]);
        }
    }
    text::law_lines_end_in_line_feeds(before, line);
    law_a_content_range_gives_the_size(text::lines(before), name, mid, n);
}

// ---- networks -------------------------------------------------------------------------------

/// The interface that a line of the routing table names, when it is not loopback.
pub open spec fn route_iface(line: Seq<char>) -> Option<Seq<char>> {
    let w = text::words(line);
    if w.len() > 0 && w[0] != "lo"@ {
        Some(w[0])
    } else {
        None
    }
}

/// The interfaces that some lines name, each once, in the order in which they first come.
pub open spec fn ifaces_of(ls: Seq<Seq<char>>) -> Seq<Seq<char>>
    decreases ls.len(),
{
    if ls.len() == 0 {
        seq![]
    } else {
        let before = ifaces_of(ls.drop_last());
        match route_iface(ls.last()) {
            Some(i) => if before.contains(i) {
                before
            } else {
                before.push(i)
            },
            None => before,
        }
    }
}

/// The lines of the routing table under its heading.
pub open spec fn route_lines(routes: Seq<char>) -> Seq<Seq<char>> {
    let ls = text::lines(routes);
    if ls.len() == 0 {
        ls
    } else {
        ls.skip(1)
    }
}

/// It is a bridge that routes nowhere useful.
pub open spec fn is_virtual(iface: Seq<char>) -> bool {
    text::starts_with(iface, "virbr"@) || text::starts_with(iface, "docker"@) || text::starts_with(
        iface,
        "br-"@,
    )
}

/// The state of an interface, when it could be read, says that it is up.
pub open spec fn is_up(state: Option<Seq<char>>) -> bool {
    match state {
        Some(s) => text::trim(s) == "up"@ || text::trim(s) == "unknown"@,
        None => false,
    }
}

/// The interfaces that are up and no bridges, `states` being what each says of itself.
pub open spec fn usable(found: Seq<Seq<char>>, states: Seq<Option<Seq<char>>>) -> Seq<Seq<char>>
    decreases found.len(),
{
    if found.len() == 0 || states.len() != found.len() {
        seq![]
    } else {
        let before = usable(found.drop_last(), states.drop_last());
        if !is_virtual(found.last()) && is_up(states.last()) {
            before.push(found.last())
        } else {
            before
        }
    }
}

fn has_text(v: &Vec<Vec<char>>, s: &[char]) -> (r: bool)
    ensures
        r == text::texts(v@).contains(s@),
{
    let mut i: usize = 0;
    while i < v.len()
        invariant
            i <= v@.len(),
            forall|j: int| 0 <= j < i ==> #[trigger] text::texts(v@)[j] != s@,
        decreases v@.len() - i,
    {
        assert(text::texts(v@)[i as int] == v@[i as int]@);
        if text::same(&v[i], s) {
            return true;
        }
        i += 1;
    }
    false
}

fn iface_in(line: &[char]) -> (r: Option<Vec<char>>)
    ensures
        match r {
            Some(i) => route_iface(line@) == Some(i@),
            None => route_iface(line@) is None,
        },
{
    let w: Vec<Vec<char>> = text::words_of(line);
    if w.len() == 0 {
        return None;
    }
    assert(text::texts(w@)[0] == w@[0]@);
    if text::same_str(&w[0], "lo") {
        None
    } else {
        Some(text::copy_of(&w[0]))
    }
}

/// The interfaces that the routing table names.
pub fn interfaces(routes: &str) -> (r: Vec<String>)
    ensures
        text::strings(r@) == ifaces_of(route_lines(routes@)),
{
    let ls: Vec<Vec<char>> = text::lines_of(&text::chars_of(routes));
    let ghost all = route_lines(routes@);
    let mut out: Vec<Vec<char>> = Vec::new();
    assert(text::texts(out@) =~= ifaces_of(all.take(0)));
    let mut i: usize = 1;
    while i < ls.len()
        invariant
            1 <= i,
            ls@.len() > 0 ==> i <= ls@.len(),
            ls@.len() > 0 ==> all == text::texts(ls@).skip(1),
            ls@.len() == 0 ==> all.len() == 0 && i == 1,
            text::texts(out@) == ifaces_of(all.take(i - 1)),
        decreases ls@.len() - i,
    {
        assert(all.take(i as int).drop_last() =~= all.take(i - 1));
        assert(all[i - 1] == ls@[i as int]@);
        if let Some(x) = iface_in(&ls[i]) {
            if !has_text(&out, &x) {
                let ghost before = text::texts(out@);
                let ghost name = x@;
                out.push(x);
                assert(text::texts(out@) =~= before.push(name));
            }
        }
        i += 1;
    }
    assert(all.take(i - 1) =~= all);
    text::strings_of(&out)
}

pub open spec fn states_view(v: Seq<Option<String>>) -> Seq<Option<Seq<char>>> {
    Seq::new(v.len(), |i: int| text::text_opt(v[i]))
}

fn up(state: &Option<String>) -> (r: bool)
    ensures
        r == is_up(text::text_opt(*state)),
{
    match state {
        Some(s) => {
            let c: Vec<char> = text::chars_of(s);
            let t: &[char] = text::trimmed(&c);
            text::same_str(t, "up") || text::same_str(t, "unknown")
        },
        None => false,
    }
}

fn bridge(iface: &str) -> (r: bool)
    ensures
        r == is_virtual(iface@),
{
    let c: Vec<char> = text::chars_of(iface);
    text::begins(&c, "virbr") || text::begins(&c, "docker") || text::begins(&c, "br-")
}

/// Usable ways onto the internet: interfaces that have a route, are not loopback, are up, and are
/// no virtual bridges. Each one can carry its own streams, which is where the speeds add up.
pub fn networks(found: &Vec<String>, states: &Vec<Option<String>>) -> (r: Vec<String>)
    requires
        found@.len() == states@.len(),
    ensures
        text::strings(r@) == usable(text::strings(found@), states_view(states@)),
{
    let ghost all = text::strings(found@);
    let ghost says = states_view(states@);
    let mut out: Vec<String> = Vec::new();
    let mut i: usize = 0;
    assert(text::strings(out@) =~= usable(all.take(0), says.take(0)));
    while i < found.len()
        invariant
            i <= found@.len() == states@.len(),
            all == text::strings(found@),
            says == states_view(states@),
            text::strings(out@) == usable(all.take(i as int), says.take(i as int)),
        decreases found@.len() - i,
    {
        assert(all.take(i + 1).drop_last() =~= all.take(i as int));
        assert(says.take(i + 1).drop_last() =~= says.take(i as int));
        assert(all[i as int] == found@[i as int]@);
        assert(says[i as int] == text::text_opt(states@[i as int]));
        if !bridge(&found[i]) && up(&states[i]) {
            let ghost before = text::strings(out@);
            out.push(found[i].clone());
            assert(text::strings(out@) =~= before.push(all[i as int]));
        }
        i += 1;
    }
    assert(all.take(i as int) =~= all);
    assert(says.take(i as int) =~= says);
    out
}

/// What the engine would do, in words.
pub open spec fn description(nets: Seq<Seq<char>>, streams: nat) -> Seq<char> {
    if nets.len() == 0 {
        "no network interface is up"@
    } else {
        text::decimal(nets.len() * streams) + " connection"@ + (if nets.len() * streams == 1 {
            ""@
        } else {
            "s"@
        }) + " over "@ + text::join(nets, ", "@)
    }
}

/// Report what the engine would do over these networks with so many streams on each.
pub fn describe(nets: &Vec<String>, streams_per_network: usize) -> (r: String)
    requires
        nets@.len() * streams_per_network <= usize::MAX,
    ensures
        r@ == description(text::strings(nets@), streams_per_network as nat),
{
    if nets.len() == 0 {
        return "no network interface is up".to_owned();
    }
    let n: usize = nets.len() * streams_per_network;
    let mut s: String = text::number_text(n as u64);
    s.append(" connection");
    s.append(
        if n == 1 {
            ""
        } else {
            "s"
        },
    );
    s.append(" over ");
    s.append(&text::join_strings(nets, ", "));
    s
}

// ---- cutting up the file --------------------------------------------------------------------

/// How a download is to be made.
pub struct Opts {
    /// How many connections to open on each interface. More than a handful stops helping and
    /// starts looking like abuse to the mirror.
    pub streams_per_network: usize,
    /// Empty means that the routing table decides.
    pub networks: Vec<String>,
    /// Zero means about four blocks per stream.
    pub block_size: u64,
}

impl Default for Opts {
    fn default() -> (r: Self)
        ensures
            r.streams_per_network == 4,
            r.networks@.len() == 0,
            r.block_size == 0,
    {
        Opts { streams_per_network: 4, networks: Vec::new(), block_size: 0 }
    }
}

/// The networks to use: those asked for, or else those found, or else whatever the system chooses,
/// which an empty name stands for.
pub open spec fn chosen(asked: Seq<Seq<char>>, found: Seq<Seq<char>>) -> Seq<Seq<char>> {
    if asked.len() > 0 {
        asked
    } else if found.len() > 0 {
        found
    } else {
        seq![Seq::empty()]
    }
}

/// The block size: the one asked for, or else about four blocks per stream, so a slow stream cannot
/// hold a large tail, but not less than 8 MiB and not more than 64 MiB.
pub open spec fn block_of(asked: u64, size: u64, streams: nat) -> u64 {
    if asked > 0 {
        asked
    } else {
        let b = size as int / (streams * 4) as int;
        if b < 0x80_0000 {
            0x80_0000
        } else if b > 0x400_0000 {
            0x400_0000
        } else {
            b as u64
        }
    }
}

fn choose_networks(asked: &Vec<String>, found: &Vec<String>) -> (r: Vec<String>)
    ensures
        text::strings(r@) == chosen(text::strings(asked@), text::strings(found@)),
{
    if asked.len() > 0 {
        copy_strings(asked)
    } else if found.len() > 0 {
        copy_strings(found)
    } else {
        let mut v: Vec<String> = Vec::new();
        v.push(String::new());
        assert(text::strings(v@) =~= seq![Seq::<char>::empty()]);
        v
    }
}

fn block_size(asked: u64, size: u64, streams: usize) -> (r: u64)
    requires
        streams > 0,
    ensures
        r == block_of(asked, size, streams as nat),
        r > 0,
{
    if asked > 0 {
        return asked;
    }
    let b: u64 = size / (streams as u64) / 4;
    assert(b == size as int / (streams * 4)) by {
        vstd::arithmetic::div_mod::lemma_div_denominator(size as int, streams as int, 4);
    }
    if b < 0x80_0000 {
        0x80_0000
    } else if b > 0x400_0000 {
        0x400_0000
    } else {
        b
    }
}

/// A download ready to start.
pub struct Ready {
    pub plan: Plan,
    /// The network of each stream.
    pub streams: Vec<String>,
    /// How many bytes are there already.
    pub resumed: u64,
    /// The size of a block.
    pub block: u64,
    /// What is to be put on record before the file gets its full length, so that a run which is
    /// interrupted at once leaves no file that looks like a whole one.
    pub record: String,
}

/// The streams that would be opened.
pub open spec fn streams_for(opts: Opts, found: Seq<Seq<char>>) -> Seq<Seq<char>> {
    plan::streams_of(
        chosen(text::strings(opts.networks@), found),
        opts.streams_per_network as nat,
    )
}

/// The block size for these streams.
pub open spec fn block_for(opts: Opts, size: u64, found: Seq<Seq<char>>) -> u64 {
    block_of(opts.block_size, size, streams_for(opts, found).len())
}

/// The block size that a run goes on with from the record of another: the one on record, so that the
/// numbers there keep their meaning, whatever the streams are now. There has to be something to go on
/// from: the file at its full length, and a block that is done.
pub open spec fn resumable(
    record: Option<Seq<char>>,
    held: Option<u64>,
    url: Seq<char>,
    size: u64,
) -> Option<u64> {
    match record {
        Some(body) => {
            let ls = text::lines(body);
            match text::parse_u64(ls[2]) {
                Some(block) => if held == Some(size) && recorded_in(ls, url, size, block).len() > 0
                    && block > 0 && plan::block_count(size, block) <= usize::MAX {
                    Some(block)
                } else {
                    None
                },
                None => None,
            }
        },
        None => None,
    }
}

/// The block size that is used.
pub open spec fn block_used(
    opts: Opts,
    url: Seq<char>,
    size: u64,
    found: Seq<Seq<char>>,
    record: Option<Seq<char>>,
    held: Option<u64>,
) -> u64 {
    match resumable(record, held, url, size) {
        Some(block) => block,
        None => block_for(opts, size, found),
    }
}

/// The blocks of the file can be counted.
pub open spec fn preparable(
    opts: Opts,
    url: Seq<char>,
    size: u64,
    found: Seq<Seq<char>>,
    record: Option<Seq<char>>,
    held: Option<u64>,
) -> bool {
    streams_for(opts, found).len() > 0 ==> plan::block_count(
        size,
        block_used(opts, url, size, found, record, held),
    ) <= usize::MAX
}

/// The blocks that are there already. A record is worth nothing without the file that it is about,
/// which an interrupted run leaves at its full length.
pub open spec fn there_already(
    record: Option<Seq<char>>,
    held: Option<u64>,
    url: Seq<char>,
    size: u64,
    block: u64,
) -> Seq<usize> {
    if held == Some(size) {
        recorded(record, url, size, block)
    } else {
        seq![]
    }
}

/// Get a download of `size` bytes ready, over the networks found and with those blocks there
/// already that the record of an earlier run says are. `held` is the length of the file as it is.
pub fn prepare(
    url: &str,
    size: u64,
    opts: &Opts,
    found: &Vec<String>,
    record: &Option<String>,
    held: Option<u64>,
) -> (r: Result<Ready, String>)
    requires
        preparable(*opts, url@, size, text::strings(found@), text::text_opt(*record), held),
    ensures
        match r {
            Ok(p) => {
                let streams = streams_for(*opts, text::strings(found@));
                let block = block_used(
                    *opts,
                    url@,
                    size,
                    text::strings(found@),
                    text::text_opt(*record),
                    held,
                );
                let already = there_already(text::text_opt(*record), held, url@, size, block);
                &&& streams.len() > 0
                &&& p.plan.wf()
                &&& text::strings(p.streams@) == streams
                &&& p.plan@.blocks == plan::layout(size, block, already)
                &&& p.plan@.idle == plan::all_idle(streams)
                &&& p.plan@.speed == Map::<usize, plan::Speed>::empty()
                &&& p.resumed == plan::bytes_done(p.plan@.blocks)
                &&& p.resumed <= size
                &&& p.block == block
                &&& p.record@ == record_text(url@, size, block, plan::done_list(p.plan@.blocks))
            },
            Err(e) => streams_for(*opts, text::strings(found@)).len() == 0 && e@
                == "no usable network"@,
        },
{
    let nets: Vec<String> = choose_networks(&opts.networks, found);
    let streams: Vec<String> = plan::stream_nets(&nets, opts.streams_per_network);
    assert(text::strings(streams@).len() == streams@.len());
    if streams.len() == 0 {
        return Err("no usable network".to_owned());
    }
    let block: u64 = match block_on_record(record, held, url, size) {
        Some(b) => b,
        None => block_size(opts.block_size, size, streams.len()),
    };
    let already: Vec<usize> = match (record, held) {
        (Some(body), Some(n)) => if n == size {
            load_done(body, url, size, block)
        } else {
            Vec::new()
        },
        _ => Vec::new(),
    };
    assert(already@ =~= there_already(text::text_opt(*record), held, url@, size, block));
    let plan: Plan = Plan::new(size, block, &already, &streams);
    let resumed: u64 = plan.resumed(size, block, &already);
    let done: Vec<usize> = plan.done_indices();
    let to_record: String = save_done(url, size, block, &done);
    Ok(Ready { plan, streams, resumed, block, record: to_record })
}

fn countable(size: u64, block: u64) -> (r: bool)
    requires
        block > 0,
    ensures
        r == (plan::block_count(size, block) <= usize::MAX),
{
    (size as u128 + block as u128 - 1) / block as u128 <= usize::MAX as u128
}

fn block_on_record(record: &Option<String>, held: Option<u64>, url: &str, size: u64) -> (r: Option<
    u64,
>)
    ensures
        r == resumable(text::text_opt(*record), held, url@, size),
        r matches Some(b) ==> b > 0,
{
    match (record, held) {
        (Some(body), Some(n)) => {
            let ls: Vec<Vec<char>> = text::lines_of(&text::chars_of(body));
            let ghost all = text::texts(ls@);
            if n != size || ls.len() < 4 {
                return None;
            }
            assert(all[2] == ls@[2]@);
            match text::number_u64(&ls[2]) {
                Some(b) => if b > 0 && countable(size, b) && load_done(body, url, size, b).len() > 0 {
                    Some(b)
                } else {
                    None
                },
                None => None,
            }
        },
        _ => None,
    }
}

/// Whether [`prepare`] can count the blocks.
pub fn can_prepare(
    url: &str,
    size: u64,
    opts: &Opts,
    found: &Vec<String>,
    record: &Option<String>,
    held: Option<u64>,
) -> (r: bool)
    ensures
        r == preparable(
            *opts,
            url@,
            size,
            text::strings(found@),
            text::text_opt(*record),
            held,
        ),
{
    let nets: Vec<String> = choose_networks(&opts.networks, found);
    let streams: Vec<String> = plan::stream_nets(&nets, opts.streams_per_network);
    assert(text::strings(streams@).len() == streams@.len());
    if streams.len() == 0 {
        return true;
    }
    let block: u64 = match block_on_record(record, held, url, size) {
        Some(b) => b,
        None => block_size(opts.block_size, size, streams.len()),
    };
    countable(size, block)
}

// ---- the record of an earlier run -----------------------------------------------------------

/// The name of the file in which one connection downloads anew what is called `name`, until it is
/// whole.
pub fn aside_name(name: &str) -> (r: String)
    ensures
        r@ == "."@ + name@ + ".arxburn-anew"@,
{
    let mut s: String = ".".to_owned();
    s.append(name);
    s.append(".arxburn-anew");
    s
}

/// The name of the file that holds the record for a download called `name`.
pub fn state_name(name: &str) -> (r: String)
    ensures
        r@ == "."@ + name@ + ".arxburn"@,
{
    let mut s: String = ".".to_owned();
    s.append(name);
    s.append(".arxburn");
    s
}

/// The numbers written in decimal.
pub open spec fn decimals(v: Seq<usize>) -> Seq<Seq<char>> {
    v.map_values(|n: usize| text::decimal(n as nat))
}

/// The record: the address, the size of the file, the size of a block, and the blocks that are done.
pub open spec fn record_text(url: Seq<char>, size: u64, block: u64, done: Seq<usize>) -> Seq<char> {
    url + seq!['\n'] + text::decimal(size as nat) + seq!['\n'] + text::decimal(block as nat) + seq![
        '\n',
    ] + text::join(decimals(done), seq![',']) + seq!['\n']
}

/// The numbers among some pieces of text.
pub open spec fn numbers(v: Seq<Seq<char>>) -> Seq<usize>
    decreases v.len(),
{
    if v.len() == 0 {
        seq![]
    } else {
        match text::parse_usize(v.last()) {
            Some(n) => numbers(v.drop_last()).push(n),
            None => numbers(v.drop_last()),
        }
    }
}

/// The blocks that a record says are done. It is only trusted when it describes this exact address
/// and size, cut into blocks of this very size: the numbers mean other bytes with any other.
pub open spec fn recorded_in(ls: Seq<Seq<char>>, url: Seq<char>, size: u64, block: u64) -> Seq<
    usize,
> {
    if ls.len() < 4 || ls[0] != url || text::parse_u64(ls[1]) != Some(size) || text::parse_u64(ls[2])
        != Some(block) {
        seq![]
    } else {
        numbers(text::split(ls[3], ','))
    }
}

pub open spec fn recorded(body: Option<Seq<char>>, url: Seq<char>, size: u64, block: u64) -> Seq<
    usize,
> {
    match body {
        Some(b) => recorded_in(text::lines(b), url, size, block),
        None => seq![],
    }
}

fn is_number(s: &[char], n: u64) -> (r: bool)
    ensures
        r == (text::parse_u64(s@) == Some(n)),
{
    match text::number_u64(s) {
        Some(m) => m == n,
        None => false,
    }
}

/// Read back which blocks a previous run finished, so an interrupted download continues instead
/// of starting over. The record is only trusted when it describes this exact address, size and size
/// of a block.
pub fn load_done(body: &str, url: &str, size: u64, block: u64) -> (r: Vec<usize>)
    ensures
        r@ == recorded(Some(body@), url@, size, block),
{
    let ls: Vec<Vec<char>> = text::lines_of(&text::chars_of(body));
    let ghost all = text::texts(ls@);
    let mut out: Vec<usize> = Vec::new();
    if ls.len() < 4 {
        return out;
    }
    assert(all[0] == ls@[0]@ && all[1] == ls@[1]@ && all[2] == ls@[2]@ && all[3] == ls@[3]@);
    if !text::same_str(&ls[0], url) || !is_number(&ls[1], size) || !is_number(&ls[2], block) {
        return out;
    }
    let parts: Vec<Vec<char>> = text::pieces_at(&ls[3], ',');
    let ghost ps = text::texts(parts@);
    let mut i: usize = 0;
    assert(out@ =~= numbers(ps.take(0)));
    while i < parts.len()
        invariant
            i <= parts@.len(),
            ps == text::texts(parts@),
            out@ == numbers(ps.take(i as int)),
        decreases parts@.len() - i,
    {
        assert(ps.take(i + 1).drop_last() =~= ps.take(i as int));
        assert(ps[i as int] == parts@[i as int]@);
        if let Some(n) = text::number_usize(&parts[i]) {
            out.push(n);
        }
        i += 1;
    }
    assert(ps.take(i as int) =~= ps);
    out
}

/// What to put on record.
pub fn save_done(url: &str, size: u64, block: u64, done: &Vec<usize>) -> (r: String)
    ensures
        r@ == record_text(url@, size, block, done@),
{
    let mut list: Vec<Vec<char>> = Vec::new();
    let mut i: usize = 0;
    while i < done.len()
        invariant
            i <= done@.len(),
            list@.len() == i,
            forall|j: int| 0 <= j < i ==> #[trigger] list@[j]@ == text::decimal(done@[j] as nat),
        decreases done@.len() - i,
    {
        list.push(text::digits_of(done[i] as u64));
        i += 1;
    }
    assert(text::texts(list@) =~= decimals(done@));
    proof {
        reveal_strlit(",");
        assert(","@ =~= seq![',']);
    }
    let mut s: String = url.to_owned();
    s.push('\n');
    s.append(&text::number_text(size));
    s.push('\n');
    s.append(&text::number_text(block));
    s.push('\n');
    text::push_all(&mut s, &text::joined(&list, ","));
    s.push('\n');
    assert(s@ =~= record_text(url@, size, block, done@));
    s
}

proof fn lemma_digits_lack(s: Seq<char>, c: char)
    requires
        text::all_digits(s),
        !text::is_digit(c),
    ensures
        text::lacks(s, c),
{
    assert forall|i: int| 0 <= i < s.len() implies #[trigger] s[i] != c by {
        assert(text::is_digit(s[i]));
    }
}

proof fn lemma_joined_lack(parts: Seq<Seq<char>>, c: char)
    requires
        c != ',',
        forall|i: int| 0 <= i < parts.len() ==> text::lacks(#[trigger] parts[i], c),
    ensures
        text::lacks(text::join(parts, seq![',']), c),
    decreases parts.len(),
{
    if parts.len() > 1 {
        lemma_joined_lack(parts.drop_last(), c);
        assert(text::lacks(parts.last(), c));
    } else if parts.len() == 1 {
        assert(text::lacks(parts[0], c));
    }
}

proof fn lemma_joined_splits(parts: Seq<Seq<char>>)
    requires
        parts.len() > 0,
        forall|i: int| 0 <= i < parts.len() ==> text::lacks(#[trigger] parts[i], ','),
    ensures
        text::split(text::join(parts, seq![',']), ',') == parts,
    decreases parts.len(),
{
    if parts.len() == 1 {
        text::lemma_split_none(parts[0], ',');
        assert(parts =~= seq![parts[0]]);
    } else {
        let w = parts.drop_last();
        assert forall|i: int| 0 <= i < w.len() implies text::lacks(#[trigger] w[i], ',') by {
            assert(w[i] == parts[i]);
        }
        lemma_joined_splits(w);
        assert(text::lacks(parts.last(), ','));
        text::lemma_split_tail(text::join(w, seq![',']), ',', parts.last());
        assert(w.push(parts.last()) =~= parts);
    }
}

proof fn lemma_numbers(v: Seq<usize>)
    ensures
        numbers(decimals(v)) == v,
    decreases v.len(),
{
    if v.len() > 0 {
        assert(decimals(v).drop_last() =~= decimals(v.drop_last()));
        lemma_numbers(v.drop_last());
        text::lemma_decimal(v.last() as nat);
        assert(v.drop_last().push(v.last()) =~= v);
    }
}

/// What one run puts on record, the next reads back: for the same address, size and size of a block
/// the blocks that were done, and for any other none. An address holds no line feed and does not end
/// in a carriage return.
pub proof fn law_the_record_reads_back(
    url: Seq<char>,
    size: u64,
    block: u64,
    done: Seq<usize>,
    url2: Seq<char>,
    size2: u64,
    block2: u64,
)
    requires
        text::lacks(url, '\n'),
        url.len() > 0 ==> url.last() != '\r',
    ensures
        recorded(Some(record_text(url, size, block, done)), url, size, block) == done,
        url2 != url || size2 != size || block2 != block ==> recorded(
            Some(record_text(url, size, block, done)),
            url2,
            size2,
            block2,
        ).len() == 0,
{
    let d = text::decimal(size as nat);
    let e = text::decimal(block as nat);
    let parts = decimals(done);
    let l = text::join(parts, seq![',']);
    let nl = seq!['\n'];
    text::lemma_decimal(size as nat);
    lemma_digits_lack(d, '\n');
    lemma_digits_lack(d, '\r');
    text::lemma_decimal(block as nat);
    lemma_digits_lack(e, '\n');
    lemma_digits_lack(e, '\r');
    assert forall|i: int| 0 <= i < parts.len() implies text::lacks(#[trigger] parts[i], ',')
        && text::lacks(parts[i], '\n') && text::lacks(parts[i], '\r') by {
        text::lemma_decimal(done[i] as nat);
        lemma_digits_lack(parts[i], ',');
        lemma_digits_lack(parts[i], '\n');
        lemma_digits_lack(parts[i], '\r');
    }
    lemma_joined_lack(parts, '\n');
    lemma_joined_lack(parts, '\r');
    let body = record_text(url, size, block, done);
    text::lemma_split_none(url, '\n');
    text::lemma_split_tail(url, '\n', d);
    text::lemma_split_tail(url + nl + d, '\n', e);
    text::lemma_split_tail(url + nl + d + nl + e, '\n', l);
    text::lemma_split_tail(url + nl + d + nl + e + nl + l, '\n', Seq::empty());
    assert(body =~= url + nl + d + nl + e + nl + l + nl + Seq::<char>::empty());
    let pieces = text::split(body, '\n');
    assert(pieces =~= seq![url, d, e, l, Seq::<char>::empty()]);
    let ls = text::lines(body);
    assert(text::without_return(url) == url);
    assert(text::without_return(d) == d) by {
        assert(d.last() != '\r');
    }
    assert(text::without_return(e) == e) by {
        assert(e.last() != '\r');
    }
    assert(text::without_return(l) == l) by {
        if l.len() > 0 {
            assert(l[l.len() - 1] != '\r');
        }
    }
    assert(ls =~= seq![url, d, e, l]);
    text::lemma_parse_decimal(size);
    text::lemma_parse_decimal(block);
    if done.len() > 0 {
        lemma_joined_splits(parts);
        lemma_numbers(done);
    } else {
        assert(parts.len() == 0);
        text::lemma_split_none(l, ',');
        assert(text::split(l, ',') =~= seq![l]);
        assert(seq![l].drop_last() =~= Seq::<Seq<char>>::empty());
        reveal_with_fuel(numbers, 2);
        assert(numbers(seq![l]) =~= done);
    }
}

/// An interrupted download continues, whatever streams there are this time: the blocks that were done
/// are there already, cut as they were. An address holds no line feed and does not end in a carriage
/// return.
pub proof fn law_an_interrupted_download_continues(
    url: Seq<char>,
    size: u64,
    block: u64,
    done: Seq<usize>,
    opts: Opts,
    found: Seq<Seq<char>>,
)
    requires
        text::lacks(url, '\n'),
        url.len() > 0 ==> url.last() != '\r',
        block > 0,
        plan::block_count(size, block) <= usize::MAX,
        done.len() > 0,
    ensures
        ({
            let record = Some(record_text(url, size, block, done));
            &&& block_used(opts, url, size, found, record, Some(size)) == block
            &&& there_already(record, Some(size), url, size, block) == done
            &&& preparable(opts, url, size, found, record, Some(size))
        }),
{
    law_the_record_reads_back(url, size, block, done, url, size, block);
    let ls = text::lines(record_text(url, size, block, done));
    if text::parse_u64(ls[2]) != Some(block) {
        assert(recorded_in(ls, url, size, block).len() == 0);
    }
}

// ---- one range ------------------------------------------------------------------------------

/// The arguments with which curl is asked for the bytes `start` to `end`.
pub open spec fn range_args_of(url: Seq<char>, net: Seq<char>, start: u64, end: u64) -> Seq<Seq<char>> {
    let first = seq![
        "-sS"@,
        "-L"@,
        "--max-time"@,
        "0"@,
        "--connect-timeout"@,
        "20"@,
        "-A"@,
        UA@,
        "-r"@,
        text::decimal(start as nat) + "-"@ + text::decimal(end as nat),
    ];
    let second = if net.len() == 0 {
        first
    } else {
        first.push("--interface"@).push(net)
    };
    second.push(url)
}

pub fn range_args(url: &str, net: &str, start: u64, end: u64) -> (r: Vec<String>)
    ensures
        text::strings(r@) == range_args_of(url@, net@, start, end),
{
    let mut v: Vec<String> = Vec::new();
    v.push("-sS".to_owned());
    v.push("-L".to_owned());
    v.push("--max-time".to_owned());
    v.push("0".to_owned());
    v.push("--connect-timeout".to_owned());
    v.push("20".to_owned());
    v.push("-A".to_owned());
    v.push(UA.to_owned());
    v.push("-r".to_owned());
    let mut range: String = text::number_text(start);
    range.append("-");
    range.append(&text::number_text(end));
    v.push(range);
    if text::chars_of(net).len() > 0 {
        v.push("--interface".to_owned());
        v.push(net.to_owned());
    }
    v.push(url.to_owned());
    assert(text::strings(v@) =~= range_args_of(url@, net@, start, end));
    v
}

/// ` on ` and the network, when it has a name.
pub open spec fn on_net(net: Seq<char>) -> Seq<char> {
    if net.len() == 0 {
        seq![]
    } else {
        " on "@ + net
    }
}

fn push_on_net(s: &mut String, net: &str)
    ensures
        final(s)@ == old(s)@ + on_net(net@),
{
    if text::chars_of(net).len() > 0 {
        let ghost before = s@;
        s.append(" on ");
        s.append(net);
        assert(s@ =~= before + on_net(net@));
    } else {
        assert(s@ =~= s@ + on_net(net@));
    }
}

/// An attempt under way: where the next byte goes, and how many have come.
#[derive(Debug, Clone, Copy, PartialEq, Eq, Structural)]
pub struct Attempt {
    pub at: u64,
    pub written: u64,
}

/// What is to be done before the next read.
pub enum Before {
    /// The download is over: end the transfer.
    Stop,
    /// Nothing came for too long: end the transfer with this error.
    Stalled(String),
    Read,
}

pub enum BeforeView {
    Stop,
    Stalled(Seq<char>),
    Read,
}

impl View for Before {
    type V = BeforeView;

    open spec fn view(&self) -> BeforeView {
        match self {
            Before::Stop => BeforeView::Stop,
            Before::Stalled(e) => BeforeView::Stalled(e@),
            Before::Read => BeforeView::Read,
        }
    }
}

/// What to do before a read, when nothing has come for `quiet_ns` nanoseconds. This is asked before
/// the read, not after, so a connection that never answers at all is caught too.
pub open spec fn before_read_of(stop: bool, quiet_ns: u64, net: Seq<char>) -> BeforeView {
    if stop {
        BeforeView::Stop
    } else if quiet_ns > STALL_AFTER_NS {
        BeforeView::Stalled("a connection"@ + on_net(net) + " stalled"@)
    } else {
        BeforeView::Read
    }
}

pub fn before_read(stop: bool, quiet_ns: u64, net: &str) -> (r: Before)
    ensures
        r@ == before_read_of(stop, quiet_ns, net@),
{
    if stop {
        Before::Stop
    } else if quiet_ns > STALL_AFTER_NS {
        let mut s: String = "a connection".to_owned();
        push_on_net(&mut s, net);
        s.append(" stalled");
        Before::Stalled(s)
    } else {
        Before::Read
    }
}

impl Attempt {
    pub fn new(start: u64) -> (r: Self)
        ensures
            r.at == start,
            r.written == 0,
    {
        Attempt { at: start, written: 0 }
    }

    /// `n` bytes came and were written where they belong.
    pub fn came(&mut self, n: u64)
        requires
            old(self).at + n <= u64::MAX,
            old(self).written + n <= u64::MAX,
        ensures
            final(self).at == old(self).at + n,
            final(self).written == old(self).written + n,
    {
        self.at = self.at + n;
        self.written = self.written + n;
    }

    /// How fast it has been so far, after `elapsed_ms` milliseconds.
    pub fn speed(&self, elapsed_ms: u64) -> (r: plan::Speed)
        ensures
            r.bytes == self.written,
            r.ms == (if elapsed_ms == 0 {
                1
            } else {
                elapsed_ms
            }),
    {
        plan::Speed {
            bytes: self.written,
            ms: if elapsed_ms == 0 {
                1
            } else {
                elapsed_ms
            },
        }
    }
}

/// The first line of what curl complained about.
pub open spec fn complaint(stderr: Seq<char>) -> Seq<char> {
    let ls = text::lines(text::trim(stderr));
    if ls.len() > 0 {
        ls[0]
    } else {
        "no detail"@
    }
}

/// What an attempt comes to, once curl has ended: an error only when it failed without a byte.
pub open spec fn range_outcome_of(
    success: bool,
    written: u64,
    net: Seq<char>,
    stderr: Seq<char>,
) -> Result<u64, Seq<char>> {
    if !success && written == 0 {
        Err("curl failed"@ + on_net(net) + ": "@ + complaint(stderr))
    } else {
        Ok(written)
    }
}

pub fn range_outcome(success: bool, written: u64, net: &str, stderr: &str) -> (r: Result<
    u64,
    String,
>)
    ensures
        plan::got_view(r) == range_outcome_of(success, written, net@, stderr@),
{
    if !success && written == 0 {
        let mut s: String = "curl failed".to_owned();
        push_on_net(&mut s, net);
        s.append(": ");
        let c: Vec<char> = text::chars_of(stderr);
        let ls: Vec<Vec<char>> = text::lines_of(text::trimmed(&c));
        if ls.len() > 0 {
            assert(text::texts(ls@)[0] == ls@[0]@);
            text::push_all(&mut s, &ls[0]);
        } else {
            s.append("no detail");
        }
        Err(s)
    } else {
        Ok(written)
    }
}

// ---- the end --------------------------------------------------------------------------------

/// Why a download did not finish.
pub open spec fn unfinished(failed: Option<Seq<char>>, fetched: u64, total: u64) -> Seq<char> {
    (match failed {
        Some(e) => e,
        None => "the download did not finish"@,
    }) + " ("@ + text::decimal(fetched as nat) + " of "@ + text::decimal(total as nat)
        + " bytes fetched; run it again to resume)"@
}

/// What the download comes to: it is good exactly when every block is done.
pub fn outcome(complete: bool, failed: &Option<String>, fetched: u64, total: u64) -> (r: Result<
    (),
    String,
>)
    ensures
        match r {
            Ok(_) => complete,
            Err(e) => !complete && e@ == unfinished(text::text_opt(*failed), fetched, total),
        },
{
    if complete {
        return Ok(());
    }
    let mut s: String = match failed {
        Some(e) => e.clone(),
        None => "the download did not finish".to_owned(),
    };
    s.append(" (");
    s.append(&text::number_text(fetched));
    s.append(" of ");
    s.append(&text::number_text(total));
    s.append(" bytes fetched; run it again to resume)");
    Err(s)
}

// ---- one connection or many -----------------------------------------------------------------

/// The streams per network that the options ask for: between one and sixteen, four by default.
pub open spec fn streams_asked(option: Option<Seq<char>>) -> usize {
    let n: usize = match option {
        Some(v) => match text::parse_usize(v) {
            Some(n) => n,
            None => 4,
        },
        None => 4,
    };
    if n < 1 {
        1
    } else if n > 16 {
        16
    } else {
        n
    }
}

pub fn streams_option(option: &Option<String>) -> (r: usize)
    ensures
        r == streams_asked(text::text_opt(*option)),
{
    let n: usize = match option {
        Some(v) => match text::number_usize(&text::chars_of(v)) {
            Some(n) => n,
            None => 4,
        },
        None => 4,
    };
    if n < 1 {
        1
    } else if n > 16 {
        16
    } else {
        n
    }
}

/// Whether many connections are worth it: below a few tens of megabytes the extra connections cost
/// more than they save.
pub fn in_parallel(single: bool, p: &Probe) -> (r: bool)
    ensures
        r == (!single && p.ranges && p.size > 33554432),
{
    !single && p.ranges && p.size > 32 * 1024 * 1024
}

// ---- the choices of a download, in full -----------------------------------------------------

/// An interface is used when it is up, or does not say, and is none of those that only virtual machines
/// and containers are on; the ones that are used come in the order in which they were found. White space
/// around what an interface says of itself changes nothing.
pub proof fn law_which_interfaces_are_used(
    found: Seq<Seq<char>>,
    states: Seq<Option<Seq<char>>>,
    iface: Seq<char>,
    a: Seq<char>,
    state: Seq<char>,
    b: Seq<char>,
)
    requires
        found.len() == states.len(),
        text::blank(a),
        text::blank(b),
        state.len() > 0 && !text::is_space(state[0]) && !text::is_space(state.last()),
    ensures
        ({
            let before = usable(found, states);
            let all = usable(found.push(iface), states.push(Some(a + state + b)));
            let up = state == seq!['u', 'p'] || state == seq!['u', 'n', 'k', 'n', 'o', 'w', 'n'];
            let apart = (iface.len() >= 5 && iface.take(5) == "virbr"@) || (iface.len() >= 6
                && iface.take(6) == "docker"@) || (iface.len() >= 3 && iface.take(3) == "br-"@);
            &&& up && !apart ==> all == before.push(iface)
            &&& !up || apart ==> all == before
            &&& usable(found.push(iface), states.push(None)) == before
        }),
        usable(Seq::empty(), Seq::empty()).len() == 0,
{
    reveal_strlit("up");
    reveal_strlit("unknown");
    reveal_strlit("virbr");
    reveal_strlit("docker");
    reveal_strlit("br-");
    assert("up"@ =~= seq!['u', 'p']);
    assert("unknown"@ =~= seq!['u', 'n', 'k', 'n', 'o', 'w', 'n']);
    text::law_white_space_around_is_ignored(a, state, b);
    text::law_a_trimmed_text_stays(state);
    let f = found.push(iface);
    let s = states.push(Some(a + state + b));
    let t = states.push(None::<Seq<char>>);
    assert(f.drop_last() =~= found && s.drop_last() =~= states && t.drop_last() =~= states);
    if iface.len() >= 5 {
        assert(iface.take(5) =~= iface.subrange(0, 5));
    }
    if iface.len() >= 6 {
        assert(iface.take(6) =~= iface.subrange(0, 6));
    }
    if iface.len() >= 3 {
        assert(iface.take(3) =~= iface.subrange(0, 3));
    }
}

/// The interfaces of the routing table are the first words of its lines after the first line, each once,
/// in the order in which they first come, and never loopback.
pub proof fn law_interfaces_are_those_with_routes(
    head: Seq<char>,
    routes: Seq<char>,
    ls: Seq<Seq<char>>,
    iface: Seq<char>,
    gap: Seq<char>,
    rest: Seq<char>,
)
    requires
        iface.len() > 0,
        forall|i: int| 0 <= i < iface.len() ==> !text::is_space(#[trigger] iface[i]),
        text::blank(gap),
        gap.len() > 0 || rest.len() == 0,
    ensures
        text::lines(routes) == seq![head] + ls ==> route_lines(routes) == ls,
        ({
            let before = ifaces_of(ls);
            let all = ifaces_of(ls.push(iface + gap + rest));
            &&& iface != seq!['l', 'o'] && !before.contains(iface) ==> all == before.push(iface)
            &&& iface == seq!['l', 'o'] || before.contains(iface) ==> all == before
        }),
        forall|l: Seq<char>| #[trigger]
            text::words(l).len() == 0 ==> ifaces_of(ls.push(l)) == ifaces_of(ls),
        ifaces_of(Seq::empty()).len() == 0,
{
    reveal_strlit("lo");
    assert("lo"@ =~= seq!['l', 'o']);
    if text::lines(routes) == seq![head] + ls {
        assert(text::lines(routes).skip(1) =~= ls);
    }
    text::law_the_first_word_comes_first(iface, gap, rest);
    let line = iface + gap + rest;
    assert(text::words(line)[0] == iface);
    assert(ls.push(line).drop_last() =~= ls);
    assert forall|l: Seq<char>| #[trigger] text::words(l).len() == 0 implies ifaces_of(ls.push(l))
        == ifaces_of(ls) by {
        assert(ls.push(l).drop_last() =~= ls);
    }
}

/// The size of a block is the one that was asked for. Without one there are about four blocks for each
/// stream, as far as a block then stays between 8 and 64 MiB.
pub proof fn law_how_large_a_block_is(asked: u64, size: u64, streams: nat)
    requires
        streams > 0,
    ensures
        asked > 0 ==> block_of(asked, size, streams) == asked,
        asked == 0 ==> 8 * 1024 * 1024 <= block_of(asked, size, streams) <= 64 * 1024 * 1024,
        asked == 0 && block_of(asked, size, streams) > 8 * 1024 * 1024 ==> block_of(asked, size, streams)
            * (4 * streams) <= size,
        asked == 0 && block_of(asked, size, streams) < 64 * 1024 * 1024 ==> (block_of(
            asked,
            size,
            streams,
        ) + 1) * (4 * streams) > size,
{
    let d = (streams * 4) as int;
    let b = size as int / d;
    assert(4 * streams == d);
    assert(b * d <= size && size < (b + 1) * d) by (nonlinear_arith)
        requires
            d > 0,
            b == size as int / d,
    ;
    if asked == 0 {
        let r = block_of(asked, size, streams) as int;
        if r > 8 * 1024 * 1024 {
            assert(r * d <= b * d) by (nonlinear_arith)
                requires
                    r <= b,
                    d > 0,
            ;
        }
        if r < 64 * 1024 * 1024 {
            assert((b + 1) * d <= (r + 1) * d) by (nonlinear_arith)
                requires
                    b <= r,
                    d > 0,
            ;
        }
    }
}

/// As many streams are opened on each network as were asked for, at least one and at most 16, and four
/// when nothing, or no number, was asked for.
pub proof fn law_how_many_streams_there_are(n: usize, s: Seq<char>)
    ensures
        1 <= n <= 16 ==> streams_asked(Some(text::decimal(n as nat))) == n,
        n == 0 ==> streams_asked(Some(text::decimal(n as nat))) == 1,
        n > 16 ==> streams_asked(Some(text::decimal(n as nat))) == 16,
        streams_asked(None) == 4,
        s.len() == 0 || !(forall|i: int|
            0 <= i < s.len() ==> ('0' <= #[trigger] s[i] && s[i] <= '9') || s[i] == '+')
            ==> streams_asked(Some(s)) == 4,
        1 <= streams_asked(Some(s)) <= 16,
{
    text::lemma_decimal(n as nat);
    if text::parse_usize(s) is Some {
        text::lemma_number_shape(s, usize::MAX as nat);
    }
}

/// The client is asked for exactly the bytes of the range, at the address, and over the network where one
/// is given.
pub proof fn law_what_the_client_is_asked_for(url: Seq<char>, net: Seq<char>, start: u64, end: u64)
    ensures
        ({
            let args = range_args_of(url, net, start, end);
            let n = args.len() as int;
            &&& args.last() == url
            &&& exists|i: int|
                0 <= i && i + 1 < n && #[trigger] args[i] == "-r"@ && args[i + 1] == text::decimal(
                    start as nat,
                ) + seq!['-'] + text::decimal(end as nat)
            &&& net.len() > 0 ==> n >= 3 && args[n - 3] == "--interface"@ && args[n - 2] == net
            &&& net.len() == 0 ==> args[n - 2] == text::decimal(start as nat) + seq!['-'] + text::decimal(
                end as nat,
            )
        }),
{
    reveal_strlit("-");
    assert("-"@ =~= seq!['-']);
    let args = range_args_of(url, net, start, end);
    assert(args[8] == "-r"@);
    assert(args[9] == text::decimal(start as nat) + "-"@ + text::decimal(end as nat));
}

/// A transfer ends when the download is over, and when nothing came for more than twenty seconds; and not
/// otherwise. One that brought anything counts for what it brought, whatever the client then said, and
/// one that brought nothing fails only when the client says so.
pub proof fn law_when_a_transfer_ends(
    stop: bool,
    quiet_ns: u64,
    net: Seq<char>,
    success: bool,
    written: u64,
    stderr: Seq<char>,
)
    ensures
        before_read_of(stop, quiet_ns, net) is Stop <==> stop,
        before_read_of(stop, quiet_ns, net) is Stalled <==> !stop && quiet_ns > 20 * 1_000_000_000,
        success || written > 0 ==> range_outcome_of(success, written, net, stderr) == Ok::<
            u64,
            Seq<char>,
        >(written),
        !success && written == 0 ==> range_outcome_of(success, written, net, stderr) is Err,
{
}

/// The networks that were named are used; without any, those that were found; and without those either,
/// whichever the system picks.
pub proof fn law_which_networks_are_used(asked: Seq<Seq<char>>, found: Seq<Seq<char>>)
    ensures
        asked.len() > 0 ==> chosen(asked, found) == asked,
        asked.len() == 0 && found.len() > 0 ==> chosen(asked, found) == found,
        asked.len() == 0 && found.len() == 0 ==> chosen(asked, found) == seq![Seq::<char>::empty()],
        chosen(asked, found).len() > 0,
{
}

/// What a download will use is told in full: as many connections as networks times streams, in the
/// singular for one, and the networks by name.
pub proof fn law_what_a_download_uses_is_told(nets: Seq<Seq<char>>, streams: nat, net: Seq<char>)
    ensures
        nets.len() == 0 ==> description(nets, streams) == "no network interface is up"@,
        description(seq![net], 1) == text::decimal(1) + " connection"@ + " over "@ + net,
        nets.len() > 0 && nets.len() * streams != 1 ==> description(nets, streams) == text::decimal(
            nets.len() * streams,
        ) + " connections over "@ + text::join(nets, ", "@),
{
    reveal_strlit("s");
    reveal_strlit("");
    reveal_strlit(" connection");
    reveal_strlit(" over ");
    reveal_strlit(" connections over ");
    assert(""@ =~= Seq::empty());
    assert(" connection"@ + "s"@ + " over "@ =~= " connections over "@);
    assert(seq![net].len() * 1 == 1);
    assert(text::join(seq![net], ", "@) == net);
    let d = text::decimal(1) + " connection"@;
    assert(d + ""@ =~= d);
    let n = text::decimal(nets.len() * streams);
    let j = text::join(nets, ", "@);
    assert(n + " connection"@ + "s"@ + " over "@ + j =~= n + (" connection"@ + "s"@ + " over "@) + j);
}

/// What is on record counts only for a file that is here and has its full length: without a record, with
/// no file or with one of another length, nothing is there already and the size of a block is chosen anew.
pub proof fn law_a_record_counts_only_for_its_file(
    record: Option<Seq<char>>,
    held: Option<u64>,
    url: Seq<char>,
    size: u64,
    block: u64,
    opts: Opts,
    found: Seq<Seq<char>>,
)
    requires
        record is None || held is None || held->0 != size,
    ensures
        there_already(record, held, url, size, block).len() == 0,
        block_used(opts, url, size, found, record, held) == block_for(opts, size, found),
{
}

/// The client's complaint is the first line of what it said, white space before it aside, and where it
/// said nothing that is told; it names the network where there is one.
pub proof fn law_the_first_line_is_the_complaint(
    a: Seq<char>,
    first: Seq<char>,
    rest: Seq<char>,
    net: Seq<char>,
    stderr: Seq<char>,
)
    requires
        text::blank(a),
        first.len() > 0 && text::lacks(first, '\n') && first.last() != '\r',
        !text::is_space(first[0]) && !text::is_space(first.last()),
        rest.len() > 0 ==> !text::is_space(rest.last()),
    ensures
        complaint(a + first) == first,
        rest.len() > 0 ==> complaint(a + (first + seq!['\n'] + rest)) == first,
        complaint(a) == "no detail"@,
        net.len() == 0 ==> range_outcome_of(false, 0, net, stderr) == Err::<u64, Seq<char>>(
            "curl failed"@ + Seq::<char>::empty() + ": "@ + complaint(stderr),
        ),
        net.len() > 0 ==> range_outcome_of(false, 0, net, stderr) == Err::<u64, Seq<char>>(
            "curl failed"@ + (" on "@ + net) + ": "@ + complaint(stderr),
        ),
{
    let none = Seq::<char>::empty();
    text::law_white_space_around_is_ignored(a, first, none);
    assert(a + first + none =~= a + first);
    text::law_a_trimmed_text_stays(first);
    text::law_lines_end_in_line_feeds(none, first);
    assert(none + first =~= first);
    assert(text::lines(none) =~= Seq::<Seq<char>>::empty());
    assert(text::lines(first) =~= seq![first]);
    text::law_white_space_around_is_ignored(a, none, none);
    assert(a + none + none =~= a);
    assert(text::trim(none) =~= none);
    if rest.len() > 0 {
        let all = first + seq!['\n'] + rest;
        text::law_white_space_around_is_ignored(a, all, none);
        assert(a + all + none =~= a + all);
        assert(all[0] == first[0] && all.last() == rest.last());
        text::law_a_trimmed_text_stays(all);
        text::law_the_first_piece_comes_first(first, '\n', rest);
        text::lemma_split_len(rest, seq!['\n']);
        assert(text::split(all, '\n')[0] == first);
        assert(text::without_return(first) == first);
        assert(text::lines(all)[0] == first);
    }
}

/// A download that did not finish says why: with what went wrong first, or else that it did not finish,
/// and how much of it is there.
pub proof fn law_an_unfinished_download_says_why(e: Seq<char>, fetched: u64, total: u64)
    ensures
        text::starts_with(unfinished(Some(e), fetched, total), e),
        text::starts_with(unfinished(None, fetched, total), "the download did not finish"@),
        unfinished(Some(e), fetched, total).skip(e.len() as int) == " ("@ + text::decimal(fetched as nat)
            + " of "@ + text::decimal(total as nat) + " bytes fetched; run it again to resume)"@,
{
    let u = unfinished(Some(e), fetched, total);
    let v = unfinished(None, fetched, total);
    let d = "the download did not finish"@;
    assert(u.subrange(0, e.len() as int) =~= e);
    assert(v.subrange(0, d.len() as int) =~= d);
    assert(u.skip(e.len() as int) =~= " ("@ + text::decimal(fetched as nat) + " of "@ + text::decimal(
        total as nat,
    ) + " bytes fetched; run it again to resume)"@);
}

} // verus!
