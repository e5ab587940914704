//! What can be read out of the answers of web servers: the links of a page, the size that response
//! headers announce, and which of two versioned names is the newer one.

use std::cmp::Ordering;

use vstd::prelude::*;
use vstd::slice::slice_subrange;

use crate::text;

verus! {

// ---- links ----------------------------------------------------------------------------------

pub open spec fn ascii_space(c: char) -> bool {
    c == ' ' || c == '\t' || c == '\n' || c == '\u{c}' || c == '\r'
}

/// A link written in quotes ends at the same quote; one without quotes ends at `>` or white space.
pub open spec fn ends_link(c: char, quote: Option<char>) -> bool {
    match quote {
        Some(q) => c == q,
        None => c == '>' || ascii_space(c),
    }
}

/// Where a link that begins at `i` ends.
pub open spec fn link_end(s: Seq<char>, i: int, quote: Option<char>) -> int
    decreases s.len() - i,
{
    if 0 <= i < s.len() && !ends_link(s[i], quote) {
        link_end(s, i + 1, quote)
    } else {
        i
    }
}

pub open spec fn quote_at(s: Seq<char>, i: int) -> Option<char> {
    if 0 <= i < s.len() && (s[i] == '"' || s[i] == '\'') {
        Some(s[i])
    } else {
        None
    }
}

/// Where the link after the `href=` at `p` begins and ends.
pub open spec fn link_span(s: Seq<char>, p: int) -> (int, int) {
    let quote = quote_at(s, p + 5);
    let start = if quote is Some {
        p + 6
    } else {
        p + 5
    };
    (start, link_end(s, start, quote))
}

/// A link ends where it begins or later, and inside the page.
pub proof fn lemma_link_end(s: Seq<char>, i: int, quote: Option<char>)
    ensures
        i <= link_end(s, i, quote),
        i <= s.len() ==> link_end(s, i, quote) <= s.len(),
    decreases s.len() - i,
{
    if 0 <= i < s.len() && !ends_link(s[i], quote) {
        lemma_link_end(s, i + 1, quote);
    }
}

/// The links from position `from` on: each follows an `href=`, in capitals or not, and is not
/// empty.
pub open spec fn links_from(s: Seq<char>, from: int) -> Seq<Seq<char>>
    decreases s.len() - from,
{
    match text::find_from(text::lower(s), "href="@, from) {
        Some(p) => {
            let (start, end) = link_span(s, p);
            proof {
                reveal_strlit("href=");
                if from >= 0 {
                    text::lemma_find_from(text::lower(s), "href="@, from);
                }
                lemma_link_end(s, start, quote_at(s, p + 5));
            }
            if start < end {
                seq![s.subrange(start, end)] + links_from(s, end)
            } else {
                links_from(s, end)
            }
        },
        None => seq![],
    }
}

/// The links of a page.
pub open spec fn links(page: Seq<char>) -> Seq<Seq<char>> {
    links_from(page, 0)
}

fn end_of_link(s: &[char], i: usize, quote: Option<char>) -> (r: usize)
    requires
        i <= s@.len(),
    ensures
        r == link_end(s@, i as int, quote),
        i <= r <= s@.len(),
{
    let mut j: usize = i;
    while j < s.len()
        invariant
            i <= j <= s@.len(),
            link_end(s@, i as int, quote) == link_end(s@, j as int, quote),
        decreases s@.len() - j,
    {
        let c: char = s[j];
        let stop: bool = match quote {
            Some(q) => c == q,
            None => c == '>' || c == ' ' || c == '\t' || c == '\n' || c == '\u{c}' || c == '\r',
        };
        if stop {
            return j;
        }
        j += 1;
    }
    j
}

/// The links of a page, as characters.
pub fn link_texts(page: &[char]) -> (r: Vec<Vec<char>>)
    ensures
        text::texts(r@) == links(page@),
{
    let low: Vec<char> = text::lowered(page);
    let key: Vec<char> = text::chars_of("href=");
    proof {
        reveal_strlit("href=");
    }
    let mut out: Vec<Vec<char>> = Vec::new();
    let n: usize = page.len();
    let mut i: usize = 0;
    assert(text::texts(out@) + links(page@) =~= links(page@));
    loop
        invariant
            n == page@.len(),
            i <= n,
            low@ == text::lower(page@),
            key@ == "href="@,
            key@.len() == 5,
            text::texts(out@) + links_from(page@, i as int) == links(page@),
        decreases page@.len() - i,
    {
        match text::position_from(&low, &key, i) {
            None => {
                assert(text::texts(out@) + seq![] =~= text::texts(out@));
                return out;
            },
            Some(p) => {
                let mut start: usize = p + 5;
                let mut quote: Option<char> = None;
                if start < n && (page[start] == '"' || page[start] == '\'') {
                    quote = Some(page[start]);
                    start += 1;
                }
                let end: usize = end_of_link(page, start, quote);
                assert(link_span(page@, p as int) == (start as int, end as int));
                let ghost before = text::texts(out@);
                if end > start {
                    let link: Vec<char> = text::copy_of(slice_subrange(page, start, end));
                    out.push(link);
                    assert(text::texts(out@) =~= before.push(link@));
                    assert(text::texts(out@) + links_from(page@, end as int) =~= before + (seq![link@]
                        + links_from(page@, end as int)));
                }
                i = end;
            },
        }
    }
}

/// Pull the link targets out of an HTML index or a plain listing.
pub fn hrefs(body: &str) -> (r: Vec<String>)
    ensures
        text::strings(r@) == links(body@),
{
    let found: Vec<Vec<char>> = link_texts(&text::chars_of(body));
    text::strings_of(&found)
}


// ---- which name is newer --------------------------------------------------------------------

/// How the first of two things stands to the second.
#[derive(PartialEq, Eq, Structural, Clone, Copy, Debug)]
pub enum Rank {
    Less,
    Equal,
    Greater,
}

/// How many digits `s` begins with.
pub open spec fn run_len(s: Seq<char>) -> nat
    decreases s.len(),
{
    if s.len() > 0 && text::is_digit(s[0]) {
        1 + run_len(s.drop_first())
    } else {
        0
    }
}

pub open spec fn capped(n: nat) -> nat {
    if n <= u64::MAX {
        n
    } else {
        u64::MAX as nat
    }
}

/// A name cut into what is compared: a whole run of digits counts as one number, up to the largest
/// of 64 bits, and stands where a digit stands; any other character counts as itself.
pub open spec fn tokens(s: Seq<char>) -> Seq<(char, nat)>
    decreases s.len(),
{
    if s.len() == 0 {
        seq![]
    } else if text::is_digit(s[0]) {
        proof {
            lemma_run_len(s);
        }
        seq![('0', capped(text::value(s.take(run_len(s) as int))))] + tokens(
            s.skip(run_len(s) as int),
        )
    } else {
        seq![(s[0], 0nat)] + tokens(s.drop_first())
    }
}

pub proof fn lemma_run_len(s: Seq<char>)
    ensures
        run_len(s) <= s.len(),
        s.len() > 0 && text::is_digit(s[0]) ==> run_len(s) > 0,
    decreases s.len(),
{
    if s.len() > 0 && text::is_digit(s[0]) {
        lemma_run_len(s.drop_first());
    }
}

/// The order of two tokens: by character, then by number.
pub open spec fn token_less(x: (char, nat), y: (char, nat)) -> bool {
    x.0 < y.0 || (x.0 == y.0 && x.1 < y.1)
}

/// The order of two lists of tokens: by the first place where they differ, and a list comes before
/// any longer one that it begins.
pub open spec fn rank(x: Seq<(char, nat)>, y: Seq<(char, nat)>) -> Rank
    decreases x.len(),
{
    if x.len() == 0 && y.len() == 0 {
        Rank::Equal
    } else if x.len() == 0 {
        Rank::Less
    } else if y.len() == 0 {
        Rank::Greater
    } else if x[0] == y[0] {
        rank(x.drop_first(), y.drop_first())
    } else if token_less(x[0], y[0]) {
        Rank::Less
    } else {
        Rank::Greater
    }
}

/// The order in which a person reads versions.
pub open spec fn natural(a: Seq<char>, b: Seq<char>) -> Rank {
    rank(tokens(a), tokens(b))
}

pub open spec fn reversed(r: Rank) -> Rank {
    match r {
        Rank::Less => Rank::Greater,
        Rank::Equal => Rank::Equal,
        Rank::Greater => Rank::Less,
    }
}

proof fn lemma_rank_reversed(x: Seq<(char, nat)>, y: Seq<(char, nat)>)
    ensures
        rank(y, x) == reversed(rank(x, y)),
    decreases x.len(),
{
    if x.len() > 0 && y.len() > 0 && x[0] == y[0] {
        lemma_rank_reversed(x.drop_first(), y.drop_first());
    }
}

proof fn lemma_rank_equal(x: Seq<(char, nat)>, y: Seq<(char, nat)>)
    ensures
        rank(x, y) is Equal <==> x == y,
    decreases x.len(),
{
    if x.len() > 0 && y.len() > 0 && x[0] == y[0] {
        lemma_rank_equal(x.drop_first(), y.drop_first());
        assert(x =~= seq![x[0]] + x.drop_first());
        assert(y =~= seq![y[0]] + y.drop_first());
    } else if x.len() == 0 && y.len() == 0 {
        assert(x =~= y);
    }
}

proof fn lemma_rank_transitive(x: Seq<(char, nat)>, y: Seq<(char, nat)>, z: Seq<(char, nat)>)
    requires
        rank(x, y) !is Greater,
        rank(y, z) !is Greater,
    ensures
        rank(x, z) !is Greater,
        rank(x, y) is Less || rank(y, z) is Less ==> rank(x, z) is Less,
    decreases x.len(),
{
    if x.len() > 0 && y.len() > 0 && z.len() > 0 && x[0] == y[0] && y[0] == z[0] {
        lemma_rank_transitive(x.drop_first(), y.drop_first(), z.drop_first());
    }
}

/// A name is never newer than itself, and when one name is newer than another, the other is older
/// than the first.
pub proof fn law_natural_antisymmetric(a: Seq<char>, b: Seq<char>)
    ensures
        natural(a, a) is Equal,
        natural(b, a) == reversed(natural(a, b)),
{
    lemma_rank_equal(tokens(a), tokens(a));
    lemma_rank_reversed(tokens(a), tokens(b));
}

/// A name that is no newer than a second, which is no newer than a third, is no newer than the
/// third, and it is older than it when either step was one to a newer name.
pub proof fn law_natural_transitive(a: Seq<char>, b: Seq<char>, c: Seq<char>)
    requires
        natural(a, b) !is Greater,
        natural(b, c) !is Greater,
    ensures
        natural(a, c) !is Greater,
        natural(a, b) is Less || natural(b, c) is Less ==> natural(a, c) is Less,
{
    lemma_rank_transitive(tokens(a), tokens(b), tokens(c));
}

proof fn lemma_run_step(s: Seq<char>, n: int)
    requires
        0 <= n <= run_len(s),
    ensures
        n <= s.len(),
        run_len(s.skip(n)) == run_len(s) - n,
        n < run_len(s) <==> n < s.len() && text::is_digit(s[n]),
    decreases n,
{
    lemma_run_len(s);
    if n > 0 {
        lemma_run_step(s.drop_first(), n - 1);
        assert(s.drop_first().skip(n - 1) =~= s.skip(n));
        assert(n < s.len() ==> s.drop_first()[n - 1] == s[n]);
    } else {
        assert(s.skip(0) =~= s);
    }
}

/// The number that the run of digits at `i` writes, and where the run ends.
fn run_at(s: &[char], i: usize) -> (r: (u64, usize))
    requires
        i < s@.len(),
    ensures
        r.1 == i + run_len(s@.skip(i as int)),
        r.1 <= s@.len(),
        r.0 == capped(text::value(s@.skip(i as int).take(run_len(s@.skip(i as int)) as int))),
{
    let ghost rest = s@.skip(i as int);
    let mut n: u64 = 0;
    let mut j: usize = i;
    proof {
        lemma_run_len(rest);
        lemma_run_step(rest, 0);
    }
    while j < s.len() && text::digit(s[j])
        invariant
            rest == s@.skip(i as int),
            i <= j <= s@.len(),
            j - i <= run_len(rest) <= rest.len(),
            j - i < run_len(rest) <==> j < s@.len() && text::is_digit(s@[j as int]),
            n == capped(text::value(rest.take(j - i))),
        decreases s@.len() - j,
    {
        let v: u64 = s[j] as u64 - 48;
        assert(rest.take(j - i + 1).drop_last() =~= rest.take(j - i));
        n = if n > (u64::MAX - v) / 10 {
            u64::MAX
        } else {
            n * 10 + v
        };
        proof {
            lemma_run_step(rest, j - i + 1);
            if j + 1 < s@.len() {
                assert(rest[j - i + 1] == s@[j + 1]);
            }
        }
        j += 1;
    }
    (n, j)
}

/// Which of two names is the newer one, over their characters.
pub fn natural_rank(a: &[char], b: &[char]) -> (r: Rank)
    ensures
        r == natural(a@, b@),
{
    let mut i: usize = 0;
    let mut j: usize = 0;
    assert(a@.skip(0) =~= a@);
    assert(b@.skip(0) =~= b@);
    loop
        invariant
            i <= a@.len(),
            j <= b@.len(),
            natural(a@, b@) == rank(tokens(a@.skip(i as int)), tokens(b@.skip(j as int))),
        decreases a@.len() - i,
    {
        let ghost x = a@.skip(i as int);
        let ghost y = b@.skip(j as int);
        if i == a.len() {
            return if j == b.len() {
                Rank::Equal
            } else {
                Rank::Less
            };
        }
        if j == b.len() {
            return Rank::Greater;
        }
        let p: char = a[i];
        let q: char = b[j];
        proof {
            lemma_run_len(x);
            lemma_run_len(y);
        }
        if text::digit(p) && text::digit(q) {
            let (np, i2): (u64, usize) = run_at(a, i);
            let (nq, j2): (u64, usize) = run_at(b, j);
            assert(tokens(x)[0] == ('0', np as nat));
            assert(tokens(y)[0] == ('0', nq as nat));
            if np < nq {
                return Rank::Less;
            }
            if np > nq {
                return Rank::Greater;
            }
            assert(tokens(x).drop_first() =~= tokens(x.skip(run_len(x) as int)));
            assert(tokens(y).drop_first() =~= tokens(y.skip(run_len(y) as int)));
            assert(x.skip(run_len(x) as int) =~= a@.skip(i2 as int));
            assert(y.skip(run_len(y) as int) =~= b@.skip(j2 as int));
            i = i2;
            j = j2;
        } else {
            if p < q {
                return Rank::Less;
            }
            if p > q {
                return Rank::Greater;
            }
            assert(tokens(x).drop_first() =~= tokens(x.drop_first()));
            assert(tokens(y).drop_first() =~= tokens(y.drop_first()));
            assert(x.drop_first() =~= a@.skip(i + 1));
            assert(y.drop_first() =~= b@.skip(j + 1));
            i += 1;
            j += 1;
        }
    }
}


/// Compare names the way a human reads versions: 24.10 is newer than 9.10, and 2026.09.01 is newer
/// than 2026.08.31. A plain string compare gets both wrong.
///
/// The characters of a text are ordered as the bytes that encode them, so comparing by character
/// is comparing by byte.
pub fn natural_newer(a: &str, b: &str) -> (r: Ordering)
    ensures
        match r {
            Ordering::Less => natural(a@, b@) is Less,
            Ordering::Equal => natural(a@, b@) is Equal,
            Ordering::Greater => natural(a@, b@) is Greater,
        },
{
    match natural_rank(&text::chars_of(a), &text::chars_of(b)) {
        Rank::Less => Ordering::Less,
        Rank::Equal => Ordering::Equal,
        Rank::Greater => Ordering::Greater,
    }
}

// ---- sizes in response headers --------------------------------------------------------------

/// The total that a `Content-Range` line announces, when it is one and the total is not zero.
pub open spec fn range_total(line: Seq<char>) -> Option<u64> {
    let low = text::lower(line);
    let key = "content-range:"@;
    if text::starts_with(low, key) {
        match text::parse_u64(text::trim(text::after_last(low.skip(key.len() as int), '/'))) {
            Some(n) => if n > 0 {
                Some(n)
            } else {
                None
            },
            None => None,
        }
    } else {
        None
    }
}

/// The length that a `Content-Length` line announces, when it is one and the length is more than
/// the single byte of a probe.
pub open spec fn length_total(line: Seq<char>) -> Option<u64> {
    if text::starts_with(text::lower(line), "content-length:"@) && text::split(line, ':').len() > 1 {
        match text::parse_u64(text::trim(text::split(line, ':')[1])) {
            Some(n) => if n > 1 {
                Some(n)
            } else {
                None
            },
            None => None,
        }
    } else {
        None
    }
}

/// What `f` gives on the last line on which it gives anything.
pub open spec fn last_given(ls: Seq<Seq<char>>, f: spec_fn(Seq<char>) -> Option<u64>) -> Option<u64>
    decreases ls.len(),
{
    if ls.len() == 0 {
        None
    } else if f(ls.last()) is Some {
        f(ls.last())
    } else {
        last_given(ls.drop_last(), f)
    }
}

/// The size that response headers announce: the last `Content-Range` total, or else the last
/// `Content-Length`.
pub open spec fn announced_size(head: Seq<char>) -> Option<u64> {
    let ls = text::lines(head);
    match last_given(ls, |l: Seq<char>| range_total(l)) {
        Some(n) => Some(n),
        None => last_given(ls, |l: Seq<char>| length_total(l)),
    }
}

fn read_range_total(line: &[char]) -> (r: Option<u64>)
    ensures
        r == range_total(line@),
{
    let low: Vec<char> = text::lowered(line);
    let key: Vec<char> = text::chars_of("content-range:");
    if !text::at(&low, &key, 0) {
        return None;
    }
    let rest: &[char] = slice_subrange(&low, key.len(), low.len());
    assert(rest@ =~= low@.skip(key@.len() as int));
    let total: Vec<char> = text::last_piece(rest, '/');
    match text::number_u64(text::trimmed(&total)) {
        Some(n) => if n > 0 {
            Some(n)
        } else {
            None
        },
        None => None,
    }
}

fn read_length_total(line: &[char]) -> (r: Option<u64>)
    ensures
        r == length_total(line@),
{
    if !text::begins(&text::lowered(line), "content-length:") {
        return None;
    }
    let parts: Vec<Vec<char>> = text::pieces_at(line, ':');
    if parts.len() < 2 {
        return None;
    }
    assert(text::texts(parts@)[1] == parts@[1]@);
    match text::number_u64(text::trimmed(&parts[1])) {
        Some(n) => if n > 1 {
            Some(n)
        } else {
            None
        },
        None => None,
    }
}

/// Read a total out of response headers: either `Content-Range: bytes 0-0/4100096`, which carries
/// the whole size even for a one byte request, or a plain `Content-Length`. Redirects answer
/// `Content-Length: 0`, so zeros are skipped rather than believed.
pub fn size_in_headers(head: &str) -> (r: Option<u64>)
    ensures
        r == announced_size(head@),
{
    let ls: Vec<Vec<char>> = text::lines_of(&text::chars_of(head));
    let ghost all = text::texts(ls@);
    let ghost by_range = |l: Seq<char>| range_total(l);
    let ghost by_length = |l: Seq<char>| length_total(l);
    let mut i: usize = ls.len();
    assert(all.take(i as int) =~= all);
    while i > 0
        invariant
            i <= ls@.len(),
            all == text::texts(ls@),
            all == text::lines(head@),
            by_range == (|l: Seq<char>| range_total(l)),
            last_given(all, by_range) == last_given(all.take(i as int), by_range),
        decreases i,
    {
        i -= 1;
        assert(all.take(i + 1).drop_last() =~= all.take(i as int));
        assert(all.take(i + 1).last() == ls@[i as int]@);
        let n: Option<u64> = read_range_total(&ls[i]);
        if n.is_some() {
            return n;
        }
    }
    assert(last_given(all, by_range) is None);
    i = ls.len();
    assert(all.take(i as int) =~= all);
    while i > 0
        invariant
            i <= ls@.len(),
            all == text::texts(ls@),
            all == text::lines(head@),
            by_range == (|l: Seq<char>| range_total(l)),
            by_length == (|l: Seq<char>| length_total(l)),
            last_given(all, by_range) is None,
            last_given(all, by_length) == last_given(all.take(i as int), by_length),
        decreases i,
    {
        i -= 1;
        assert(all.take(i + 1).drop_last() =~= all.take(i as int));
        assert(all.take(i + 1).last() == ls@[i as int]@);
        let n: Option<u64> = read_length_total(&ls[i]);
        if n.is_some() {
            return n;
        }
    }
    None
}

proof fn lemma_last_given(ls: Seq<Seq<char>>, f: spec_fn(Seq<char>) -> Option<u64>)
    ensures
        match last_given(ls, f) {
            Some(n) => exists|i: int| 0 <= i < ls.len() && f(#[trigger] ls[i]) == Some(n),
            None => forall|i: int| 0 <= i < ls.len() ==> f(#[trigger] ls[i]) is None,
        },
    decreases ls.len(),
{
    if ls.len() > 0 && f(ls.last()) is None {
        lemma_last_given(ls.drop_last(), f);
        match last_given(ls, f) {
            Some(n) => {
                let i = choose|i: int| 0 <= i < ls.len() - 1 && f(#[trigger] ls.drop_last()[i]) == Some(n);
                assert(f(ls[i]) == Some(n));
            },
            None => {
                assert forall|i: int| 0 <= i < ls.len() implies f(#[trigger] ls[i]) is None by {
                    if i < ls.len() - 1 {
                        assert(ls.drop_last()[i] == ls[i]);
                    }
                }
            },
        }
    } else if ls.len() > 0 {
        assert(f(ls[ls.len() - 1]) is Some);
    }
}

/// A size of zero is never believed, and a total that a `Content-Range` line gives is never passed
/// over for a `Content-Length`.
pub proof fn law_zero_is_never_the_size(head: Seq<char>)
    ensures
        announced_size(head) matches Some(n) ==> n > 0,
        forall|i: int|
            0 <= i < text::lines(head).len() && range_total(#[trigger] text::lines(head)[i]) is Some
                ==> announced_size(head) == last_given(
                text::lines(head),
                |l: Seq<char>| range_total(l),
            ),
{
    let ls = text::lines(head);
    let by_range = |l: Seq<char>| range_total(l);
    let by_length = |l: Seq<char>| length_total(l);
    lemma_last_given(ls, by_range);
    lemma_last_given(ls, by_length);
    assert forall|i: int| 0 <= i < ls.len() && range_total(#[trigger] ls[i]) is Some implies
        announced_size(head) == last_given(ls, by_range) by {
        assert(by_range(ls[i]) is Some);
    }
}

/// Where a link lands, from what the client wrote and whether it succeeded.
pub open spec fn landing(out: Seq<char>, success: bool) -> Option<Seq<char>> {
    if success && text::starts_with(text::trim(out), "http"@) {
        Some(text::trim(out))
    } else {
        None
    }
}

/// Where a link actually lands: what the client reported after following the redirects, when it
/// succeeded and reported a web address.
pub fn final_url(out: &str, success: bool) -> (r: Option<String>)
    ensures
        text::text_opt(r) == landing(out@, success),
{
    let out: Vec<char> = text::chars_of(out);
    let u: &[char] = text::trimmed(&out);
    if success && text::begins(u, "http") {
        Some(text::string_of(u))
    } else {
        None
    }
}

// ---- links in full --------------------------------------------------------------------------

proof fn lemma_lower_skip(s: Seq<char>, k: int)
    requires
        0 <= k <= s.len(),
    ensures
        text::lower(s).skip(k) == text::lower(s.skip(k)),
{
    assert(text::lower(s).skip(k) =~= text::lower(s.skip(k)));
}

proof fn lemma_find_skip(s: Seq<char>, p: Seq<char>, k: int, j: int)
    requires
        0 <= k <= s.len(),
        0 <= j,
    ensures
        text::find_from(s, p, k + j) == match text::find_from(s.skip(k), p, j) {
            Some(i) => Some(i + k),
            None => None,
        },
    decreases s.len() + 1 - j,
{
    if k + j + p.len() <= s.len() {
        assert(s.skip(k).subrange(j, j + p.len()) =~= s.subrange(k + j, k + j + p.len()));
        lemma_find_skip(s, p, k, j + 1);
    }
}

proof fn lemma_end_skip(s: Seq<char>, k: int, i: int, quote: Option<char>)
    requires
        0 <= k <= s.len(),
        0 <= i,
    ensures
        link_end(s, k + i, quote) == k + link_end(s.skip(k), i, quote),
    decreases s.len() - i,
{
    if k + i < s.len() {
        assert(s.skip(k)[i] == s[k + i]);
        if !ends_link(s[k + i], quote) {
            lemma_end_skip(s, k, i + 1, quote);
        }
    }
}

proof fn lemma_links_skip(s: Seq<char>, k: int, j: int)
    requires
        0 <= k <= s.len(),
        0 <= j,
    ensures
        links_from(s, k + j) == links_from(s.skip(k), j),
    decreases s.len() - j,
{
    let t = s.skip(k);
    reveal_strlit("href=");
    lemma_lower_skip(s, k);
    lemma_find_skip(text::lower(s), "href="@, k, j);
    text::lemma_find_from(text::lower(t), "href="@, j);
    if let Some(p) = text::find_from(text::lower(t), "href="@, j) {
        let (start, end) = link_span(t, p);
        if p + 5 < t.len() {
            assert(t[p + 5] == s[k + p + 5]);
        }
        assert(quote_at(t, p + 5) == quote_at(s, k + p + 5));
        lemma_end_skip(s, k, start, quote_at(t, p + 5));
        lemma_link_end(t, start, quote_at(t, p + 5));
        lemma_links_skip(s, k, end);
        if start < end {
            assert(s.subrange(k + start, k + end) =~= t.subrange(start, end));
        }
    }
}

proof fn lemma_end_at(s: Seq<char>, i: int, e: int, quote: Option<char>)
    requires
        0 <= i <= e <= s.len(),
        forall|j: int| i <= j < e ==> !ends_link(#[trigger] s[j], quote),
        e < s.len() ==> ends_link(s[e], quote),
    ensures
        link_end(s, i, quote) == e,
    decreases e - i,
{
    if i < e {
        lemma_end_at(s, i + 1, e, quote);
    }
}

/// A link without the white space of a page in it.
pub open spec fn plain_link(link: Seq<char>) -> bool {
    forall|i: int|
        0 <= i < link.len() ==> #[trigger] link[i] != ' ' && link[i] != '\t' && link[i] != '\n' && link[i]
            != '\u{c}' && link[i] != '\r'
}

/// The links of a page are what its `href=`, in capitals or not, lead to, in their order. Between quotes
/// a link goes up to the same quote; without them it goes up to white space or the end of the tag.
pub proof fn law_links_are_read_in_order(
    before: Seq<char>,
    name: Seq<char>,
    quote: char,
    link: Seq<char>,
    after: Seq<char>,
)
    requires
        text::lower(name) == "href="@,
        link.len() > 0,
        forall|j: int|
            0 <= j < before.len() ==> !text::occurs_at(
                text::lower(before + name + link + after),
                "href="@,
                j,
            ),
        forall|j: int|
            0 <= j < before.len() ==> !text::occurs_at(
                text::lower(before + name + seq![quote] + link + seq![quote] + after),
                "href="@,
                j,
            ),
    ensures
        (quote == '"' || quote == '\'') && text::lacks(link, quote) ==> links(
            before + name + seq![quote] + link + seq![quote] + after,
        ) == seq![link] + links(seq![quote] + after),
        link[0] != '"' && link[0] != '\'' && text::lacks(link, '>') && plain_link(link) && (
        after.len() == 0 || after[0] == '>' || after[0] == ' ' || after[0] == '\t' || after[0] == '\n'
            || after[0] == '\u{c}' || after[0] == '\r') ==> links(before + name + link + after)
            == seq![link] + links(after),
{
    reveal_strlit("href=");
    let n = before.len() as int;
    assert(name.len() == 5) by {
        assert(text::lower(name).len() == name.len());
    }
    if (quote == '"' || quote == '\'') && text::lacks(link, quote) {
        let s = before + name + seq![quote] + link + seq![quote] + after;
        let low = text::lower(s);
        assert(low.subrange(n, n + 5) =~= text::lower(name));
        text::lemma_find_from(low, "href="@, 0);
        assert(text::occurs_at(low, "href="@, n));
        assert(text::find(low, "href="@) == Some(n));
        assert(s[n + 5] == quote);
        let e = n + 6 + link.len();
        assert forall|j: int| n + 6 <= j < e implies !ends_link(#[trigger] s[j], Some(quote)) by {
            assert(s[j] == link[j - n - 6]);
        }
        assert(s[e] == quote);
        lemma_end_at(s, n + 6, e, Some(quote));
        assert(s.subrange(n + 6, e) =~= link);
        assert(s.skip(e) =~= seq![quote] + after);
        lemma_links_skip(s, e, 0);
    }
    if link[0] != '"' && link[0] != '\'' && text::lacks(link, '>') && plain_link(link) && (after.len()
        == 0 || after[0] == '>' || after[0] == ' ' || after[0] == '\t' || after[0] == '\n' || after[0]
        == '\u{c}' || after[0] == '\r') {
        let s = before + name + link + after;
        let low = text::lower(s);
        assert(low.subrange(n, n + 5) =~= text::lower(name));
        text::lemma_find_from(low, "href="@, 0);
        assert(text::occurs_at(low, "href="@, n));
        assert(text::find(low, "href="@) == Some(n));
        assert(s[n + 5] == link[0]);
        let e = n + 5 + link.len();
        assert forall|j: int| n + 5 <= j < e implies !ends_link(#[trigger] s[j], None) by {
            assert(s[j] == link[j - n - 5]);
        }
        if after.len() > 0 {
            assert(s[e] == after[0]);
        }
        lemma_end_at(s, n + 5, e, None);
        assert(s.subrange(n + 5, e) =~= link);
        assert(s.skip(e) =~= after);
        lemma_links_skip(s, e, 0);
    }
}

/// A page without any `href=`, in capitals or not, has no links.
pub proof fn law_no_links_without_href(page: Seq<char>)
    requires
        forall|j: int| !text::occurs_at(text::lower(page), "href="@, j),
    ensures
        links(page).len() == 0,
{
    text::lemma_find_from(text::lower(page), "href="@, 0);
}

// ---- the order in full ----------------------------------------------------------------------

/// A text that does not end in a digit.
pub open spec fn ends_plain(s: Seq<char>) -> bool {
    s.len() == 0 || !text::is_digit(s.last())
}

/// A text that does not begin with a digit.
pub open spec fn begins_plain(s: Seq<char>) -> bool {
    s.len() == 0 || !text::is_digit(s[0])
}

proof fn lemma_run_inside(p: Seq<char>, s: Seq<char>)
    requires
        ends_plain(p) || begins_plain(s),
    ensures
        run_len(p) <= p.len(),
        p.len() > 0 ==> run_len(p + s) == run_len(p),
        ends_plain(p) && p.len() > 0 ==> run_len(p) < p.len(),
    decreases p.len(),
{
    if p.len() > 0 {
        assert((p + s)[0] == p[0]);
        assert((p + s).drop_first() =~= p.drop_first() + s);
        if text::is_digit(p[0]) {
            if p.len() == 1 {
                assert(p.drop_first() + s =~= s);
                assert(p.last() == p[0]);
                assert(run_len(s) == 0);
                assert(run_len(p.drop_first()) == 0);
            } else {
                assert(p.drop_first().last() == p.last());
                lemma_run_inside(p.drop_first(), s);
            }
        }
    }
}

proof fn lemma_tokens_apart(p: Seq<char>, s: Seq<char>)
    requires
        ends_plain(p) || begins_plain(s),
    ensures
        tokens(p + s) == tokens(p) + tokens(s),
    decreases p.len(),
{
    let all = p + s;
    if p.len() == 0 {
        assert(all =~= s);
        assert(tokens(p) + tokens(s) =~= tokens(s));
    } else {
        assert(all[0] == p[0]);
        lemma_run_inside(p, s);
        lemma_run_len(p);
        let n: int = if text::is_digit(p[0]) {
            run_len(p) as int
        } else {
            1
        };
        let rest = p.skip(n);
        assert(all.take(n) =~= p.take(n));
        assert(all.skip(n) =~= rest + s);
        assert(p.drop_first() =~= p.skip(1));
        assert(all.drop_first() =~= all.skip(1));
        if rest.len() > 0 {
            assert(rest.last() == p.last());
        }
        lemma_tokens_apart(rest, s);
        assert(tokens(all) =~= tokens(p) + tokens(s));
    }
}

proof fn lemma_run_of(d: Seq<char>)
    requires
        text::all_digits(d),
    ensures
        run_len(d) == d.len(),
    decreases d.len(),
{
    if d.len() > 0 {
        assert(text::is_digit(d[0]));
        assert forall|i: int| 0 <= i < d.drop_first().len() implies text::is_digit(
            #[trigger] d.drop_first()[i],
        ) by {
            assert(d.drop_first()[i] == d[i + 1]);
        }
        lemma_run_of(d.drop_first());
    }
}

proof fn lemma_tokens_number(d: Seq<char>)
    requires
        d.len() > 0,
        text::all_digits(d),
    ensures
        tokens(d) == seq![('0', capped(text::value(d)))],
{
    lemma_run_of(d);
    assert(text::is_digit(d[0]));
    assert(d.take(d.len() as int) =~= d);
    assert(d.skip(d.len() as int) =~= Seq::empty());
    assert(tokens(Seq::empty()) =~= Seq::empty());
    assert(tokens(d) =~= seq![('0', capped(text::value(d)))]);
}

proof fn lemma_rank_common(p: Seq<(char, nat)>, x: Seq<(char, nat)>, y: Seq<(char, nat)>)
    ensures
        rank(p + x, p + y) == rank(x, y),
    decreases p.len(),
{
    if p.len() == 0 {
        assert(p + x =~= x && p + y =~= y);
    } else {
        assert((p + x)[0] == p[0] && (p + y)[0] == p[0]);
        assert((p + x).drop_first() =~= p.drop_first() + x);
        assert((p + y).drop_first() =~= p.drop_first() + y);
        lemma_rank_common(p.drop_first(), x, y);
    }
}

/// Versions are read as numbers: of two names that agree up to a number, the one with the larger number
/// is the newer, however many digits it has and whatever follows.
pub proof fn law_versions_are_read_as_numbers(
    common: Seq<char>,
    m: u64,
    n: u64,
    x: Seq<char>,
    y: Seq<char>,
)
    requires
        ends_plain(common),
        begins_plain(x),
        begins_plain(y),
        m < n,
    ensures
        natural(common + text::decimal(m as nat) + x, common + text::decimal(n as nat) + y) is Less,
        natural(common + text::decimal(n as nat) + y, common + text::decimal(m as nat) + x) is Greater,
{
    let a = text::decimal(m as nat);
    let b = text::decimal(n as nat);
    text::lemma_decimal(m as nat);
    text::lemma_decimal(n as nat);
    lemma_tokens_number(a);
    lemma_tokens_number(b);
    lemma_tokens_apart(a, x);
    lemma_tokens_apart(b, y);
    lemma_tokens_apart(common, a + x);
    lemma_tokens_apart(common, b + y);
    assert(common + a + x =~= common + (a + x));
    assert(common + b + y =~= common + (b + y));
    let tx = tokens(a + x);
    let ty = tokens(b + y);
    lemma_rank_common(tokens(common), tx, ty);
    assert(tx[0] == ('0', m as nat) && ty[0] == ('0', n as nat));
    assert(rank(tx, ty) is Less);
    law_natural_antisymmetric(common + a + x, common + b + y);
}

/// Leading zeros make no difference to a version.
pub proof fn law_leading_zeros_do_not_count(common: Seq<char>, n: u64, x: Seq<char>)
    requires
        ends_plain(common),
        begins_plain(x),
    ensures
        natural(
            common + (seq!['0'] + text::decimal(n as nat)) + x,
            common + text::decimal(n as nat) + x,
        ) is Equal,
{
    let a = text::decimal(n as nat);
    let z = seq!['0'] + a;
    text::lemma_decimal(n as nat);
    assert forall|i: int| 0 <= i < z.len() implies text::is_digit(#[trigger] z[i]) by {
        if i > 0 {
            assert(text::is_digit(a[i - 1]));
        }
    }
    lemma_value_zero(a);
    lemma_tokens_number(a);
    lemma_tokens_number(z);
    lemma_tokens_apart(a, x);
    lemma_tokens_apart(z, x);
    lemma_tokens_apart(common, a + x);
    lemma_tokens_apart(common, z + x);
    assert(common + a + x =~= common + (a + x));
    assert(common + z + x =~= common + (z + x));
    law_natural_antisymmetric(common + a + x, common + a + x);
}

proof fn lemma_value_zero(a: Seq<char>)
    ensures
        text::value(seq!['0'] + a) == text::value(a),
    decreases a.len(),
{
    let z = seq!['0'] + a;
    if a.len() == 0 {
        assert(z.drop_last() =~= Seq::empty());
        reveal_with_fuel(text::value, 2);
    } else {
        assert(z.drop_last() =~= seq!['0'] + a.drop_last());
        assert(z.last() == a.last());
        lemma_value_zero(a.drop_last());
    }
}

/// Where two names first differ in a character that is no digit, the characters decide, and a name comes
/// before any longer one that it begins.
pub proof fn law_other_characters_decide_by_themselves(
    common: Seq<char>,
    a: char,
    b: char,
    x: Seq<char>,
    y: Seq<char>,
)
    requires
        !text::is_digit(a),
        !text::is_digit(b),
    ensures
        a < b ==> natural(common + (seq![a] + x), common + (seq![b] + y)) is Less,
        natural(common, common + (seq![a] + x)) is Less,
{
    let s = seq![a] + x;
    let t = seq![b] + y;
    lemma_tokens_apart(common, s);
    lemma_tokens_apart(common, t);
    assert(s[0] == a && t[0] == b);
    let ts = tokens(s);
    let tt = tokens(t);
    assert(ts[0] == (a, 0nat) && tt[0] == (b, 0nat));
    lemma_rank_common(tokens(common), ts, tt);
    let none = Seq::<(char, nat)>::empty();
    lemma_rank_common(tokens(common), none, ts);
    assert(tokens(common) + none =~= tokens(common));
}

// ---- announced sizes in full ----------------------------------------------------------------

/// A line that announces a range whose total is `n`.
pub open spec fn tells_total(line: Seq<char>, n: u64) -> bool {
    exists|name: Seq<char>, mid: Seq<char>|
        text::lower(name) == "content-range:"@ && line == #[trigger] (name + mid) + seq!['/']
            + text::decimal(n as nat)
}

/// The line begins with this name, in capitals or not.
pub open spec fn is_named(line: Seq<char>, name: Seq<char>) -> bool {
    line.len() >= name.len() && text::lower(line.take(name.len() as int)) == name
}

proof fn lemma_tells_total(line: Seq<char>, n: u64)
    requires
        tells_total(line, n),
    ensures
        range_total(line) == if n > 0 {
            Some(n)
        } else {
            None
        },
{
    reveal_strlit("content-range:");
    let (name, mid) = choose|name: Seq<char>, mid: Seq<char>|
        text::lower(name) == "content-range:"@ && line == #[trigger] (name + mid) + seq!['/']
            + text::decimal(n as nat);
    let d = text::decimal(n as nat);
    text::lemma_begins_lowered("content-range:"@, name, mid + seq!['/'] + d);
    assert(name + (mid + seq!['/'] + d) =~= line);
    let low = text::lower(line);
    text::lemma_decimal(n as nat);
    assert(text::lower(name).len() == name.len());
    let rest = low.skip(14);
    assert forall|i: int| 0 <= i < d.len() implies text::lower_char(#[trigger] d[i]) == d[i] by {
        assert(text::is_digit(d[i]));
    }
    let m = text::lower(mid);
    assert(rest =~= m + seq!['/'] + d);
    text::lemma_digits_alone(n as nat, '/');
    text::law_the_last_piece_comes_last(m, '/', d);
    text::lemma_parse_decimal(n);
}

proof fn lemma_named(line: Seq<char>, name: Seq<char>)
    ensures
        text::starts_with(text::lower(line), name) <==> is_named(line, name),
{
    if line.len() >= name.len() {
        assert(text::lower(line.take(name.len() as int)) =~= text::lower(line).subrange(
            0,
            name.len() as int,
        ));
    }
}

proof fn lemma_pushed(head: Seq<char>, more: Seq<char>, line: Seq<char>)
    requires
        text::lines(more) == text::lines(head).push(line),
    ensures
        last_given(text::lines(more), |l: Seq<char>| range_total(l)) == if range_total(line) is Some {
            range_total(line)
        } else {
            last_given(text::lines(head), |l: Seq<char>| range_total(l))
        },
        last_given(text::lines(more), |l: Seq<char>| length_total(l)) == if length_total(line) is Some {
            length_total(line)
        } else {
            last_given(text::lines(head), |l: Seq<char>| length_total(l))
        },
{
    assert(text::lines(more).drop_last() =~= text::lines(head));
}

/// The last `Content-Range`, its name in whatever case, says how large the file is, whatever the lines
/// before it said.
pub proof fn law_the_last_range_is_the_size(head: Seq<char>, more: Seq<char>, line: Seq<char>, n: u64)
    requires
        text::lines(more) == text::lines(head).push(line),
        tells_total(line, n),
        n > 0,
    ensures
        announced_size(more) == Some(n),
{
    lemma_tells_total(line, n);
    lemma_pushed(head, more, line);
}

/// A `Content-Length`, its name in whatever case, counts only where no `Content-Range` gave a total, and
/// only when it is more than the one byte that was asked for.
pub proof fn law_a_length_counts_without_a_range(
    head: Seq<char>,
    more: Seq<char>,
    name: Seq<char>,
    space: Seq<char>,
    n: u64,
)
    requires
        text::lower(name) == "content-length:"@,
        text::blank(space),
        text::lines(more) == text::lines(head).push(name + space + text::decimal(n as nat)),
    ensures
        n > 1 && (forall|i: int|
            0 <= i < text::lines(head).len() ==> !is_named(
                #[trigger] text::lines(head)[i],
                "content-range:"@,
            )) ==> announced_size(more) == Some(n),
        n <= 1 ==> announced_size(more) == announced_size(head),
        forall|i: int, k: u64|
            0 <= i < text::lines(head).len() && k > 0 && #[trigger] tells_total(
                text::lines(head)[i],
                k,
            ) ==> announced_size(more) == announced_size(head),
{
    reveal_strlit("content-length:");
    reveal_strlit("content-length");
    reveal_strlit("content-range:");
    let d = text::decimal(n as nat);
    let line = name + space + d;
    lemma_pushed(head, more, line);
    text::lemma_begins_lowered("content-length:"@, name, space + d);
    assert(name + (space + d) =~= line);
    let low = text::lower(line);
    assert(low.subrange(0, 15)[8] == low[8] && "content-length:"@[8] == 'l');
    if text::starts_with(low, "content-range:"@) {
        assert(low.subrange(0, 14)[8] == low[8]);
        assert("content-range:"@[8] == 'r');
    }
    assert(range_total(line) is None);
    let x = "content-length"@;
    assert(x + seq![':'] =~= "content-length:"@);
    text::lemma_name_ends(line, x);
    assert(text::lower(name).len() == name.len());
    let rest = space + d;
    text::lemma_digits_alone(n as nat, ':');
    assert forall|i: int| 0 <= i < rest.len() implies #[trigger] rest[i] != ':' by {
        if i < space.len() {
            assert(text::is_space(space[i]));
        } else {
            assert(rest[i] == d[i - space.len()]);
        }
    }
    assert(line =~= line.take(14) + seq![':'] + rest);
    text::law_the_first_piece_comes_first(line.take(14), ':', rest);
    text::lemma_split_none(rest, ':');
    assert(text::split(line, ':')[1] == rest);
    text::lemma_parse_decimal(n);
    let ls = text::lines(head);
    let by_range = |l: Seq<char>| range_total(l);
    lemma_last_given(ls, by_range);
    if forall|i: int| 0 <= i < ls.len() ==> !is_named(#[trigger] ls[i], "content-range:"@) {
        if last_given(ls, by_range) is Some {
            let i = choose|i: int|
                0 <= i < ls.len() && by_range(#[trigger] ls[i]) == last_given(ls, by_range);
            lemma_named(ls[i], "content-range:"@);
        }
    }
    assert forall|i: int, k: u64|
        0 <= i < ls.len() && k > 0 && #[trigger] tells_total(ls[i], k) implies announced_size(more)
        == announced_size(head) by {
        lemma_tells_total(ls[i], k);
        assert(by_range(ls[i]) is Some);
    }
}

/// No other line says anything of the size.
pub proof fn law_other_lines_announce_nothing(head: Seq<char>, more: Seq<char>, line: Seq<char>)
    requires
        text::lines(more) == text::lines(head).push(line),
        !is_named(line, "content-range:"@),
        !is_named(line, "content-length:"@),
    ensures
        announced_size(more) == announced_size(head),
{
    lemma_named(line, "content-range:"@);
    lemma_named(line, "content-length:"@);
    lemma_pushed(head, more, line);
}

/// A link lands where the client says that it does, white space around it aside, when that is a web
/// address and the client succeeded; and nowhere otherwise.
pub proof fn law_where_a_link_lands(a: Seq<char>, url: Seq<char>, b: Seq<char>, out: Seq<char>)
    requires
        text::blank(a),
        text::blank(b),
        url.len() > 0 && !text::is_space(url.last()),
    ensures
        text::starts_with(url, "http"@) ==> landing(a + url + b, true) == Some(url),
        !text::is_space(url[0]) && !text::starts_with(url, "http"@) ==> landing(a + url + b, true) is None,
        landing(out, false) is None,
{
    reveal_strlit("http");
    text::law_white_space_around_is_ignored(a, url, b);
    if text::starts_with(url, "http"@) {
        assert(url.subrange(0, 4)[0] == url[0]);
        assert("http"@[0] == 'h');
        text::law_what_white_space_is('h');
    }
    if !text::is_space(url[0]) {
        text::law_a_trimmed_text_stays(url);
    }
}

} // verus!
