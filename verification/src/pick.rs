//! Picking the newest image off a page, the newest directory off a listing, and the hash of a file
//! out of a checksum file.

use vstd::prelude::*;
use vstd::slice::slice_subrange;
use vstd::string::*;
use vstd::utf8::*;

use crate::net;
use crate::percent;
use crate::text;

verus! {

// ---- addresses ------------------------------------------------------------------------------

/// The address of `name` in the directory at `dir`; a name that is an address already stays one.
pub open spec fn address(dir: Seq<char>, name: Seq<char>) -> Seq<char> {
    if text::starts_with(name, "http"@) {
        name
    } else if text::ends_with(dir, "/"@) {
        dir + text::trim_start_matches(name, "./"@)
    } else {
        dir + "/"@ + text::trim_start_matches(name, "./"@)
    }
}

pub fn join(dir: &str, name: &str) -> (r: String)
    ensures
        r@ == address(dir@, name@),
{
    let n: Vec<char> = text::chars_of(name);
    if text::begins(&n, "http") {
        return name.to_owned();
    }
    proof {
        reveal_strlit("./");
    }
    let rest: &[char] = text::without_prefixes(&n, "./");
    let mut out: String = dir.to_owned();
    if !text::ends(&text::chars_of(dir), "/") {
        out.append("/");
    }
    text::push_all(&mut out, rest);
    out
}

// ---- variants to leave out ------------------------------------------------------------------

/// The name contains piece `i` of the comma separated list.
pub open spec fn rejected_by(name: Seq<char>, reject: Seq<char>, i: int) -> bool {
    let r = text::trim(text::split(reject, ',')[i]);
    r.len() > 0 && text::contains(name, r)
}

/// The name contains any of the comma separated reject substrings.
pub open spec fn is_rejected(name: Seq<char>, reject: Seq<char>) -> bool {
    exists|i: int| 0 <= i < text::split(reject, ',').len() && rejected_by(name, reject, i)
}

/// True when the name contains any of the comma separated reject substrings.
pub fn rejected(name: &[char], reject: &str) -> (r: bool)
    ensures
        r == is_rejected(name@, reject@),
{
    let parts: Vec<Vec<char>> = text::pieces_at(&text::chars_of(reject), ',');
    let mut i: usize = 0;
    while i < parts.len()
        invariant
            i <= parts@.len(),
            text::texts(parts@) == text::split(reject@, ','),
            forall|j: int| 0 <= j < i ==> !rejected_by(name@, reject@, j),
        decreases parts@.len() - i,
    {
        assert(text::texts(parts@)[i as int] == parts@[i as int]@);
        let r: &[char] = text::trimmed(&parts[i]);
        if r.len() > 0 && text::holds(name, r) {
            assert(rejected_by(name@, reject@, i as int));
            return true;
        }
        i += 1;
    }
    false
}

// ---- the newest image -----------------------------------------------------------------------

/// A link of a page: the file name that it leads to, and the link itself. The link is kept because
/// plenty of "directories" are really download pages whose links point somewhere else entirely.
pub struct Link {
    pub name: String,
    pub href: String,
}

pub open spec fn links_view(v: Seq<Link>) -> Seq<(Seq<char>, Seq<char>)> {
    Seq::new(v.len(), |i: int| (v[i].name@, v[i].href@))
}

/// A name of the right shape that is none of the variants to leave out.
pub open spec fn wanted(
    name: Seq<char>,
    prefix: Seq<char>,
    suffix: Seq<char>,
    reject: Seq<char>,
) -> bool {
    &&& text::starts_with(name, prefix)
    &&& text::ends_with(name, suffix)
    &&& !text::contains(name, ".."@)
    &&& !is_rejected(name, reject)
}

/// The newest wanted name, with its link; of equally new ones the first.
pub open spec fn newest_of(
    links: Seq<(Seq<char>, Seq<char>)>,
    prefix: Seq<char>,
    suffix: Seq<char>,
    reject: Seq<char>,
) -> Option<(Seq<char>, Seq<char>)>
    decreases links.len(),
{
    if links.len() == 0 {
        None
    } else {
        let best = newest_of(links.drop_last(), prefix, suffix, reject);
        let (name, href) = links.last();
        if !wanted(name, prefix, suffix, reject) {
            best
        } else {
            match best {
                Some(b) => if net::natural(name, b.0) is Greater {
                    Some((name, href))
                } else {
                    best
                },
                None => Some((name, href)),
            }
        }
    }
}

/// The file name that a link leads to: what follows its last slash, with percent signs read.
pub open spec fn link_name(href: Seq<char>) -> Seq<char> {
    percent::decoded(text::after_last(href, '/'))
}

/// The links of a page with the names they lead to.
pub open spec fn named_links(page: Seq<char>) -> Seq<(Seq<char>, Seq<char>)> {
    let hs = net::links(page);
    Seq::new(hs.len(), |i: int| (link_name(hs[i]), hs[i]))
}

/// The percent signs of every link can be read.
pub open spec fn page_readable(page: Seq<char>) -> bool {
    forall|i: int|
        0 <= i < net::links(page).len() ==> percent::readable(
            encode_utf8(text::after_last(#[trigger] net::links(page)[i], '/')),
        )
}

pub open spec fn pair_opt(p: Option<(String, String)>) -> Option<(Seq<char>, Seq<char>)> {
    match p {
        Some((a, b)) => Some((a@, b@)),
        None => None,
    }
}

fn is_wanted(name: &str, prefix: &str, suffix: &str, reject: &str) -> (r: bool)
    ensures
        r == wanted(name@, prefix@, suffix@, reject@),
{
    let n: Vec<char> = text::chars_of(name);
    let dots: Vec<char> = text::chars_of("..");
    text::begins(&n, prefix) && text::ends(&n, suffix) && !text::holds(&n, &dots) && !rejected(
        &n,
        reject,
    )
}

fn is_newer(a: &str, b: &str) -> (r: bool)
    ensures
        r == (net::natural(a@, b@) is Greater),
{
    match net::natural_rank(&text::chars_of(a), &text::chars_of(b)) {
        net::Rank::Greater => true,
        _ => false,
    }
}

/// The newest of some links that has the right shape.
pub fn newest_link(links: &Vec<Link>, prefix: &str, suffix: &str, reject: &str) -> (r: Option<
    (String, String),
>)
    ensures
        pair_opt(r) == newest_of(links_view(links@), prefix@, suffix@, reject@),
{
    let ghost all = links_view(links@);
    let mut best: Option<usize> = None;
    let mut i: usize = 0;
    while i < links.len()
        invariant
            i <= links@.len(),
            all == links_view(links@),
            best matches Some(b) ==> b < links@.len(),
            newest_of(all.take(i as int), prefix@, suffix@, reject@) == match best {
                Some(b) => Some(all[b as int]),
                None => None,
            },
        decreases links@.len() - i,
    {
        assert(all.take(i + 1).drop_last() =~= all.take(i as int));
        assert(all.take(i + 1).last() == all[i as int]);
        if is_wanted(links[i].name.as_str(), prefix, suffix, reject) {
            let take: bool = match best {
                Some(b) => is_newer(links[i].name.as_str(), links[b].name.as_str()),
                None => true,
            };
            if take {
                best = Some(i);
            }
        }
        i += 1;
    }
    assert(all.take(i as int) =~= all);
    match best {
        Some(b) => Some((links[b].name.clone(), links[b].href.clone())),
        None => None,
    }
}

/// Whether [`newest`] can read the page.
pub fn readable_page(body: &str) -> (r: bool)
    ensures
        r == page_readable(body@),
{
    let hs: Vec<Vec<char>> = net::link_texts(&text::chars_of(body));
    let mut i: usize = 0;
    while i < hs.len()
        invariant
            i <= hs@.len(),
            text::texts(hs@) == net::links(body@),
            forall|j: int|
                0 <= j < i ==> percent::readable(
                    encode_utf8(text::after_last(#[trigger] net::links(body@)[j], '/')),
                ),
        decreases hs@.len() - i,
    {
        assert(text::texts(hs@)[i as int] == hs@[i as int]@);
        let last: String = text::string_of(&text::last_piece(&hs[i], '/'));
        if !percent::percent_readable(last.as_str()) {
            return false;
        }
        i += 1;
    }
    true
}

/// The links of a page with the names they lead to.
pub fn page_links(body: &str) -> (r: Vec<Link>)
    requires
        page_readable(body@),
    ensures
        links_view(r@) == named_links(body@),
{
    let hs: Vec<Vec<char>> = net::link_texts(&text::chars_of(body));
    let mut out: Vec<Link> = Vec::new();
    let mut i: usize = 0;
    while i < hs.len()
        invariant
            i <= hs@.len(),
            page_readable(body@),
            text::texts(hs@) == net::links(body@),
            links_view(out@) =~= named_links(body@).take(i as int),
        decreases hs@.len() - i,
    {
        assert(text::texts(hs@)[i as int] == hs@[i as int]@);
        let last: String = text::string_of(&text::last_piece(&hs[i], '/'));
        let ghost before = links_view(out@);
        let link: Link = Link {
            name: percent::percent_decode(last.as_str()),
            href: text::string_of(&hs[i]),
        };
        let ghost lv = (link.name@, link.href@);
        out.push(link);
        assert(links_view(out@) =~= before.push(lv));
        i += 1;
    }
    assert(named_links(body@).take(i as int) =~= named_links(body@));
    out
}

/// The newest image on a page, as its file name and its link.
pub fn newest(body: &str, prefix: &str, suffix: &str, reject: &str) -> (r: Option<
    (String, String),
>)
    requires
        page_readable(body@),
    ensures
        pair_opt(r) == newest_of(named_links(body@), prefix@, suffix@, reject@),
{
    newest_link(&page_links(body), prefix, suffix, reject)
}

/// What is picked is on the page and wanted, and nothing wanted on the page is newer; nothing is
/// picked only when nothing is wanted.
pub proof fn law_newest_is_the_newest(
    links: Seq<(Seq<char>, Seq<char>)>,
    prefix: Seq<char>,
    suffix: Seq<char>,
    reject: Seq<char>,
)
    ensures
        match newest_of(links, prefix, suffix, reject) {
            Some(b) => {
                &&& links.contains(b)
                &&& wanted(b.0, prefix, suffix, reject)
                &&& forall|i: int|
                    0 <= i < links.len() && wanted((#[trigger] links[i]).0, prefix, suffix, reject)
                        ==> net::natural(links[i].0, b.0) !is Greater
            },
            None => forall|i: int|
                0 <= i < links.len() ==> !wanted((#[trigger] links[i]).0, prefix, suffix, reject),
        },
    decreases links.len(),
{
    if links.len() > 0 {
        let before = links.drop_last();
        law_newest_is_the_newest(before, prefix, suffix, reject);
        let n = links.len() - 1;
        assert(forall|i: int| 0 <= i < n ==> before[i] == links[i]);
        let old_best = newest_of(before, prefix, suffix, reject);
        match newest_of(links, prefix, suffix, reject) {
            Some(b) => {
                if old_best == Some(b) {
                    let k = choose|k: int| 0 <= k < before.len() && before[k] == b;
                    assert(links[k] == b);
                } else {
                    assert(links[n] == b);
                }
                assert forall|i: int|
                    0 <= i < links.len() && wanted(
                        (#[trigger] links[i]).0,
                        prefix,
                        suffix,
                        reject,
                    ) implies net::natural(links[i].0, b.0) !is Greater by {
                    if i == n {
                        net::law_natural_antisymmetric(links[n].0, b.0);
                    } else {
                        assert(before[i] == links[i]);
                        if old_best != Some(b) {
                            let o = old_best->0;
                            net::law_natural_antisymmetric(b.0, o.0);
                            net::law_natural_transitive(links[i].0, o.0, b.0);
                        }
                    }
                }
            },
            None => {},
        }
    }
}

// ---- the newest directory -------------------------------------------------------------------

/// The directory that a link leads to.
pub open spec fn dir_name(h: Seq<char>) -> Seq<char> {
    text::trim_end_matches(h, '/')
}

pub open spec fn has_digit(s: Seq<char>) -> bool {
    exists|i: int| 0 <= i < s.len() && text::is_digit(#[trigger] s[i])
}

/// A link down to a versioned directory: "test/" and "sources/" do not qualify.
pub open spec fn wanted_dir(h: Seq<char>, prefix: Seq<char>, reject: Seq<char>) -> bool {
    let d = dir_name(h);
    &&& text::ends_with(h, "/"@)
    &&& !text::starts_with(h, "http"@)
    &&& !text::starts_with(h, "/"@)
    &&& !text::starts_with(h, "?"@)
    &&& !text::starts_with(h, ".."@)
    &&& text::starts_with(d, prefix)
    &&& d.len() > 0
    &&& !is_rejected(d, reject)
    &&& has_digit(d)
}

/// The newest wanted directory; of equally new ones the first.
pub open spec fn newest_dir_of(hs: Seq<Seq<char>>, prefix: Seq<char>, reject: Seq<char>) -> Option<
    Seq<char>,
>
    decreases hs.len(),
{
    if hs.len() == 0 {
        None
    } else {
        let best = newest_dir_of(hs.drop_last(), prefix, reject);
        let d = dir_name(hs.last());
        if !wanted_dir(hs.last(), prefix, reject) {
            best
        } else {
            match best {
                Some(b) => if net::natural(d, b) is Greater {
                    Some(d)
                } else {
                    best
                },
                None => Some(d),
            }
        }
    }
}

fn any_digit(d: &[char]) -> (r: bool)
    ensures
        r == has_digit(d@),
{
    let mut i: usize = 0;
    while i < d.len()
        invariant
            i <= d@.len(),
            forall|j: int| 0 <= j < i ==> !text::is_digit(#[trigger] d@[j]),
        decreases d@.len() - i,
    {
        if text::digit(d[i]) {
            return true;
        }
        i += 1;
    }
    false
}

fn is_wanted_dir(h: &[char], d: &[char], prefix: &str, reject: &str) -> (r: bool)
    requires
        d@ == dir_name(h@),
    ensures
        r == wanted_dir(h@, prefix@, reject@),
{
    if !text::ends(h, "/") || text::begins(h, "http") || text::begins(h, "/") || text::begins(
        h,
        "?",
    ) || text::begins(h, "..") {
        return false;
    }
    if !text::begins(d, prefix) || d.len() == 0 || rejected(d, reject) {
        return false;
    }
    any_digit(d)
}

/// The newest versioned directory that a page links to.
pub fn newest_dir(body: &str, prefix: &str, reject: &str) -> (r: Option<String>)
    ensures
        text::text_opt(r) == newest_dir_of(net::links(body@), prefix@, reject@),
{
    let hs: Vec<Vec<char>> = net::link_texts(&text::chars_of(body));
    let ghost all = text::texts(hs@);
    let mut best: Option<Vec<char>> = None;
    let mut i: usize = 0;
    while i < hs.len()
        invariant
            i <= hs@.len(),
            all == text::texts(hs@),
            newest_dir_of(all.take(i as int), prefix@, reject@) == match best {
                Some(b) => Some(b@),
                None => None,
            },
        decreases hs@.len() - i,
    {
        assert(all.take(i + 1).drop_last() =~= all.take(i as int));
        assert(all.take(i + 1).last() == hs@[i as int]@);
        let d: &[char] = text::without_suffixes(&hs[i], '/');
        if is_wanted_dir(&hs[i], d, prefix, reject) {
            let newer: bool = match &best {
                Some(b) => match net::natural_rank(d, b) {
                    net::Rank::Greater => true,
                    _ => false,
                },
                None => true,
            };
            if newer {
                best = Some(text::copy_of(d));
            }
        }
        i += 1;
    }
    assert(all.take(i as int) =~= all);
    match best {
        Some(b) => Some(text::string_of(&b)),
        None => None,
    }
}

/// The directory that is picked is linked to and versioned, and no other such directory on the page
/// is newer; none is picked only when there is none.
pub proof fn law_newest_dir_is_the_newest(hs: Seq<Seq<char>>, prefix: Seq<char>, reject: Seq<char>)
    ensures
        match newest_dir_of(hs, prefix, reject) {
            Some(b) => {
                &&& exists|i: int|
                    0 <= i < hs.len() && wanted_dir(#[trigger] hs[i], prefix, reject) && dir_name(
                        hs[i],
                    ) == b
                &&& forall|i: int|
                    0 <= i < hs.len() && wanted_dir(#[trigger] hs[i], prefix, reject)
                        ==> net::natural(dir_name(hs[i]), b) !is Greater
            },
            None => forall|i: int|
                0 <= i < hs.len() ==> !wanted_dir(#[trigger] hs[i], prefix, reject),
        },
    decreases hs.len(),
{
    if hs.len() > 0 {
        let before = hs.drop_last();
        law_newest_dir_is_the_newest(before, prefix, reject);
        let n = hs.len() - 1;
        assert(forall|i: int| 0 <= i < n ==> before[i] == hs[i]);
        let old_best = newest_dir_of(before, prefix, reject);
        match newest_dir_of(hs, prefix, reject) {
            Some(b) => {
                if old_best == Some(b) {
                    let k = choose|k: int|
                        0 <= k < before.len() && wanted_dir(#[trigger] before[k], prefix, reject)
                            && dir_name(before[k]) == b;
                    assert(hs[k] == before[k]);
                } else {
                    assert(wanted_dir(hs[n], prefix, reject) && dir_name(hs[n]) == b);
                }
                assert forall|i: int|
                    0 <= i < hs.len() && wanted_dir(#[trigger] hs[i], prefix, reject) implies net::natural(
                dir_name(hs[i]), b) !is Greater by {
                    if i == n {
                        net::law_natural_antisymmetric(dir_name(hs[n]), b);
                    } else {
                        assert(before[i] == hs[i]);
                        if old_best != Some(b) {
                            let o = old_best->0;
                            net::law_natural_antisymmetric(b, o);
                            net::law_natural_transitive(dir_name(hs[i]), o, b);
                        }
                    }
                }
            },
            None => {},
        }
    }
}


// ---- hashes in checksum files ---------------------------------------------------------------

pub open spec fn is_hex(c: char) -> bool {
    ||| '0' <= c && c <= '9'
    ||| 'a' <= c && c <= 'f'
    ||| 'A' <= c && c <= 'F'
}

/// The text is a SHA-256 in hexadecimal.
pub open spec fn is_sha(s: Seq<char>) -> bool {
    s.len() == 64 && forall|i: int| 0 <= i < s.len() ==> is_hex(#[trigger] s[i])
}

/// `s` without the star that marks a binary file.
pub open spec fn unmarked(s: Seq<char>) -> Seq<char> {
    if s.len() > 0 && s[0] == '*' {
        s.drop_first()
    } else {
        s
    }
}

/// The name of a file without the mark of a binary file and without the directories that it is in,
/// which checksum files may set before it.
pub open spec fn bare_name(s: Seq<char>) -> Seq<char> {
    text::after_last(unmarked(s), '/')
}

/// The name on a line `<hash>  <name>`: all that follows the hash.
pub open spec fn listed_name(line: Seq<char>) -> Seq<char> {
    bare_name(text::after_word(line))
}

/// The name on a line `SHA256 (<name>) = <hash>`: what stands between the brackets, or without
/// brackets all that stands before the equals sign.
pub open spec fn tagged_name(line: Seq<char>) -> Option<Seq<char>> {
    match text::before_last(line, '=') {
        Some(head) => match text::find(head, seq!['(']) {
            Some(i) => match text::before_last(head.skip(i + 1), ')') {
                Some(name) => Some(bare_name(name)),
                None => Some(bare_name(text::trim(head))),
            },
            None => Some(bare_name(text::trim(head))),
        },
        None => None,
    }
}

/// The hash on a line that names a file: its first word, as in `<hash>  <name>`, or what follows its
/// last equals sign, as in `SHA256 (<name>) = <hash>`. A line about another file, even one whose name
/// holds this one, has none for it.
pub open spec fn line_sha(line: Seq<char>, filename: Seq<char>) -> Option<Seq<char>> {
    let w = text::words(line);
    let tail = text::trim(text::after_last(line, '='));
    if w.len() > 0 && is_sha(w[0]) {
        if listed_name(line) == filename {
            Some(text::lower(w[0]))
        } else {
            None
        }
    } else if is_sha(tail) && tagged_name(line) == Some(filename) {
        Some(text::lower(tail))
    } else {
        None
    }
}

/// The line names the file, in one way or the other.
pub open spec fn names_file(line: Seq<char>, filename: Seq<char>) -> bool {
    listed_name(line) == filename || tagged_name(line) == Some(filename)
}

/// The hash on the first line that has one for the file.
pub open spec fn sha_from(ls: Seq<Seq<char>>, filename: Seq<char>, i: int) -> Option<Seq<char>>
    decreases ls.len() - i,
{
    if i < 0 || i >= ls.len() {
        None
    } else if line_sha(ls[i], filename) is Some {
        line_sha(ls[i], filename)
    } else {
        sha_from(ls, filename, i + 1)
    }
}

/// The published hash of a file.
pub open spec fn published_sha(body: Seq<char>, filename: Seq<char>) -> Option<Seq<char>> {
    sha_from(text::lines(body), filename, 0)
}

fn looks_like_sha(s: &[char]) -> (r: bool)
    ensures
        r == is_sha(s@),
{
    if s.len() != 64 {
        return false;
    }
    let mut i: usize = 0;
    while i < s.len()
        invariant
            i <= s@.len(),
            forall|j: int| 0 <= j < i ==> is_hex(#[trigger] s@[j]),
        decreases s@.len() - i,
    {
        let c: char = s[i];
        if !(('0' <= c && c <= '9') || ('a' <= c && c <= 'f') || ('A' <= c && c <= 'F')) {
            return false;
        }
        i += 1;
    }
    true
}

fn name_in(s: &[char]) -> (r: Vec<char>)
    ensures
        r@ == bare_name(s@),
{
    if s.len() > 0 && s[0] == '*' {
        let rest: &[char] = slice_subrange(s, 1, s.len());
        assert(rest@ =~= s@.drop_first());
        text::last_piece(rest, '/')
    } else {
        text::last_piece(s, '/')
    }
}

/// Whether a line `<hash>  <name>` is about the file.
pub fn lists(line: &[char], filename: &[char]) -> (r: bool)
    ensures
        r == (listed_name(line@) == filename@),
{
    text::same(&name_in(text::past_word(line)), filename)
}

fn tags(line: &[char], filename: &[char]) -> (r: bool)
    ensures
        r == (tagged_name(line@) == Some(filename@)),
{
    match text::up_to_last(line, '=') {
        Some(head) => {
            let open: Vec<char> = vec!['('];
            let bracket: &[char] = open.as_slice();
            assert(bracket@ =~= seq!['(']);
            if let Some(i) = text::position_from(&head, bracket, 0) {
                let n: usize = head.len();
                let rest: &[char] = slice_subrange(head.as_slice(), i + 1, n);
                assert(rest@ =~= head@.skip(i + 1));
                if let Some(name) = text::up_to_last(rest, ')') {
                    return text::same(&name_in(&name), filename);
                }
            }
            text::same(&name_in(text::trimmed(&head)), filename)
        },
        None => false,
    }
}

fn sha_of_line(line: &[char], filename: &[char]) -> (r: Option<Vec<char>>)
    ensures
        match r {
            Some(h) => line_sha(line@, filename@) == Some(h@),
            None => line_sha(line@, filename@) is None,
        },
{
    let w: Vec<Vec<char>> = text::words_of(line);
    assert(w@.len() > 0 ==> text::texts(w@)[0] == w@[0]@);
    if w.len() > 0 && looks_like_sha(&w[0]) {
        if lists(line, filename) {
            return Some(text::lowered(&w[0]));
        }
        return None;
    }
    let last: Vec<char> = text::last_piece(line, '=');
    let tail: &[char] = text::trimmed(&last);
    if looks_like_sha(tail) && tags(line, filename) {
        Some(text::lowered(tail))
    } else {
        None
    }
}

/// The hash that a checksum file publishes for a file, in small letters.
pub fn sha_from_sums(body: &str, filename: &str) -> (r: Option<String>)
    ensures
        text::text_opt(r) == published_sha(body@, filename@),
{
    let ls: Vec<Vec<char>> = text::lines_of(&text::chars_of(body));
    let name: Vec<char> = text::chars_of(filename);
    let ghost all = text::texts(ls@);
    let mut i: usize = 0;
    while i < ls.len()
        invariant
            i <= ls@.len(),
            name@ == filename@,
            all == text::texts(ls@),
            all == text::lines(body@),
            published_sha(body@, filename@) == sha_from(all, filename@, i as int),
        decreases ls@.len() - i,
    {
        assert(all[i as int] == ls@[i as int]@);
        if let Some(h) = sha_of_line(&ls[i], &name) {
            return Some(text::string_of(&h));
        }
        i += 1;
    }
    None
}

/// A SHA-256 in small hexadecimal letters.
pub open spec fn is_small_sha(s: Seq<char>) -> bool {
    s.len() == 64 && forall|i: int|
        0 <= i < s.len() ==> {
            ||| '0' <= #[trigger] s[i] && s[i] <= '9'
            ||| 'a' <= s[i] && s[i] <= 'f'
        }
}

proof fn lemma_sha_from(ls: Seq<Seq<char>>, filename: Seq<char>, i: int)
    requires
        0 <= i,
    ensures
        match sha_from(ls, filename, i) {
            Some(h) => is_small_sha(h) && exists|k: int|
                i <= k < ls.len() && names_file(#[trigger] ls[k], filename) && line_sha(
                    ls[k],
                    filename,
                ) == Some(h),
            None => forall|k: int| i <= k < ls.len() ==> line_sha(#[trigger] ls[k], filename) is None,
        },
    decreases ls.len() - i,
{
    if i < ls.len() {
        match line_sha(ls[i], filename) {
            Some(h) => {
                assert(names_file(ls[i], filename));
            },
            None => {
                lemma_sha_from(ls, filename, i + 1);
            },
        }
    }
}

/// A hash read from a checksum file is always one, 64 small hexadecimal digits, and it is what a line
/// gives that names this very file; none is read only when no line gives one for the file.
pub proof fn law_published_hash_is_a_hash(body: Seq<char>, filename: Seq<char>)
    ensures
        match published_sha(body, filename) {
            Some(h) => is_small_sha(h) && exists|k: int|
                0 <= k < text::lines(body).len() && names_file(
                    #[trigger] text::lines(body)[k],
                    filename,
                ) && line_sha(text::lines(body)[k], filename) == Some(h),
            None => forall|k: int|
                0 <= k < text::lines(body).len() ==> line_sha(
                    #[trigger] text::lines(body)[k],
                    filename,
                ) is None,
        },
{
    lemma_sha_from(text::lines(body), filename, 0);
}

// ---- the largest image of an archive item ---------------------------------------------------

/// What follows `"name":"` in the metadata of an archive item describes one file.
pub open spec fn archive_name(chunk: Seq<char>) -> Seq<char> {
    text::before_first(chunk, '"')
}

pub open spec fn archive_size(chunk: Seq<char>) -> u64 {
    let parts = text::split_on(chunk, "\"size\":\""@);
    if parts.len() > 1 {
        match text::parse_u64(text::before_first(parts[1], '"')) {
            Some(n) => n,
            None => 0,
        }
    } else {
        0
    }
}

pub open spec fn is_iso_name(name: Seq<char>) -> bool {
    text::ends_with(text::lower(name), ".iso"@)
}

/// The largest image among the described files, with its size; of equally large ones the first.
pub open spec fn largest_of(chunks: Seq<Seq<char>>) -> Option<(u64, Seq<char>)>
    decreases chunks.len(),
{
    if chunks.len() == 0 {
        None
    } else {
        let best = largest_of(chunks.drop_last());
        let name = archive_name(chunks.last());
        let size = archive_size(chunks.last());
        if !is_iso_name(name) {
            best
        } else {
            match best {
                Some(b) => if size > b.0 {
                    Some((size, name))
                } else {
                    best
                },
                None => Some((size, name)),
            }
        }
    }
}

/// The files that the metadata of an archive item describes.
pub open spec fn archive_chunks(meta: Seq<char>) -> Seq<Seq<char>> {
    text::split_on(meta, "{\"name\":\""@).drop_first()
}

/// The name of the largest image of an archive item.
pub open spec fn largest_name(meta: Seq<char>) -> Option<Seq<char>> {
    match largest_of(archive_chunks(meta)) {
        Some(b) => Some(text::replace(b.1, "\\/"@, "/"@)),
        None => None,
    }
}

fn size_of_chunk(chunk: &[char]) -> (r: u64)
    ensures
        r == archive_size(chunk@),
{
    proof {
        reveal_strlit("\"size\":\"");
    }
    let parts: Vec<Vec<char>> = text::pieces_str(chunk, "\"size\":\"");
    if parts.len() < 2 {
        return 0;
    }
    assert(text::texts(parts@)[1] == parts@[1]@);
    match text::number_u64(&text::first_piece(&parts[1], '"')) {
        Some(n) => n,
        None => 0,
    }
}

/// The name of the largest image of an archive.org item. Its metadata is JSON; we want the biggest
/// .iso in it and nothing else, so a scan for the two fields beats pulling in a parser.
pub fn largest_iso(meta: &str) -> (r: Option<String>)
    ensures
        text::text_opt(r) == largest_name(meta@),
{
    proof {
        reveal_strlit("{\"name\":\"");
        reveal_strlit("\\/");
    }
    let parts: Vec<Vec<char>> = text::pieces_str(&text::chars_of(meta), "{\"name\":\"");
    let ghost chunks = archive_chunks(meta@);
    let mut best: Option<(u64, Vec<char>)> = None;
    let mut i: usize = 1;
    assert(chunks.take(0) =~= seq![]);
    while i < parts.len()
        invariant
            1 <= i <= parts@.len(),
            chunks == text::texts(parts@).drop_first(),
            largest_of(chunks.take(i - 1)) == match best {
                Some(b) => Some((b.0, b.1@)),
                None => None,
            },
        decreases parts@.len() - i,
    {
        assert(chunks.take(i as int).drop_last() =~= chunks.take(i - 1));
        assert(chunks.take(i as int).last() == parts@[i as int]@);
        let name: Vec<char> = text::first_piece(&parts[i], '"');
        if text::ends(&text::lowered(&name), ".iso") {
            let size: u64 = size_of_chunk(&parts[i]);
            let larger: bool = match &best {
                Some(b) => size > b.0,
                None => true,
            };
            if larger {
                best = Some((size, name));
            }
        }
        i += 1;
    }
    assert(chunks.take(i - 1) =~= chunks);
    match best {
        Some(b) => {
            let pieces: Vec<Vec<char>> = text::pieces_str(&b.1, "\\/");
            Some(text::string_of(&text::joined(&pieces, "/")))
        },
        None => None,
    }
}

/// No image of an archive item is larger than the one that is picked, and one is picked whenever
/// there is one.
pub proof fn law_largest_image_wins(chunks: Seq<Seq<char>>)
    ensures
        match largest_of(chunks) {
            Some(b) => {
                &&& is_iso_name(b.1)
                &&& exists|i: int|
                    0 <= i < chunks.len() && archive_name(#[trigger] chunks[i]) == b.1
                        && archive_size(chunks[i]) == b.0
                &&& forall|i: int|
                    0 <= i < chunks.len() && is_iso_name(archive_name(#[trigger] chunks[i]))
                        ==> archive_size(chunks[i]) <= b.0
            },
            None => forall|i: int|
                0 <= i < chunks.len() ==> !is_iso_name(archive_name(#[trigger] chunks[i])),
        },
    decreases chunks.len(),
{
    if chunks.len() > 0 {
        let before = chunks.drop_last();
        law_largest_image_wins(before);
        let n = chunks.len() - 1;
        assert(forall|i: int| 0 <= i < n ==> before[i] == chunks[i]);
        let old_best = largest_of(before);
        match largest_of(chunks) {
            Some(b) => {
                if old_best == Some(b) {
                    let k = choose|k: int|
                        0 <= k < before.len() && archive_name(#[trigger] before[k]) == b.1
                            && archive_size(before[k]) == b.0;
                    assert(chunks[k] == before[k]);
                } else {
                    assert(archive_name(chunks[n]) == b.1 && archive_size(chunks[n]) == b.0);
                }
                assert forall|i: int|
                    0 <= i < chunks.len() && is_iso_name(
                        archive_name(#[trigger] chunks[i]),
                    ) implies archive_size(chunks[i]) <= b.0 by {
                    if i < n {
                        assert(before[i] == chunks[i]);
                    }
                }
            },
            None => {},
        }
    }
}

// ---- what is picked, in full ----------------------------------------------------------------

/// A web address leads where it says. Any other link leads into the directory: one slash stands between
/// the two, and what says "here" before the name is left out.
pub proof fn law_where_a_link_leads(dir: Seq<char>, link: Seq<char>)
    ensures
        text::starts_with(link, "http"@) ==> address(dir, link) == link,
        !text::starts_with(link, "http"@) && !text::starts_with(link, "./"@) ==> address(
            dir + seq!['/'],
            link,
        ) == dir + seq!['/'] + link,
        dir.len() == 0 || dir.last() != '/' ==> address(dir, link) == address(dir + seq!['/'], link),
        !text::starts_with(link, "http"@) ==> address(dir, seq!['.', '/'] + link) == address(dir, link),
{
    reveal_strlit("http");
    reveal_strlit("/");
    reveal_strlit("./");
    let d = dir + seq!['/'];
    assert("/"@ =~= seq!['/']);
    assert("./"@ =~= seq!['.', '/']);
    assert(d.subrange(d.len() - 1, d.len() as int) =~= "/"@);
    if text::ends_with(dir, "/"@) {
        assert(dir.subrange(dir.len() - 1, dir.len() as int)[0] == dir.last());
        assert("/"@[0] == '/');
    }
    let q = seq!['.', '/'] + link;
    if text::starts_with(q, "http"@) {
        assert(q.subrange(0, 4)[0] == q[0] && "http"@[0] == 'h');
    }
    assert(q.subrange(0, 2) =~= "./"@);
    assert(q.skip(2) =~= link);
}

/// The name has the beginning and the end that are asked for, no two dots in a row, and holds none of
/// the pieces that are to be left out.
pub open spec fn fits(
    name: Seq<char>,
    prefix: Seq<char>,
    suffix: Seq<char>,
    reject: Seq<char>,
) -> bool {
    &&& name.len() >= prefix.len() && name.take(prefix.len() as int) == prefix
    &&& name.len() >= suffix.len() && name.skip(name.len() - suffix.len()) == suffix
    &&& forall|i: int| 0 <= i && i + 1 < name.len() && #[trigger] name[i] == '.' ==> name[i + 1] != '.'
    &&& leaves_out(name, reject)
}

/// None of the pieces between the commas, white space around them aside, stands in the name; an empty
/// piece leaves nothing out.
pub open spec fn leaves_out(name: Seq<char>, reject: Seq<char>) -> bool {
    forall|i: int, k: int|
        0 <= i < text::split(reject, ',').len() && 0 <= k && text::trim(
            #[trigger] text::split(reject, ',')[i],
        ).len() > 0 ==> !#[trigger] text::occurs_at(name, text::trim(text::split(reject, ',')[i]), k)
}

proof fn lemma_leaves_out(name: Seq<char>, reject: Seq<char>)
    ensures
        leaves_out(name, reject) <==> !is_rejected(name, reject),
{
    let ps = text::split(reject, ',');
    if is_rejected(name, reject) {
        let i = choose|i: int| 0 <= i < ps.len() && rejected_by(name, reject, i);
        let r = text::trim(ps[i]);
        let k = choose|k: int| text::occurs_at(name, r, k);
        assert(text::occurs_at(name, text::trim(text::split(reject, ',')[i]), k));
    } else {
        assert forall|i: int, k: int|
            0 <= i < ps.len() && 0 <= k && text::trim(#[trigger] ps[i]).len()
                > 0 implies !#[trigger] text::occurs_at(name, text::trim(ps[i]), k) by {
            assert(!rejected_by(name, reject, i));
        }
    }
}

proof fn lemma_fits(name: Seq<char>, prefix: Seq<char>, suffix: Seq<char>, reject: Seq<char>)
    ensures
        fits(name, prefix, suffix, reject) <==> wanted(name, prefix, suffix, reject),
{
    reveal_strlit("..");
    lemma_leaves_out(name, reject);
    let n = name.len() as int;
    if n >= prefix.len() {
        assert(name.take(prefix.len() as int) =~= name.subrange(0, prefix.len() as int));
    }
    if n >= suffix.len() {
        assert(name.skip(n - suffix.len()) =~= name.subrange(n - suffix.len(), n));
    }
    if text::contains(name, ".."@) {
        let i = choose|i: int| text::occurs_at(name, ".."@, i);
        assert(name.subrange(i, i + 2)[0] == name[i] && name.subrange(i, i + 2)[1] == name[i + 1]);
        assert(name[i] == '.' && name[i + 1] == '.');
    } else {
        assert forall|i: int| 0 <= i && i + 1 < n && #[trigger] name[i] == '.' implies name[i + 1]
            != '.' by {
            if name[i + 1] == '.' {
                assert(name.subrange(i, i + 2) =~= ".."@);
                assert(text::occurs_at(name, ".."@, i));
            }
        }
    }
}

/// Link `k` is what is picked: it fits, nothing before it that fits is as new, and nothing after it that
/// fits is newer.
pub open spec fn is_picked(
    links: Seq<(Seq<char>, Seq<char>)>,
    prefix: Seq<char>,
    suffix: Seq<char>,
    reject: Seq<char>,
    k: int,
) -> bool {
    &&& 0 <= k < links.len()
    &&& fits(links[k].0, prefix, suffix, reject)
    &&& forall|i: int|
        0 <= i < k && fits((#[trigger] links[i]).0, prefix, suffix, reject) ==> net::natural(
            links[i].0,
            links[k].0,
        ) is Less
    &&& forall|i: int|
        k < i < links.len() && fits((#[trigger] links[i]).0, prefix, suffix, reject) ==> net::natural(
            links[i].0,
            links[k].0,
        ) !is Greater
}

/// What is picked is the newest link that fits, the first of those that are equally new, and nothing is
/// picked exactly when none fits.
pub proof fn law_the_first_of_the_newest_is_picked(
    links: Seq<(Seq<char>, Seq<char>)>,
    prefix: Seq<char>,
    suffix: Seq<char>,
    reject: Seq<char>,
)
    ensures
        match newest_of(links, prefix, suffix, reject) {
            Some(b) => exists|k: int|
                #[trigger] is_picked(links, prefix, suffix, reject, k) && links[k] == b,
            None => forall|i: int|
                0 <= i < links.len() ==> !fits((#[trigger] links[i]).0, prefix, suffix, reject),
        },
    decreases links.len(),
{
    if links.len() > 0 {
        let before = links.drop_last();
        let n = links.len() - 1;
        law_the_first_of_the_newest_is_picked(before, prefix, suffix, reject);
        lemma_fits(links[n].0, prefix, suffix, reject);
        assert(forall|i: int| 0 <= i < n ==> before[i] == links[i]);
        match newest_of(before, prefix, suffix, reject) {
            Some(o) => {
                let k = choose|k: int|
                    #[trigger] is_picked(before, prefix, suffix, reject, k) && before[k] == o;
                assert(before[k] == links[k]);
                if fits(links[n].0, prefix, suffix, reject) && net::natural(links[n].0, o.0)
                    is Greater {
                    net::law_natural_antisymmetric(links[n].0, o.0);
                    assert forall|i: int|
                        0 <= i < n && fits(
                            (#[trigger] links[i]).0,
                            prefix,
                            suffix,
                            reject,
                        ) implies net::natural(links[i].0, links[n].0) is Less by {
                        assert(before[i] == links[i]);
                        if i == k {
                        } else {
                            net::law_natural_transitive(links[i].0, o.0, links[n].0);
                        }
                    }
                    assert(is_picked(links, prefix, suffix, reject, n));
                } else {
                    assert forall|i: int|
                        0 <= i < k && fits(
                            (#[trigger] links[i]).0,
                            prefix,
                            suffix,
                            reject,
                        ) implies net::natural(links[i].0, links[k].0) is Less by {
                        assert(before[i] == links[i]);
                    }
                    assert forall|i: int|
                        k < i < links.len() && fits(
                            (#[trigger] links[i]).0,
                            prefix,
                            suffix,
                            reject,
                        ) implies net::natural(links[i].0, links[k].0) !is Greater by {
                        if i < n {
                            assert(before[i] == links[i]);
                        }
                    }
                    assert(is_picked(links, prefix, suffix, reject, k));
                }
            },
            None => {
                assert forall|i: int| 0 <= i < n implies !fits(
                    (#[trigger] links[i]).0,
                    prefix,
                    suffix,
                    reject,
                ) by {
                    assert(before[i] == links[i]);
                }
                if fits(links[n].0, prefix, suffix, reject) {
                    assert(is_picked(links, prefix, suffix, reject, n));
                }
            },
        }
    }
}

/// Directory `d` is versioned and fits: its link goes down from here and ends in a slash, it has the
/// beginning that is asked for, a digit in it, and holds none of the pieces that are to be left out.
pub open spec fn fits_dir(link: Seq<char>, d: Seq<char>, prefix: Seq<char>, reject: Seq<char>) -> bool {
    &&& link.len() > d.len() > 0
    &&& link.take(d.len() as int) == d
    &&& d.last() != '/'
    &&& forall|i: int| d.len() <= i < link.len() ==> #[trigger] link[i] == '/'
    &&& !text::starts_with(link, "http"@)
    &&& link[0] != '/'
    &&& link[0] != '?'
    &&& !(link[0] == '.' && link[1] == '.')
    &&& d.len() >= prefix.len() && d.take(prefix.len() as int) == prefix
    &&& leaves_out(d, reject)
    &&& exists|i: int| 0 <= i < d.len() && '0' <= #[trigger] d[i] && d[i] <= '9'
}

proof fn lemma_dir_name(h: Seq<char>)
    ensures
        dir_name(h).len() <= h.len(),
        h.take(dir_name(h).len() as int) == dir_name(h),
        dir_name(h).len() > 0 ==> dir_name(h).last() != '/',
        forall|i: int| dir_name(h).len() <= i < h.len() ==> #[trigger] h[i] == '/',
    decreases h.len(),
{
    if h.len() > 0 && h.last() == '/' {
        lemma_dir_name(h.drop_last());
        let d = dir_name(h);
        assert(h.take(d.len() as int) =~= h.drop_last().take(d.len() as int));
        assert forall|i: int| d.len() <= i < h.len() implies #[trigger] h[i] == '/' by {
            if i < h.len() - 1 {
                assert(h.drop_last()[i] == h[i]);
            }
        }
    } else {
        assert(h.take(h.len() as int) =~= h);
    }
}

proof fn lemma_fits_dir(h: Seq<char>, prefix: Seq<char>, reject: Seq<char>)
    ensures
        wanted_dir(h, prefix, reject) <==> fits_dir(h, dir_name(h), prefix, reject),
{
    reveal_strlit("/");
    reveal_strlit("?");
    reveal_strlit("..");
    let d = dir_name(h);
    lemma_dir_name(h);
    lemma_leaves_out(d, reject);
    if d.len() >= prefix.len() {
        assert(d.take(prefix.len() as int) =~= d.subrange(0, prefix.len() as int));
    }
    if d.len() > 0 {
        assert(h.take(d.len() as int)[d.len() - 1] == h[d.len() - 1]);
        if h[0] == '/' {
            assert(h.subrange(0, 1) =~= "/"@);
        }
        if text::starts_with(h, "/"@) {
            assert(h.subrange(0, 1)[0] == h[0] && "/"@[0] == '/');
        }
        if h[0] == '?' {
            assert(h.subrange(0, 1) =~= "?"@);
        }
        if text::starts_with(h, "?"@) {
            assert(h.subrange(0, 1)[0] == h[0] && "?"@[0] == '?');
        }
        if h.len() > 1 && h[0] == '.' && h[1] == '.' {
            assert(h.subrange(0, 2) =~= ".."@);
        }
        if text::starts_with(h, ".."@) {
            assert(h.subrange(0, 2)[0] == h[0] && h.subrange(0, 2)[1] == h[1]);
            assert(".."@[0] == '.' && ".."@[1] == '.');
        }
        if text::ends_with(h, "/"@) {
            assert(h.subrange(h.len() - 1, h.len() as int)[0] == h.last() && "/"@[0] == '/');
        }
        if h.last() == '/' {
            assert(h.subrange(h.len() - 1, h.len() as int) =~= "/"@);
        }
        if has_digit(d) {
            let i = choose|i: int| 0 <= i < d.len() && text::is_digit(#[trigger] d[i]);
            assert('0' <= d[i] && d[i] <= '9');
        }
        if exists|i: int| 0 <= i < d.len() && '0' <= #[trigger] d[i] && d[i] <= '9' {
            let i = choose|i: int| 0 <= i < d.len() && '0' <= #[trigger] d[i] && d[i] <= '9';
            assert(text::is_digit(d[i]));
        }
    }
}

/// The directory that is picked is one that a link of the page leads down to and that fits, and no other
/// such directory is newer; none is picked exactly when none fits.
pub proof fn law_the_newest_directory_is_picked(hs: Seq<Seq<char>>, prefix: Seq<char>, reject: Seq<char>)
    ensures
        match newest_dir_of(hs, prefix, reject) {
            Some(b) => {
                &&& exists|i: int| 0 <= i < hs.len() && fits_dir(#[trigger] hs[i], b, prefix, reject)
                &&& forall|i: int, d: Seq<char>|
                    0 <= i < hs.len() && #[trigger] fits_dir(hs[i], d, prefix, reject)
                        ==> net::natural(d, b) !is Greater
            },
            None => forall|i: int, d: Seq<char>|
                0 <= i < hs.len() ==> !#[trigger] fits_dir(hs[i], d, prefix, reject),
        },
{
    law_newest_dir_is_the_newest(hs, prefix, reject);
    assert forall|i: int, d: Seq<char>|
        0 <= i < hs.len() && #[trigger] fits_dir(hs[i], d, prefix, reject) implies d == dir_name(hs[i])
        && wanted_dir(hs[i], prefix, reject) by {
        let h = hs[i];
        let e = dir_name(h);
        lemma_dir_name(h);
        assert(h.take(d.len() as int)[d.len() - 1] == h[d.len() - 1]);
        if e.len() < d.len() {
            assert(h[d.len() - 1] == '/');
        } else if e.len() > d.len() {
            assert(h.take(e.len() as int)[e.len() - 1] == h[e.len() - 1]);
        }
        assert(e == d);
        lemma_fits_dir(h, prefix, reject);
    }
    if let Some(b) = newest_dir_of(hs, prefix, reject) {
        let i = choose|i: int|
            0 <= i < hs.len() && wanted_dir(#[trigger] hs[i], prefix, reject) && dir_name(hs[i]) == b;
        lemma_fits_dir(hs[i], prefix, reject);
    }
}

/// 64 hexadecimal digits.
pub open spec fn is_hash(h: Seq<char>) -> bool {
    &&& h.len() == 64
    &&& forall|i: int|
        0 <= i < 64 ==> ('0' <= #[trigger] h[i] && h[i] <= '9') || ('a' <= h[i] && h[i] <= 'f') || ('A'
            <= h[i] && h[i] <= 'F')
}

/// A name as it stands in a checksum file: no white space at its ends, no mark, no directory.
pub open spec fn plain_name(f: Seq<char>) -> bool {
    &&& f.len() > 0
    &&& !text::is_space(f[0]) && !text::is_space(f.last())
    &&& f[0] != '*'
    &&& text::lacks(f, '/')
}

/// A line that gives a hash and then a name is about the file of that name and no other, whether or not
/// it is marked as binary and whatever directory stands before it.
pub proof fn law_a_hash_stands_before_its_name(
    h: Seq<char>,
    b: Seq<char>,
    dir: Seq<char>,
    f: Seq<char>,
    other: Seq<char>,
)
    requires
        is_hash(h),
        text::blank(b) && b.len() > 0,
        plain_name(f),
        dir.len() > 0 && !text::is_space(dir[0]) && dir[0] != '*',
    ensures
        line_sha(h + b + f, f) == Some(text::lower(h)),
        line_sha(h + b + (seq!['*'] + f), f) == Some(text::lower(h)),
        line_sha(h + b + (dir + seq!['/'] + f), f) == Some(text::lower(h)),
        other != f ==> line_sha(h + b + f, other) is None,
        other != f ==> line_sha(h + b + (dir + seq!['/'] + f), other) is None,
{
    assert forall|i: int| 0 <= i < h.len() implies !text::is_space(#[trigger] h[i]) && is_hex(h[i]) by {
        text::law_what_white_space_is(h[i]);
    }
    let g = seq!['*'] + f;
    let e = dir + seq!['/'] + f;
    text::law_the_first_word_comes_first(h, b, f);
    text::law_the_first_word_comes_first(h, b, g);
    text::law_the_first_word_comes_first(h, b, e);
    text::law_what_white_space_is('*');
    assert(g[0] == '*' && g.last() == f.last());
    assert(e[0] == dir[0] && e.last() == f.last());
    text::law_a_trimmed_text_stays(f);
    text::law_a_trimmed_text_stays(g);
    text::law_a_trimmed_text_stays(e);
    assert(g.drop_first() =~= f);
    text::law_the_last_piece_comes_last(dir, '/', f);
    assert(text::words(h + b + f)[0] == h);
    assert(text::words(h + b + g)[0] == h);
    assert(text::words(h + b + e)[0] == h);
}

proof fn lemma_bracket(pre: Seq<char>, rest: Seq<char>)
    requires
        text::lacks(pre, '('),
    ensures
        text::find(pre + seq!['('] + rest, seq!['(']) == Some(pre.len() as int),
{
    let p = seq!['('];
    let s = pre + p + rest;
    let n = pre.len() as int;
    text::lemma_find_from(s, p, 0);
    assert(s.subrange(n, n + 1) =~= p);
    assert(text::occurs_at(s, p, n));
    assert forall|j: int| 0 <= j < n implies !text::occurs_at(s, p, j) by {
        assert(s.subrange(j, j + 1)[0] == s[j]);
        assert(s[j] == pre[j]);
        assert(p[0] == '(');
    }
}

proof fn lemma_tagged(pre: Seq<char>, f: Seq<char>, tail: Seq<char>)
    requires
        text::lacks(pre, '('),
        plain_name(f),
        text::lacks(tail, '='),
    ensures
        ({
            let head = pre + seq!['('] + (f + seq![')'] + seq![' ']);
            &&& tagged_name(head + seq!['='] + tail) == Some(f)
            &&& text::after_last(head + seq!['='] + tail, '=') == tail
        }),
{
    let inner = f + seq![')'] + seq![' '];
    let head = pre + seq!['('] + inner;
    text::law_the_last_piece_comes_last(head, '=', tail);
    lemma_bracket(pre, inner);
    assert(head.skip(pre.len() as int + 1) =~= inner);
    assert(text::lacks(seq![' '], ')'));
    text::law_the_last_piece_comes_last(f, ')', seq![' ']);
    text::law_the_last_piece_comes_last(Seq::empty(), '/', f);
}

proof fn lemma_hash_trims(h: Seq<char>)
    requires
        is_hash(h),
    ensures
        is_sha(h),
        text::trim(seq![' '] + h) == h,
        text::lacks(seq![' '] + h, '='),
{
    let tail = seq![' '] + h;
    let none = Seq::<char>::empty();
    assert forall|i: int| 0 <= i < h.len() implies !text::is_space(#[trigger] h[i]) && is_hex(h[i])
        && h[i] != '=' by {
        text::law_what_white_space_is(h[i]);
    }
    assert(text::blank(seq![' '])) by {
        text::law_what_white_space_is(' ');
    }
    text::law_white_space_around_is_ignored(seq![' '], h, none);
    assert(seq![' '] + h + none =~= tail);
    text::law_a_trimmed_text_stays(h);
    assert forall|i: int| 0 <= i < tail.len() implies #[trigger] tail[i] != '=' by {
        if i > 0 {
            assert(tail[i] == h[i - 1]);
        }
    }
}

/// A line of the other kind, with the name in brackets after a word and the hash after an equals sign, is
/// about the file of that name and no other.
pub proof fn law_a_tagged_hash_follows_its_name(
    tag: Seq<char>,
    h: Seq<char>,
    f: Seq<char>,
    other: Seq<char>,
)
    requires
        is_hash(h),
        plain_name(f),
        0 < tag.len() < 64,
        text::lacks(tag, '('),
        forall|i: int| 0 <= i < tag.len() ==> !text::is_space(#[trigger] tag[i]),
    ensures
        ({
            let line = tag + seq![' '] + seq!['('] + f + seq![')', ' ', '=', ' '] + h;
            &&& line_sha(line, f) == Some(text::lower(h))
            &&& other != f ==> line_sha(line, other) is None
        }),
{
    let line = tag + seq![' '] + seq!['('] + f + seq![')', ' ', '=', ' '] + h;
    let tail = seq![' '] + h;
    let pre = tag + seq![' '];
    let head = pre + seq!['('] + (f + seq![')'] + seq![' ']);
    assert(line =~= head + seq!['='] + tail);
    assert forall|i: int| 0 <= i < pre.len() implies #[trigger] pre[i] != '(' by {
        if i < tag.len() {
            assert(pre[i] == tag[i]);
        }
    }
    lemma_hash_trims(h);
    lemma_tagged(pre, f, tail);
    let rest = seq!['('] + f + seq![')', ' ', '=', ' '] + h;
    assert(line =~= tag + seq![' '] + rest);
    assert(text::blank(seq![' '])) by {
        text::law_what_white_space_is(' ');
    }
    text::law_the_first_word_comes_first(tag, seq![' '], rest);
    assert(text::words(line)[0] == tag);
}

proof fn lemma_first_sha(ls: Seq<Seq<char>>, filename: Seq<char>, i: int, k: int)
    requires
        0 <= i <= k < ls.len(),
        forall|j: int| i <= j < k ==> line_sha(#[trigger] ls[j], filename) is None,
    ensures
        line_sha(ls[k], filename) is Some ==> sha_from(ls, filename, i) == line_sha(ls[k], filename),
    decreases k - i,
{
    if i < k {
        lemma_first_sha(ls, filename, i + 1, k);
    }
}

/// In a file of hashes and names, each file has the hash on the line with its name, the first of them
/// where there are several, and a file without a line has none.
pub proof fn law_each_file_has_its_own_hash(
    body: Seq<char>,
    hashes: Seq<Seq<char>>,
    names: Seq<Seq<char>>,
    k: int,
    other: Seq<char>,
)
    requires
        hashes.len() == names.len() == text::lines(body).len(),
        forall|i: int|
            0 <= i < names.len() ==> plain_name(#[trigger] names[i]) && is_hash(hashes[i])
                && text::lines(body)[i] == hashes[i] + seq![' ', ' '] + names[i],
        0 <= k < names.len(),
        forall|i: int| 0 <= i < k ==> #[trigger] names[i] != names[k],
        forall|i: int| 0 <= i < names.len() ==> #[trigger] names[i] != other,
    ensures
        published_sha(body, names[k]) == Some(text::lower(hashes[k])),
        published_sha(body, other) is None,
{
    let ls = text::lines(body);
    let b = seq![' ', ' '];
    assert(text::blank(b)) by {
        text::law_what_white_space_is(' ');
    }
    assert forall|i: int, f: Seq<char>| 0 <= i < names.len() implies #[trigger] line_sha(ls[i], f)
        == if f == names[i] {
        Some(text::lower(hashes[i]))
    } else {
        None
    } by {
        assert(plain_name(names[i]));
        text::law_what_white_space_is('d');
        law_a_hash_stands_before_its_name(hashes[i], b, seq!['d'], names[i], f);
    }
    assert forall|i: int| 0 <= i < k implies line_sha(#[trigger] ls[i], names[k]) is None by {
        assert(names[i] != names[k]);
    }
    assert(line_sha(ls[k], names[k]) == Some(text::lower(hashes[k])));
    lemma_first_sha(ls, names[k], 0, k);
    lemma_sha_from(ls, other, 0);
    if published_sha(body, other) is Some {
        let i = choose|i: int|
            0 <= i < ls.len() && names_file(#[trigger] ls[i], other) && line_sha(ls[i], other)
                == published_sha(body, other);
        assert(names[i] != other);
        assert(line_sha(ls[i], other) is None);
    }
}

/// The name of a file stands before the first quote of its description, and its size in the quotes after
/// `"size":"`; a file that says nothing of its size counts as empty.
pub proof fn law_how_a_file_is_described(
    name: Seq<char>,
    mid: Seq<char>,
    n: u64,
    after: Seq<char>,
)
    requires
        text::lacks(name, '"'),
        forall|j: int|
            0 <= j < mid.len() ==> !text::occurs_at(
                mid + "\"size\":\""@ + (text::decimal(n as nat) + seq!['"'] + after),
                "\"size\":\""@,
                j,
            ),
    ensures
        archive_name(name + seq!['"'] + after) == name,
        archive_size(mid + "\"size\":\""@ + (text::decimal(n as nat) + seq!['"'] + after)) == n,
        !text::contains(mid, "\"size\":\""@) ==> archive_size(mid) == 0,
{
    reveal_strlit("\"size\":\"");
    let key = "\"size\":\""@;
    let d = text::decimal(n as nat);
    let rest = d + seq!['"'] + after;
    text::law_the_first_piece_comes_first(name, '"', after);
    text::law_a_text_is_cut_at_its_separator(mid, key, rest);
    text::lemma_split_len(rest, key);
    assert(text::split_on(mid + key + rest, key)[1] == text::split_on(rest, key)[0]);
    text::lemma_digits_alone(n as nat, '"');
    text::lemma_find_from(rest, key, 0);
    text::law_the_first_piece_comes_first(d, '"', after);
    if let Some(p) = text::find(rest, key) {
        assert(rest.subrange(p, p + key.len())[0] == rest[p]);
        assert(key[0] == '"');
        assert(p >= d.len()) by {
            if p < d.len() {
                assert(rest[p] == d[p]);
            }
        }
        let first = rest.take(p);
        assert(text::split_on(rest, key)[0] == first);
        if p == d.len() {
            assert(first =~= d);
        } else {
            let more = first.skip(d.len() as int + 1);
            assert(first =~= d + seq!['"'] + more);
            text::law_the_first_piece_comes_first(d, '"', more);
        }
    }
    text::lemma_parse_decimal(n);
    if !text::contains(mid, key) {
        text::law_a_text_without_separator_stays(mid, key);
    }
}

/// A file takes the place of the largest image so far exactly when its name ends in `.iso`, in capitals or
/// not, and it is larger.
pub proof fn law_a_larger_image_takes_its_place(chunks: Seq<Seq<char>>, x: Seq<char>)
    ensures
        ({
            let low = text::lower(archive_name(x));
            let image = low.len() >= 4 && low.skip(low.len() - 4) == seq!['.', 'i', 's', 'o'];
            let best = largest_of(chunks);
            &&& image && (best is None || archive_size(x) > (best->0).0) ==> largest_of(chunks.push(x))
                == Some((archive_size(x), archive_name(x)))
            &&& !image || (best is Some && archive_size(x) <= (best->0).0) ==> largest_of(chunks.push(x))
                == best
        }),
        largest_of(Seq::empty()) is None,
{
    reveal_strlit(".iso");
    let low = text::lower(archive_name(x));
    assert(chunks.push(x).drop_last() =~= chunks);
    assert(".iso"@ =~= seq!['.', 'i', 's', 'o']);
    if low.len() >= 4 {
        assert(low.skip(low.len() - 4) =~= low.subrange(low.len() - 4, low.len() as int));
    }
}

/// The name of the image of an item is that of its largest image, with its slashes read where they are
/// written otherwise; the files of an item stand one after the other, each after `{"name":"`.
pub proof fn law_the_largest_image_is_named(
    before: Seq<char>,
    file: Seq<char>,
    meta: Seq<char>,
    a: Seq<char>,
    b: Seq<char>,
)
    requires
        forall|j: int|
            0 <= j < before.len() ==> !text::occurs_at(
                before + "{\"name\":\""@ + file,
                "{\"name\":\""@,
                j,
            ),
    ensures
        archive_chunks(before + "{\"name\":\""@ + file) == text::split_on(file, "{\"name\":\""@),
        largest_name(meta) is Some <==> largest_of(archive_chunks(meta)) is Some,
        largest_of(archive_chunks(meta)) is Some ==> {
            let name = (largest_of(archive_chunks(meta))->0).1;
            &&& text::lacks(name, '\\') ==> largest_name(meta) == Some(name)
            &&& name == a + seq!['\\', '/'] + b && text::lacks(a, '\\') && text::lacks(b, '\\')
                ==> largest_name(meta) == Some(a + seq!['/'] + b)
        },
{
    reveal_strlit("{\"name\":\"");
    reveal_strlit("\\/");
    reveal_strlit("/");
    let key = "{\"name\":\""@;
    text::law_a_text_is_cut_at_its_separator(before, key, file);
    assert((seq![before] + text::split_on(file, key)).drop_first() =~= text::split_on(file, key));
    let slash = "\\/"@;
    assert(slash =~= seq!['\\', '/']);
    assert("/"@ =~= seq!['/']);
    if let Some(best) = largest_of(archive_chunks(meta)) {
        let name = best.1;
        if text::lacks(name, '\\') {
            lemma_no_backslash(name);
            text::law_nothing_else_is_replaced(name, slash, "/"@);
        }
        if name == a + seq!['\\', '/'] + b && text::lacks(a, '\\') && text::lacks(b, '\\') {
            lemma_no_backslash(b);
            assert forall|j: int| 0 <= j < a.len() implies !text::occurs_at(a + slash + b, slash, j) by {
                let s = a + slash + b;
                if text::occurs_at(s, slash, j) {
                    assert(s.subrange(j, j + 2)[0] == s[j] && s[j] == a[j] && slash[0] == '\\');
                }
            }
            text::law_every_occurrence_is_replaced(a, slash, "/"@, b);
            text::law_nothing_else_is_replaced(b, slash, "/"@);
        }
    }
}

proof fn lemma_no_backslash(s: Seq<char>)
    requires
        text::lacks(s, '\\'),
    ensures
        !text::contains(s, "\\/"@),
{
    reveal_strlit("\\/");
    if text::contains(s, "\\/"@) {
        let i = choose|i: int| text::occurs_at(s, "\\/"@, i);
        assert(s.subrange(i, i + 2)[0] == s[i] && "\\/"@[0] == '\\');
    }
}

} // verus!
