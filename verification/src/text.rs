//! Text as a sequence of characters: the searching, splitting and trimming that every parser in
//! this crate is built from, each stated over `Seq<char>`.

use vstd::prelude::*;
use vstd::slice::slice_subrange;

verus! {

// ---- between strings and characters -------------------------------------------------------

/// `String::push` adds one character at the end of the string.
pub assume_specification[ String::push ](s: &mut String, c: char)
    ensures
        final(s)@ == old(s)@.push(c),
;

/// The characters of a string slice.
pub fn chars_of(s: &str) -> (r: Vec<char>)
    ensures
        r@ == s@,
{
    let mut out: Vec<char> = Vec::new();
    for c in it: s.chars()
        invariant
            out@ =~= s@.take(it.index()),
            it.seq() == s@,
    {
        out.push(c);
    }
    out
}

/// A string made of the given characters.
pub fn string_of(s: &[char]) -> (r: String)
    ensures
        r@ == s@,
{
    let mut out: String = String::new();
    let mut i: usize = 0;
    while i < s.len()
        invariant
            i <= s@.len(),
            out@ =~= s@.take(i as int),
        decreases s@.len() - i,
    {
        out.push(s[i]);
        i += 1;
    }
    out
}

/// Whether two runs of characters are the same.
pub fn same(a: &[char], b: &[char]) -> (r: bool)
    ensures
        r == (a@ == b@),
{
    if a.len() != b.len() {
        return false;
    }
    let mut i: usize = 0;
    while i < a.len()
        invariant
            i <= a@.len(),
            a@.len() == b@.len(),
            a@.take(i as int) =~= b@.take(i as int),
        decreases a@.len() - i,
    {
        if a[i] != b[i] {
            return false;
        }
        i += 1;
    }
    assert(a@.take(i as int) =~= a@);
    assert(b@.take(i as int) =~= b@);
    true
}


/// Whether the characters are those of the string slice.
pub fn same_str(a: &[char], b: &str) -> (r: bool)
    ensures
        r == (a@ == b@),
{
    let b: Vec<char> = chars_of(b);
    same(a, &b)
}

/// Adds the characters at the end of the string.
pub fn push_all(out: &mut String, s: &[char])
    ensures
        final(out)@ == old(out)@ + s@,
{
    let ghost before = out@;
    let mut i: usize = 0;
    while i < s.len()
        invariant
            i <= s@.len(),
            out@ =~= before + s@.take(i as int),
        decreases s@.len() - i,
    {
        out.push(s[i]);
        i += 1;
    }
    assert(s@.take(i as int) =~= s@);
}

/// The contents of each run of characters.
pub open spec fn texts(v: Seq<Vec<char>>) -> Seq<Seq<char>> {
    Seq::new(v.len(), |i: int| v[i]@)
}

/// The contents of each string.
pub open spec fn strings(v: Seq<String>) -> Seq<Seq<char>> {
    Seq::new(v.len(), |i: int| v[i]@)
}

/// The contents of an optional string.
pub open spec fn text_opt(s: Option<String>) -> Option<Seq<char>> {
    match s {
        Some(t) => Some(t@),
        None => None,
    }
}

/// The contents of a result of strings.
pub open spec fn text_result(r: Result<String, String>) -> Result<Seq<char>, Seq<char>> {
    match r {
        Ok(t) => Ok(t@),
        Err(e) => Err(e@),
    }
}

/// A copy of the characters.
pub fn copy_of(s: &[char]) -> (r: Vec<char>)
    ensures
        r@ == s@,
{
    let mut out: Vec<char> = Vec::new();
    let mut i: usize = 0;
    while i < s.len()
        invariant
            i <= s@.len(),
            out@ =~= s@.take(i as int),
        decreases s@.len() - i,
    {
        out.push(s[i]);
        i += 1;
    }
    assert(s@.take(i as int) =~= s@);
    out
}

/// The strings with the given characters.
pub fn strings_of(v: &Vec<Vec<char>>) -> (r: Vec<String>)
    ensures
        strings(r@) == texts(v@),
{
    let mut out: Vec<String> = Vec::new();
    let mut i: usize = 0;
    while i < v.len()
        invariant
            i <= v@.len(),
            strings(out@) =~= texts(v@).take(i as int),
        decreases v@.len() - i,
    {
        let ghost before = strings(out@);
        let s: String = string_of(&v[i]);
        out.push(s);
        assert(strings(out@) =~= before.push(v@[i as int]@));
        i += 1;
    }
    assert(texts(v@).take(i as int) =~= texts(v@));
    out
}

// ---- searching ------------------------------------------------------------------------------

/// `p` stands in `s` at position `i`.
pub open spec fn occurs_at(s: Seq<char>, p: Seq<char>, i: int) -> bool {
    0 <= i && i + p.len() <= s.len() && s.subrange(i, i + p.len()) == p
}

/// `p` stands somewhere in `s`.
pub open spec fn contains(s: Seq<char>, p: Seq<char>) -> bool {
    exists|i: int| occurs_at(s, p, i)
}

pub open spec fn starts_with(s: Seq<char>, p: Seq<char>) -> bool {
    occurs_at(s, p, 0)
}

pub open spec fn ends_with(s: Seq<char>, p: Seq<char>) -> bool {
    occurs_at(s, p, s.len() - p.len())
}

/// The first position, from `from` on, where `p` stands in `s`.
pub open spec fn find_from(s: Seq<char>, p: Seq<char>, from: int) -> Option<int>
    decreases s.len() + 1 - from,
{
    if from < 0 || from + p.len() > s.len() {
        None
    } else if occurs_at(s, p, from) {
        Some(from)
    } else {
        find_from(s, p, from + 1)
    }
}

pub open spec fn find(s: Seq<char>, p: Seq<char>) -> Option<int> {
    find_from(s, p, 0)
}

/// What [`find_from`] gives is the least position at or after `from` where `p` stands.
pub proof fn lemma_find_from(s: Seq<char>, p: Seq<char>, from: int)
    requires
        0 <= from,
    ensures
        match find_from(s, p, from) {
            Some(i) => from <= i && occurs_at(s, p, i) && forall|j: int|
                from <= j < i ==> !occurs_at(s, p, j),
            None => forall|j: int| from <= j ==> !occurs_at(s, p, j),
        },
    decreases s.len() + 1 - from,
{
    if from + p.len() <= s.len() && !occurs_at(s, p, from) {
        lemma_find_from(s, p, from + 1);
    }
}

/// A text holds `p` exactly when searching for `p` finds it.
pub proof fn lemma_contains_find(s: Seq<char>, p: Seq<char>)
    ensures
        contains(s, p) <==> find(s, p) is Some,
{
    lemma_find_from(s, p, 0);
}

pub fn at(s: &[char], p: &[char], i: usize) -> (r: bool)
    ensures
        r == occurs_at(s@, p@, i as int),
{
    if i > s.len() || p.len() > s.len() - i {
        return false;
    }
    same(slice_subrange(s, i, i + p.len()), p)
}

pub fn begins(s: &[char], p: &str) -> (r: bool)
    ensures
        r == starts_with(s@, p@),
{
    let p: Vec<char> = chars_of(p);
    at(s, &p, 0)
}

pub fn ends(s: &[char], p: &str) -> (r: bool)
    ensures
        r == ends_with(s@, p@),
{
    let p: Vec<char> = chars_of(p);
    if p.len() > s.len() {
        return false;
    }
    at(s, &p, s.len() - p.len())
}

pub fn position_from(s: &[char], p: &[char], from: usize) -> (r: Option<usize>)
    ensures
        match r {
            Some(i) => find_from(s@, p@, from as int) == Some(i as int),
            None => find_from(s@, p@, from as int) is None,
        },
        r matches Some(i) ==> from <= i && i + p@.len() <= s@.len(),
{
    let mut i: usize = from;
    while i <= s.len() && p.len() <= s.len() - i
        invariant
            from <= i,
            find_from(s@, p@, from as int) == find_from(s@, p@, i as int),
        decreases s@.len() + 1 - i,
    {
        if at(s, p, i) {
            return Some(i);
        }
        if i == s.len() {
            assert(find_from(s@, p@, i + 1) is None);
            return None;
        }
        i += 1;
    }
    None
}

pub fn holds(s: &[char], p: &[char]) -> (r: bool)
    ensures
        r == contains(s@, p@),
{
    proof {
        lemma_contains_find(s@, p@);
    }
    position_from(s, p, 0).is_some()
}


// ---- splitting and joining ------------------------------------------------------------------

/// The pieces between the places where `p` stands, found from left to right.
pub open spec fn split_on(s: Seq<char>, p: Seq<char>) -> Seq<Seq<char>>
    decreases s.len(),
{
    match find(s, p) {
        Some(i) => if p.len() > 0 && 0 <= i && i + p.len() <= s.len() {
            seq![s.take(i)] + split_on(s.skip(i + p.len()), p)
        } else {
            seq![s]
        },
        None => seq![s],
    }
}

/// The pieces between the places where the character `c` stands.
pub open spec fn split(s: Seq<char>, c: char) -> Seq<Seq<char>> {
    split_on(s, seq![c])
}

/// The pieces with `sep` between each two of them.
pub open spec fn join(parts: Seq<Seq<char>>, sep: Seq<char>) -> Seq<char>
    decreases parts.len(),
{
    if parts.len() == 0 {
        seq![]
    } else if parts.len() == 1 {
        parts[0]
    } else {
        join(parts.drop_last(), sep) + sep + parts.last()
    }
}

/// `s` with every `p` in it replaced by `r`.
pub open spec fn replace(s: Seq<char>, p: Seq<char>, r: Seq<char>) -> Seq<char> {
    join(split_on(s, p), r)
}

/// What stands before and after the first `c`.
pub open spec fn split_once(s: Seq<char>, c: char) -> Option<(Seq<char>, Seq<char>)> {
    match find(s, seq![c]) {
        Some(i) => Some((s.take(i), s.skip(i + 1))),
        None => None,
    }
}

/// What stands before the first `c`, or all of it.
pub open spec fn before_first(s: Seq<char>, c: char) -> Seq<char> {
    split(s, c)[0]
}

/// What stands after the last `c`, or all of it.
pub open spec fn after_last(s: Seq<char>, c: char) -> Seq<char> {
    split(s, c).last()
}

/// What stands before the last `c`, when there is one.
pub open spec fn before_last(s: Seq<char>, c: char) -> Option<Seq<char>> {
    if split(s, c).len() > 1 {
        Some(s.take(s.len() - 1 - after_last(s, c).len()))
    } else {
        None
    }
}

/// Splitting gives at least one piece, and the last of several has a separator before it.
pub proof fn lemma_split_len(s: Seq<char>, p: Seq<char>)
    requires
        p.len() > 0,
    ensures
        split_on(s, p).len() >= 1,
        split_on(s, p).last().len() <= s.len(),
        split_on(s, p).len() > 1 ==> split_on(s, p).last().len() + p.len() <= s.len(),
    decreases s.len(),
{
    lemma_find_from(s, p, 0);
    if let Some(i) = find(s, p) {
        let rest = split_on(s.skip(i + p.len()), p);
        lemma_split_len(s.skip(i + p.len()), p);
        assert(split_on(s, p) == seq![s.take(i)] + rest);
        assert(split_on(s, p).last() == rest.last());
    }
}

/// The character `c` does not stand in `s`.
pub open spec fn lacks(s: Seq<char>, c: char) -> bool {
    forall|i: int| 0 <= i < s.len() ==> #[trigger] s[i] != c
}

proof fn lemma_char_occurs(s: Seq<char>, c: char, i: int)
    ensures
        occurs_at(s, seq![c], i) <==> 0 <= i < s.len() && s[i] == c,
{
    if 0 <= i < s.len() {
        assert(s.subrange(i, i + 1) =~= seq![s[i]]);
        assert(seq![s[i]][0] == s[i]);
        assert(seq![c][0] == c);
    }
}

/// A text without the separator is one piece.
pub proof fn lemma_split_none(s: Seq<char>, c: char)
    requires
        lacks(s, c),
    ensures
        split(s, c) == seq![s],
{
    lemma_find_from(s, seq![c], 0);
    if let Some(i) = find(s, seq![c]) {
        lemma_char_occurs(s, c, i);
    }
}

/// A separator and a text without it add that text as a piece.
pub proof fn lemma_split_tail(a: Seq<char>, c: char, b: Seq<char>)
    requires
        lacks(b, c),
    ensures
        split(a + seq![c] + b, c) == split(a, c).push(b),
    decreases a.len(),
{
    let p = seq![c];
    let s = a + p + b;
    lemma_find_from(a, p, 0);
    lemma_find_from(s, p, 0);
    lemma_char_occurs(s, c, a.len() as int);
    let k = find(s, p)->0;
    lemma_char_occurs(s, c, k);
    lemma_char_occurs(a, c, k);
    match find(a, p) {
        Some(i) => {
            lemma_char_occurs(a, c, i);
            lemma_char_occurs(s, c, i);
            assert(k == i);
            assert(s.take(i) =~= a.take(i));
            assert(s.skip(i + 1) =~= a.skip(i + 1) + p + b);
            lemma_split_tail(a.skip(i + 1), c, b);
            assert(split(s, c) =~= split(a, c).push(b));
        },
        None => {
            assert(k == a.len());
            assert(s.take(k) =~= a);
            assert(s.skip(k + 1) =~= b);
            lemma_split_none(b, c);
            assert(split(s, c) =~= split(a, c).push(b));
        },
    }
}

pub fn pieces(s: &[char], p: &[char]) -> (r: Vec<Vec<char>>)
    requires
        p@.len() > 0,
    ensures
        texts(r@) == split_on(s@, p@),
        r@.len() >= 1,
{
    let mut out: Vec<Vec<char>> = Vec::new();
    let mut start: usize = 0;
    assert(s@.skip(0) =~= s@);
    assert(texts(out@) + split_on(s@, p@) =~= split_on(s@, p@));
    loop
        invariant
            p@.len() > 0,
            start <= s@.len(),
            texts(out@) + split_on(s@.skip(start as int), p@) == split_on(s@, p@),
        decreases s@.len() - start,
    {
        let rest: &[char] = slice_subrange(s, start, s.len());
        assert(rest@ =~= s@.skip(start as int));
        let ghost before = texts(out@);
        match position_from(rest, p, 0) {
            Some(i) => {
                let piece: Vec<char> = copy_of(slice_subrange(rest, 0, i));
                assert(piece@ =~= rest@.take(i as int));
                out.push(piece);
                start = start + i + p.len();
                assert(s@.skip(start as int) =~= rest@.skip(i + p@.len()));
                assert(texts(out@) =~= before.push(piece@));
                assert(texts(out@) + split_on(s@.skip(start as int), p@) =~= before + (seq![piece@]
                    + split_on(s@.skip(start as int), p@)));
            },
            None => {
                let piece: Vec<char> = copy_of(rest);
                out.push(piece);
                assert(texts(out@) =~= before + seq![rest@]);
                return out;
            },
        }
    }
}

pub fn pieces_at(s: &[char], c: char) -> (r: Vec<Vec<char>>)
    ensures
        texts(r@) == split(s@, c),
        r@.len() >= 1,
{
    let mut p: Vec<char> = Vec::new();
    p.push(c);
    assert(p@ =~= seq![c]);
    pieces(s, &p)
}

pub fn pieces_str(s: &[char], p: &str) -> (r: Vec<Vec<char>>)
    requires
        p@.len() > 0,
    ensures
        texts(r@) == split_on(s@, p@),
        r@.len() >= 1,
{
    let p: Vec<char> = chars_of(p);
    pieces(s, &p)
}

pub fn joined(parts: &Vec<Vec<char>>, sep: &str) -> (r: Vec<char>)
    ensures
        r@ == join(texts(parts@), sep@),
{
    let sep: Vec<char> = chars_of(sep);
    let ghost all = texts(parts@);
    let mut out: Vec<char> = Vec::new();
    let mut i: usize = 0;
    while i < parts.len()
        invariant
            i <= parts@.len(),
            all == texts(parts@),
            out@ == join(all.take(i as int), sep@),
        decreases parts@.len() - i,
    {
        if i > 0 {
            let mut s: Vec<char> = copy_of(&sep);
            out.append(&mut s);
        }
        let mut p: Vec<char> = copy_of(&parts[i]);
        out.append(&mut p);
        assert(all.take(i + 1).drop_last() =~= all.take(i as int));
        assert(all.take(i + 1).last() == parts@[i as int]@);
        i += 1;
    }
    assert(all.take(i as int) =~= all);
    out
}

/// The strings with `sep` between each two of them.
pub fn join_strings(v: &Vec<String>, sep: &str) -> (r: String)
    ensures
        r@ == join(strings(v@), sep@),
{
    let mut chars: Vec<Vec<char>> = Vec::new();
    let mut i: usize = 0;
    while i < v.len()
        invariant
            i <= v@.len(),
            chars@.len() == i,
            forall|j: int| 0 <= j < i ==> #[trigger] chars@[j]@ == v@[j]@,
        decreases v@.len() - i,
    {
        chars.push(chars_of(&v[i]));
        i += 1;
    }
    assert(texts(chars@) =~= strings(v@));
    string_of(&joined(&chars, sep))
}

pub fn first_piece(s: &[char], c: char) -> (r: Vec<char>)
    ensures
        r@ == before_first(s@, c),
{
    let parts: Vec<Vec<char>> = pieces_at(s, c);
    assert(texts(parts@)[0] == parts@[0]@);
    copy_of(&parts[0])
}

pub fn last_piece(s: &[char], c: char) -> (r: Vec<char>)
    ensures
        r@ == after_last(s@, c),
{
    let parts: Vec<Vec<char>> = pieces_at(s, c);
    assert(texts(parts@).last() == parts@.last()@);
    copy_of(&parts[parts.len() - 1])
}

pub fn up_to_last(s: &[char], c: char) -> (r: Option<Vec<char>>)
    ensures
        match r {
            Some(t) => before_last(s@, c) == Some(t@),
            None => before_last(s@, c) is None,
        },
{
    let parts: Vec<Vec<char>> = pieces_at(s, c);
    assert(texts(parts@).last() == parts@.last()@);
    proof {
        lemma_split_len(s@, seq![c]);
    }
    if parts.len() > 1 {
        let n: usize = s.len() - 1 - parts[parts.len() - 1].len();
        let head: &[char] = slice_subrange(s, 0, n);
        assert(head@ =~= s@.take(n as int));
        Some(copy_of(head))
    } else {
        None
    }
}


// ---- white space ----------------------------------------------------------------------------

/// The characters with the Unicode property White_Space.
pub open spec fn is_space(c: char) -> bool {
    ||| '\u{9}' <= c && c <= '\u{d}'
    ||| c == ' '
    ||| c == '\u{85}'
    ||| c == '\u{a0}'
    ||| c == '\u{1680}'
    ||| '\u{2000}' <= c && c <= '\u{200a}'
    ||| c == '\u{2028}'
    ||| c == '\u{2029}'
    ||| c == '\u{202f}'
    ||| c == '\u{205f}'
    ||| c == '\u{3000}'
}

pub fn space(c: char) -> (r: bool)
    ensures
        r == is_space(c),
{
    ('\u{9}' <= c && c <= '\u{d}') || c == ' ' || c == '\u{85}' || c == '\u{a0}' || c == '\u{1680}'
        || ('\u{2000}' <= c && c <= '\u{200a}') || c == '\u{2028}' || c == '\u{2029}' || c
        == '\u{202f}' || c == '\u{205f}' || c == '\u{3000}'
}

/// `s` without the white space it begins with.
pub open spec fn trim_start(s: Seq<char>) -> Seq<char>
    decreases s.len(),
{
    if s.len() > 0 && is_space(s[0]) {
        trim_start(s.drop_first())
    } else {
        s
    }
}

/// `s` without the white space it ends with.
pub open spec fn trim_end(s: Seq<char>) -> Seq<char>
    decreases s.len(),
{
    if s.len() > 0 && is_space(s.last()) {
        trim_end(s.drop_last())
    } else {
        s
    }
}

pub open spec fn trim(s: Seq<char>) -> Seq<char> {
    trim_end(trim_start(s))
}

/// The runs of characters between white space.
pub open spec fn words(s: Seq<char>) -> Seq<Seq<char>>
    decreases s.len(),
{
    if s.len() == 0 {
        seq![]
    } else {
        let before = words(s.drop_last());
        if is_space(s.last()) {
            before
        } else if s.len() > 1 && !is_space(s[s.len() - 2]) {
            before.drop_last().push(before.last().push(s.last()))
        } else {
            before.push(seq![s.last()])
        }
    }
}

/// `s` from its first white space on.
pub open spec fn from_space(s: Seq<char>) -> Seq<char>
    decreases s.len(),
{
    if s.len() > 0 && !is_space(s[0]) {
        from_space(s.drop_first())
    } else {
        s
    }
}

/// What follows the first word, without white space around it.
pub open spec fn after_word(s: Seq<char>) -> Seq<char> {
    trim(from_space(trim_start(s)))
}

/// `s` without as many copies of `p` as it begins with.
pub open spec fn trim_start_matches(s: Seq<char>, p: Seq<char>) -> Seq<char>
    decreases s.len(),
{
    if p.len() > 0 && starts_with(s, p) {
        trim_start_matches(s.skip(p.len() as int), p)
    } else {
        s
    }
}

/// `s` without as many characters `c` as it ends with.
pub open spec fn trim_end_matches(s: Seq<char>, c: char) -> Seq<char>
    decreases s.len(),
{
    if s.len() > 0 && s.last() == c {
        trim_end_matches(s.drop_last(), c)
    } else {
        s
    }
}

pub fn trimmed_start(s: &[char]) -> (r: &[char])
    ensures
        r@ == trim_start(s@),
{
    let mut i: usize = 0;
    assert(s@.skip(0) =~= s@);
    while i < s.len() && space(s[i])
        invariant
            i <= s@.len(),
            trim_start(s@) == trim_start(s@.skip(i as int)),
        decreases s@.len() - i,
    {
        assert(s@.skip(i as int).drop_first() =~= s@.skip(i + 1));
        i += 1;
    }
    let r: &[char] = slice_subrange(s, i, s.len());
    assert(r@ =~= s@.skip(i as int));
    r
}

pub fn trimmed_end(s: &[char]) -> (r: &[char])
    ensures
        r@ == trim_end(s@),
{
    let mut n: usize = s.len();
    assert(s@.take(n as int) =~= s@);
    while n > 0 && space(s[n - 1])
        invariant
            n <= s@.len(),
            trim_end(s@) == trim_end(s@.take(n as int)),
        decreases n,
    {
        assert(s@.take(n as int).drop_last() =~= s@.take(n - 1));
        n -= 1;
    }
    let r: &[char] = slice_subrange(s, 0, n);
    assert(r@ =~= s@.take(n as int));
    r
}

pub fn trimmed(s: &[char]) -> (r: &[char])
    ensures
        r@ == trim(s@),
{
    trimmed_end(trimmed_start(s))
}

/// What follows the first word, without white space around it.
pub fn past_word(s: &[char]) -> (r: &[char])
    ensures
        r@ == after_word(s@),
{
    let t: &[char] = trimmed_start(s);
    let mut i: usize = 0;
    assert(t@.skip(0) =~= t@);
    while i < t.len() && !space(t[i])
        invariant
            i <= t@.len(),
            from_space(t@) == from_space(t@.skip(i as int)),
        decreases t@.len() - i,
    {
        assert(t@.skip(i as int).drop_first() =~= t@.skip(i + 1));
        i += 1;
    }
    let r: &[char] = slice_subrange(t, i, t.len());
    assert(r@ =~= t@.skip(i as int));
    trimmed(r)
}

pub fn words_of(s: &[char]) -> (r: Vec<Vec<char>>)
    ensures
        texts(r@) == words(s@),
{
    let mut out: Vec<Vec<char>> = Vec::new();
    let mut cur: Vec<char> = Vec::new();
    let mut i: usize = 0;
    while i < s.len()
        invariant
            i <= s@.len(),
            cur@.len() > 0 <==> i > 0 && !is_space(s@[i - 1]),
            words(s@.take(i as int)) =~= if cur@.len() > 0 {
                texts(out@).push(cur@)
            } else {
                texts(out@)
            },
        decreases s@.len() - i,
    {
        let c: char = s[i];
        let ghost before = texts(out@);
        assert(s@.take(i + 1).drop_last() =~= s@.take(i as int));
        if space(c) {
            if cur.len() > 0 {
                let done: Vec<char> = cur;
                cur = Vec::new();
                out.push(done);
                assert(texts(out@) =~= before.push(done@));
            }
        } else {
            let ghost had = cur@;
            cur.push(c);
            assert(had.len() == 0 ==> cur@ =~= seq![c]);
        }
        i += 1;
    }
    assert(s@.take(i as int) =~= s@);
    let ghost before = texts(out@);
    if cur.len() > 0 {
        let ghost last = cur@;
        out.push(cur);
        assert(texts(out@) =~= before.push(last));
    }
    out
}

pub fn without_prefixes<'a>(s: &'a [char], p: &str) -> (r: &'a [char])
    requires
        p@.len() > 0,
    ensures
        r@ == trim_start_matches(s@, p@),
{
    let pat: Vec<char> = chars_of(p);
    let mut i: usize = 0;
    assert(s@.skip(0) =~= s@);
    loop
        invariant
            p@.len() > 0,
            pat@ == p@,
            i <= s@.len(),
            trim_start_matches(s@, p@) == trim_start_matches(s@.skip(i as int), p@),
        decreases s@.len() - i,
    {
        let rest: &[char] = slice_subrange(s, i, s.len());
        assert(rest@ =~= s@.skip(i as int));
        if !at(rest, &pat, 0) {
            return rest;
        }
        assert(rest@.skip(p@.len() as int) =~= s@.skip(i + p@.len()));
        i += pat.len();
    }
}

pub fn without_suffixes(s: &[char], c: char) -> (r: &[char])
    ensures
        r@ == trim_end_matches(s@, c),
{
    let mut n: usize = s.len();
    assert(s@.take(n as int) =~= s@);
    while n > 0 && s[n - 1] == c
        invariant
            n <= s@.len(),
            trim_end_matches(s@, c) == trim_end_matches(s@.take(n as int), c),
        decreases n,
    {
        assert(s@.take(n as int).drop_last() =~= s@.take(n - 1));
        n -= 1;
    }
    let r: &[char] = slice_subrange(s, 0, n);
    assert(r@ =~= s@.take(n as int));
    r
}

// ---- lines ----------------------------------------------------------------------------------

/// A line that a line feed ended, without the carriage return that may stand before it.
pub open spec fn without_return(l: Seq<char>) -> Seq<char> {
    if l.len() > 0 && l.last() == '\r' {
        l.drop_last()
    } else {
        l
    }
}

/// The lines of a text. A line feed ends a line, with or without a carriage return before it; the
/// last line may lack one.
pub open spec fn lines(s: Seq<char>) -> Seq<Seq<char>> {
    let parts = split(s, '\n');
    let ended = Seq::new((parts.len() - 1) as nat, |i: int| without_return(parts[i]));
    if parts.last().len() == 0 {
        ended
    } else {
        ended.push(parts.last())
    }
}

pub fn lines_of(s: &[char]) -> (r: Vec<Vec<char>>)
    ensures
        texts(r@) == lines(s@),
{
    let parts: Vec<Vec<char>> = pieces_at(s, '\n');
    let ghost all = split(s@, '\n');
    let mut out: Vec<Vec<char>> = Vec::new();
    let mut i: usize = 0;
    while i < parts.len() - 1
        invariant
            i <= parts@.len() - 1,
            all == texts(parts@),
            texts(out@) =~= Seq::new(i as nat, |j: int| without_return(all[j])),
        decreases parts@.len() - i,
    {
        let l: &Vec<char> = &parts[i];
        assert(all[i as int] == l@);
        let mut n: usize = l.len();
        if n > 0 && l[n - 1] == '\r' {
            n -= 1;
        }
        let line: Vec<char> = copy_of(slice_subrange(l, 0, n));
        assert(line@ =~= without_return(all[i as int]));
        let ghost before = texts(out@);
        out.push(line);
        assert(texts(out@) =~= before.push(line@));
        i += 1;
    }
    let last: &Vec<char> = &parts[parts.len() - 1];
    assert(all.last() == last@);
    if last.len() > 0 {
        let ghost before = texts(out@);
        let line: Vec<char> = copy_of(last);
        out.push(line);
        assert(texts(out@) =~= before.push(line@));
    }
    out
}


// ---- letter case ----------------------------------------------------------------------------

/// An ASCII capital letter as its small letter, any other character as it is.
pub open spec fn lower_char(c: char) -> char {
    if 'A' <= c && c <= 'Z' {
        (c as u8 + 32) as char
    } else {
        c
    }
}

pub open spec fn lower(s: Seq<char>) -> Seq<char> {
    Seq::new(s.len(), |i: int| lower_char(s[i]))
}

pub fn small(c: char) -> (r: char)
    ensures
        r == lower_char(c),
{
    if 'A' <= c && c <= 'Z' {
        (c as u8 + 32) as char
    } else {
        c
    }
}

pub fn lowered(s: &[char]) -> (r: Vec<char>)
    ensures
        r@ == lower(s@),
{
    let mut out: Vec<char> = Vec::new();
    let mut i: usize = 0;
    while i < s.len()
        invariant
            i <= s@.len(),
            out@ =~= lower(s@).take(i as int),
        decreases s@.len() - i,
    {
        out.push(small(s[i]));
        i += 1;
    }
    assert(lower(s@).take(i as int) =~= lower(s@));
    out
}

// ---- numbers --------------------------------------------------------------------------------

pub open spec fn is_digit(c: char) -> bool {
    '0' <= c && c <= '9'
}

pub open spec fn digit_value(c: char) -> nat {
    (c as int - '0' as int) as nat
}

pub open spec fn digit_char(d: nat) -> char {
    ('0' as int + d) as char
}

pub open spec fn all_digits(s: Seq<char>) -> bool {
    forall|i: int| 0 <= i < s.len() ==> is_digit(#[trigger] s[i])
}

/// The number that a run of decimal digits writes.
pub open spec fn value(s: Seq<char>) -> nat
    decreases s.len(),
{
    if s.len() == 0 {
        0
    } else {
        value(s.drop_last()) * 10 + digit_value(s.last())
    }
}

/// The digits after an optional plus sign.
pub open spec fn unsigned(s: Seq<char>) -> Seq<char> {
    if s.len() > 0 && s[0] == '+' {
        s.drop_first()
    } else {
        s
    }
}

/// A number up to `max`: an optional plus sign, then one or more decimal digits and nothing else.
pub open spec fn parse_upto(s: Seq<char>, max: nat) -> Option<nat> {
    let d = unsigned(s);
    if d.len() > 0 && all_digits(d) && value(d) <= max {
        Some(value(d))
    } else {
        None
    }
}

pub open spec fn parse_u64(s: Seq<char>) -> Option<u64> {
    match parse_upto(s, u64::MAX as nat) {
        Some(n) => Some(n as u64),
        None => None,
    }
}

/// The decimal digits of a number, without leading zeros.
pub open spec fn decimal(n: nat) -> Seq<char>
    decreases n,
{
    if n < 10 {
        seq![digit_char(n)]
    } else {
        decimal(n / 10).push(digit_char(n % 10))
    }
}

/// Reading the digits of a number gives the number back.
pub proof fn lemma_decimal(n: nat)
    ensures
        decimal(n).len() > 0,
        all_digits(decimal(n)),
        value(decimal(n)) == n,
        decimal(n)[0] != '+',
    decreases n,
{
    reveal_with_fuel(value, 2);
    if n < 10 {
        assert(decimal(n).drop_last() =~= seq![]);
    } else {
        lemma_decimal(n / 10);
        assert(decimal(n).drop_last() =~= decimal(n / 10));
    }
}

/// A number written in decimal is read back as the same number.
pub proof fn lemma_parse_decimal(n: u64)
    ensures
        parse_u64(decimal(n as nat)) == Some(n),
{
    lemma_decimal(n as nat);
}

proof fn lemma_value_grows(s: Seq<char>, n: int)
    requires
        0 <= n <= s.len(),
    ensures
        value(s.take(n)) <= value(s),
    decreases s.len() - n,
{
    if n < s.len() {
        lemma_value_grows(s, n + 1);
        assert(s.take(n + 1).drop_last() =~= s.take(n));
    } else {
        assert(s.take(n) =~= s);
    }
}

pub fn digit(c: char) -> (r: bool)
    ensures
        r == is_digit(c),
{
    '0' <= c && c <= '9'
}

pub fn number_u64(s: &[char]) -> (r: Option<u64>)
    ensures
        r == parse_u64(s@),
{
    let d: &[char] = if s.len() > 0 && s[0] == '+' {
        slice_subrange(s, 1, s.len())
    } else {
        s
    };
    assert(d@ =~= unsigned(s@));
    if d.len() == 0 {
        return None;
    }
    let mut n: u64 = 0;
    let mut i: usize = 0;
    while i < d.len()
        invariant
            i <= d@.len(),
            d@ == unsigned(s@),
            d@.len() > 0,
            forall|j: int| 0 <= j < i ==> is_digit(#[trigger] d@[j]),
            n == value(d@.take(i as int)),
        decreases d@.len() - i,
    {
        let c: char = d[i];
        if !digit(c) {
            return None;
        }
        let v: u64 = c as u64 - 48;
        assert(d@.take(i + 1).drop_last() =~= d@.take(i as int));
        proof {
            lemma_value_grows(d@, i + 1);
        }
        if n > (u64::MAX - v) / 10 {
            return None;
        }
        n = n * 10 + v;
        i += 1;
    }
    assert(d@.take(i as int) =~= d@);
    Some(n)
}

pub open spec fn parse_usize(s: Seq<char>) -> Option<usize> {
    match parse_upto(s, usize::MAX as nat) {
        Some(n) => Some(n as usize),
        None => None,
    }
}

pub fn number_usize(s: &[char]) -> (r: Option<usize>)
    ensures
        r == parse_usize(s@),
{
    match number_u64(s) {
        Some(n) => if n <= usize::MAX as u64 {
            Some(n as usize)
        } else {
            None
        },
        None => None,
    }
}

pub fn digits_of(n: u64) -> (r: Vec<char>)
    ensures
        r@ == decimal(n as nat),
    decreases n,
{
    if n < 10 {
        let mut v: Vec<char> = Vec::new();
        v.push((48 + n as u8) as char);
        assert(v@ =~= decimal(n as nat));
        v
    } else {
        let mut v: Vec<char> = digits_of(n / 10);
        v.push((48 + (n % 10) as u8) as char);
        v
    }
}

/// A number written in decimal.
pub fn number_text(n: u64) -> (r: String)
    ensures
        r@ == decimal(n as nat),
{
    string_of(&digits_of(n))
}

// ---- order ----------------------------------------------------------------------------------

/// `a` comes strictly before `b` in the order of a dictionary, character by character.
pub open spec fn precedes(a: Seq<char>, b: Seq<char>) -> bool
    decreases a.len(),
{
    if b.len() == 0 {
        false
    } else if a.len() == 0 {
        true
    } else if a[0] != b[0] {
        a[0] < b[0]
    } else {
        precedes(a.drop_first(), b.drop_first())
    }
}

pub fn before(a: &[char], b: &[char]) -> (r: bool)
    ensures
        r == precedes(a@, b@),
{
    let mut i: usize = 0;
    assert(a@.skip(0) =~= a@);
    assert(b@.skip(0) =~= b@);
    loop
        invariant
            i <= a@.len(),
            i <= b@.len(),
            precedes(a@, b@) == precedes(a@.skip(i as int), b@.skip(i as int)),
        decreases a@.len() - i,
    {
        if i == b.len() {
            return false;
        }
        if i == a.len() {
            return true;
        }
        if a[i] != b[i] {
            return a[i] < b[i];
        }
        assert(a@.skip(i as int).drop_first() =~= a@.skip(i + 1));
        assert(b@.skip(i as int).drop_first() =~= b@.skip(i + 1));
        i += 1;
    }
}

// ---- laws -----------------------------------------------------------------------------------

/// Nothing but white space.
pub open spec fn blank(s: Seq<char>) -> bool {
    forall|i: int| 0 <= i < s.len() ==> is_space(#[trigger] s[i])
}

proof fn lemma_trim_start_blank(a: Seq<char>, s: Seq<char>)
    requires
        blank(a),
    ensures
        trim_start(a + s) == trim_start(s),
    decreases a.len(),
{
    if a.len() == 0 {
        assert(a + s =~= s);
    } else {
        assert(is_space(a[0]));
        assert((a + s).drop_first() =~= a.drop_first() + s);
        assert forall|i: int| 0 <= i < a.drop_first().len() implies is_space(
            #[trigger] a.drop_first()[i],
        ) by {
            assert(is_space(a[i + 1]));
        }
        lemma_trim_start_blank(a.drop_first(), s);
    }
}

proof fn lemma_trim_end_blank(s: Seq<char>, b: Seq<char>)
    requires
        blank(b),
    ensures
        trim_end(s + b) == trim_end(s),
    decreases b.len(),
{
    if b.len() == 0 {
        assert(s + b =~= s);
    } else {
        assert(is_space(b[b.len() - 1]));
        assert((s + b).last() == b.last());
        assert((s + b).drop_last() =~= s + b.drop_last());
        lemma_trim_end_blank(s, b.drop_last());
    }
}

proof fn lemma_trim_start_parts(s: Seq<char>)
    ensures
        trim_start(s).len() <= s.len(),
        s.skip(s.len() - trim_start(s).len()) == trim_start(s),
        blank(s.take(s.len() - trim_start(s).len())),
        trim_start(s).len() > 0 ==> !is_space(trim_start(s)[0]),
    decreases s.len(),
{
    if s.len() > 0 && is_space(s[0]) {
        let r = s.drop_first();
        lemma_trim_start_parts(r);
        let n = r.len() - trim_start(r).len();
        assert(s.skip(n + 1) =~= r.skip(n));
        assert forall|i: int| 0 <= i < n + 1 implies is_space(#[trigger] s.take(n + 1)[i]) by {
            if i > 0 {
                assert(is_space(r.take(n)[i - 1]));
            }
        }
    } else {
        assert(s.skip(0) =~= s);
    }
}

proof fn lemma_trim_end_parts(s: Seq<char>)
    ensures
        trim_end(s).len() <= s.len(),
        s.take(trim_end(s).len() as int) == trim_end(s),
        blank(s.skip(trim_end(s).len() as int)),
        trim_end(s).len() > 0 ==> !is_space(trim_end(s).last()),
    decreases s.len(),
{
    if s.len() > 0 && is_space(s.last()) {
        let r = s.drop_last();
        lemma_trim_end_parts(r);
        let n = trim_end(r).len() as int;
        assert(s.take(n) =~= r.take(n));
        assert forall|i: int| 0 <= i < s.len() - n implies is_space(#[trigger] s.skip(n)[i]) by {
            if i < r.len() - n {
                assert(is_space(r.skip(n)[i]));
            }
        }
    } else {
        assert(s.take(s.len() as int) =~= s);
    }
}

/// Trimming takes off the white space around a text and nothing else: what is left neither begins nor
/// ends with any, and what was there is it with white space on both sides.
pub proof fn law_trimming_takes_off_only_white_space(s: Seq<char>)
    ensures
        exists|a: Seq<char>, b: Seq<char>|
            blank(a) && blank(b) && #[trigger] (a + trim(s) + b) == s,
        trim(s).len() > 0 ==> !is_space(trim(s)[0]) && !is_space(trim(s).last()),
{
    let m = trim_start(s);
    lemma_trim_start_parts(s);
    lemma_trim_end_parts(m);
    let a = s.take(s.len() - m.len());
    let b = m.skip(trim(s).len() as int);
    assert(m =~= trim(s) + b);
    assert(a + trim(s) + b =~= s);
    if trim(s).len() > 0 {
        assert(trim(s)[0] == m[0]);
    }
}

/// White space around a text makes no difference once it is trimmed.
pub proof fn law_white_space_around_is_ignored(a: Seq<char>, s: Seq<char>, b: Seq<char>)
    requires
        blank(a),
        blank(b),
    ensures
        trim(a + s + b) == trim(s),
{
    assert(a + s + b =~= a + (s + b));
    lemma_trim_start_blank(a, s + b);
    let m = trim_start(s);
    lemma_trim_start_parts(s);
    if m.len() > 0 {
        lemma_start_then(s, b);
        lemma_trim_end_blank(m, b);
    } else {
        assert(s.take(s.len() as int) =~= s);
        lemma_trim_start_blank(s, b);
        lemma_trim_start_parts(b);
        assert(blank(trim_start(b))) by {
            assert forall|i: int| 0 <= i < trim_start(b).len() implies is_space(
                #[trigger] trim_start(b)[i],
            ) by {
                assert(trim_start(b)[i] == b[b.len() - trim_start(b).len() + i]);
            }
        }
        lemma_trim_end_blank(Seq::empty(), trim_start(b));
        assert(Seq::<char>::empty() + trim_start(b) =~= trim_start(b));
        assert(m =~= Seq::<char>::empty());
    }
}

proof fn lemma_start_then(s: Seq<char>, b: Seq<char>)
    requires
        trim_start(s).len() > 0,
    ensures
        trim_start(s + b) == trim_start(s) + b,
    decreases s.len(),
{
    if is_space(s[0]) {
        assert((s + b).drop_first() =~= s.drop_first() + b);
        lemma_start_then(s.drop_first(), b);
    }
}

/// A text that neither begins nor ends with white space is left as it is.
pub proof fn law_a_trimmed_text_stays(s: Seq<char>)
    requires
        s.len() > 0 ==> !is_space(s[0]) && !is_space(s.last()),
    ensures
        trim(s) == s,
{
}

/// Blanks, tabs and the ends of lines are white space, and nothing that can be seen in ASCII is.
pub proof fn law_what_white_space_is(c: char)
    ensures
        is_space(' ') && is_space('\t') && is_space('\n') && is_space('\r'),
        '!' <= c && c <= '~' ==> !is_space(c),
{
}

/// Lowering changes the capital letters of ASCII and nothing else, each by itself.
pub proof fn law_lowering_changes_only_capitals(s: Seq<char>, i: int)
    requires
        0 <= i < s.len(),
    ensures
        lower(s).len() == s.len(),
        'A' <= s[i] && s[i] <= 'Z' ==> lower(s)[i] as int == s[i] as int + ('a' as int - 'A' as int),
        !('A' <= s[i] && s[i] <= 'Z') ==> lower(s)[i] == s[i],
        lower(lower(s)) == lower(s),
{
    assert(lower(lower(s)) =~= lower(s)) by {
        assert forall|k: int| 0 <= k < s.len() implies lower(lower(s))[k] == lower(s)[k] by {
            lemma_small_stays(s[k]);
        }
    }
    lemma_small_stays(s[i]);
}

proof fn lemma_small_stays(c: char)
    ensures
        lower_char(lower_char(c)) == lower_char(c),
        'A' <= c && c <= 'Z' ==> lower_char(c) as int == c as int + 32,
{
}

/// A text is its pieces with the separator between them, and no piece holds the separator.
pub proof fn law_splitting_loses_nothing(s: Seq<char>, c: char)
    ensures
        join(split(s, c), seq![c]) == s,
        forall|i: int| 0 <= i < split(s, c).len() ==> lacks(#[trigger] split(s, c)[i], c),
    decreases s.len(),
{
    let p = seq![c];
    lemma_find_from(s, p, 0);
    match find(s, p) {
        Some(i) => {
            lemma_char_occurs(s, c, i);
            let rest = s.skip(i + 1);
            law_splitting_loses_nothing(rest, c);
            lemma_split_len(rest, p);
            let parts = split(rest, c);
            assert(split(s, c) == seq![s.take(i)] + parts);
            lemma_join_first(s.take(i), parts, p);
            assert(s =~= s.take(i) + p + rest);
            assert forall|k: int| 0 <= k < split(s, c).len() implies lacks(
                #[trigger] split(s, c)[k],
                c,
            ) by {
                if k == 0 {
                    assert forall|j: int| 0 <= j < i implies #[trigger] s.take(i)[j] != c by {
                        lemma_char_occurs(s, c, j);
                    }
                } else {
                    assert(split(s, c)[k] == parts[k - 1]);
                }
            }
        },
        None => {
            assert forall|j: int| 0 <= j < s.len() implies #[trigger] s[j] != c by {
                lemma_char_occurs(s, c, j);
            }
            assert(split(s, c)[0] == s);
        },
    }
}

proof fn lemma_join_first(a: Seq<char>, parts: Seq<Seq<char>>, sep: Seq<char>)
    requires
        parts.len() > 0,
    ensures
        join(seq![a] + parts, sep) == a + sep + join(parts, sep),
    decreases parts.len(),
{
    let all = seq![a] + parts;
    assert(all.drop_last() =~= seq![a] + parts.drop_last());
    assert(all.last() == parts.last());
    if parts.len() == 1 {
        assert(parts.drop_last() =~= Seq::<Seq<char>>::empty());
        assert(all.drop_last() =~= seq![a]);
        assert(join(all.drop_last(), sep) == a);
        assert(join(all, sep) =~= a + sep + join(parts, sep));
    } else {
        lemma_join_first(a, parts.drop_last(), sep);
        assert(join(all, sep) =~= a + sep + join(parts, sep));
    }
}

/// The first piece is what stands before the first separator, and the others are those of the rest.
pub proof fn law_the_first_piece_comes_first(a: Seq<char>, c: char, b: Seq<char>)
    requires
        lacks(a, c),
    ensures
        split(a + seq![c] + b, c) == seq![a] + split(b, c),
        before_first(a + seq![c] + b, c) == a,
        before_first(a, c) == a,
{
    let p = seq![c];
    let s = a + p + b;
    lemma_find_from(s, p, 0);
    lemma_char_occurs(s, c, a.len() as int);
    let k = find(s, p)->0;
    lemma_char_occurs(s, c, k);
    assert(k == a.len()) by {
        if k < a.len() {
            assert(s[k] == a[k]);
        }
    }
    assert(s.take(k) =~= a);
    assert(s.skip(k + 1) =~= b);
    lemma_split_none(a, c);
}

/// The last piece is what stands after the last separator, and all of it when there is none.
pub proof fn law_the_last_piece_comes_last(a: Seq<char>, c: char, b: Seq<char>)
    requires
        lacks(b, c),
    ensures
        after_last(a + seq![c] + b, c) == b,
        before_last(a + seq![c] + b, c) == Some(a),
        after_last(b, c) == b,
        before_last(b, c) is None,
{
    lemma_split_tail(a, c, b);
    lemma_split_none(b, c);
    lemma_split_len(a, seq![c]);
    let s = a + seq![c] + b;
    assert(s.take(s.len() - 1 - b.len()) =~= a);
}

/// Lines are read one after the other: a line feed ends a line, a carriage return before it belongs to
/// the end and not to the line, and the last line may lack both.
pub proof fn law_lines_end_in_line_feeds(a: Seq<char>, l: Seq<char>)
    requires
        a.len() == 0 || a.last() == '\n',
        lacks(l, '\n'),
    ensures
        lines(Seq::empty()).len() == 0,
        l.len() == 0 || l.last() != '\r' ==> lines(a + l + seq!['\n']) == lines(a).push(l),
        lines(a + l + seq!['\r', '\n']) == lines(a).push(l),
        l.len() > 0 ==> lines(a + l) == lines(a).push(l),
{
    let none = Seq::<char>::empty();
    lemma_split_none(none, '\n');
    assert(lines(none) =~= Seq::<Seq<char>>::empty());
    lemma_lines_after(a, l);
    let cr = l + seq!['\r'];
    assert(lacks(cr, '\n'));
    lemma_lines_after(a, cr);
    assert(a + l + seq!['\r', '\n'] =~= a + cr + seq!['\n']);
    assert(without_return(cr) =~= l);
}

proof fn lemma_lines_after(a: Seq<char>, l: Seq<char>)
    requires
        a.len() == 0 || a.last() == '\n',
        lacks(l, '\n'),
    ensures
        lines(a + l + seq!['\n']) == lines(a).push(without_return(l)),
        l.len() > 0 ==> lines(a + l) == lines(a).push(l),
{
    let nl = seq!['\n'];
    let none = Seq::<char>::empty();
    lemma_split_none(none, '\n');
    lemma_split_none(l, '\n');
    if a.len() == 0 {
        assert(a + l =~= l);
        lemma_split_tail(l, '\n', none);
        assert(l + nl + none =~= a + l + nl);
        assert(a =~= none);
    } else {
        let h = a.drop_last();
        assert(a =~= h + nl + none);
        lemma_split_tail(h, '\n', none);
        lemma_split_tail(h, '\n', l);
        assert(a + l =~= h + nl + l);
        lemma_split_tail(h + nl + l, '\n', none);
        assert(a + l + nl =~= h + nl + l + nl + none);
    }
    let pa = split(a, '\n');
    let pl = split(a + l, '\n');
    let pn = split(a + l + nl, '\n');
    assert(pa.last().len() == 0);
    assert(pl =~= pa.drop_last().push(l));
    assert(pn =~= pl.push(none));
    assert(lines(a) =~= Seq::new((pa.len() - 1) as nat, |i: int| without_return(pa[i])));
    assert(lines(a + l + nl) =~= lines(a).push(without_return(l)));
    if l.len() > 0 {
        assert(lines(a + l) =~= lines(a).push(l));
    }
}

/// Words are read one after the other, whatever white space stands between and around them.
pub proof fn law_words_stand_between_white_space(s: Seq<char>, b: Seq<char>, w: Seq<char>)
    requires
        blank(b),
        b.len() > 0 || s.len() == 0,
        w.len() > 0,
        forall|i: int| 0 <= i < w.len() ==> !is_space(#[trigger] w[i]),
    ensures
        words(Seq::empty()).len() == 0,
        words(s + b) == words(s),
        words(s + b + w) == words(s).push(w),
{
    lemma_words_blank(s, b);
    lemma_words_word(s + b, w);
}

proof fn lemma_words_blank(s: Seq<char>, b: Seq<char>)
    requires
        blank(b),
    ensures
        words(s + b) == words(s),
    decreases b.len(),
{
    if b.len() == 0 {
        assert(s + b =~= s);
    } else {
        assert(is_space(b[b.len() - 1]));
        assert((s + b).drop_last() =~= s + b.drop_last());
        lemma_words_blank(s, b.drop_last());
    }
}

proof fn lemma_words_word(s: Seq<char>, w: Seq<char>)
    requires
        s.len() == 0 || is_space(s.last()),
        w.len() > 0,
        forall|i: int| 0 <= i < w.len() ==> !is_space(#[trigger] w[i]),
    ensures
        words(s + w) == words(s).push(w),
    decreases w.len(),
{
    let t = s + w;
    assert(t.last() == w[w.len() - 1]);
    assert(t.drop_last() =~= s + w.drop_last());
    if w.len() == 1 {
        assert(w.drop_last() =~= Seq::<char>::empty());
        assert(t.drop_last() =~= s);
        assert(w =~= seq![w[0]]);
    } else {
        let v = w.drop_last();
        assert forall|i: int| 0 <= i < v.len() implies !is_space(#[trigger] v[i]) by {
            assert(v[i] == w[i]);
        }
        lemma_words_word(s, v);
        assert(t[t.len() - 2] == w[w.len() - 2]);
        assert(words(s).push(v).drop_last() =~= words(s));
        assert(v.push(w.last()) =~= w);
        assert(words(t) =~= words(s).push(w));
    }
}

/// A number is read from its decimal digits, also with a plus sign before them, and from nothing that
/// holds any other character or none at all.
pub proof fn law_numbers_are_read_from_digits(n: u64, s: Seq<char>)
    ensures
        parse_u64(decimal(n as nat)) == Some(n),
        parse_u64(seq!['+'] + decimal(n as nat)) == Some(n),
        parse_u64(s) is Some ==> s.len() > 0 && forall|i: int|
            0 <= i < s.len() ==> ('0' <= #[trigger] s[i] && s[i] <= '9') || (i == 0 && s[i] == '+'),
{
    lemma_decimal(n as nat);
    let d = decimal(n as nat);
    assert((seq!['+'] + d).drop_first() =~= d);
    if parse_u64(s) is Some {
        assert forall|i: int| 0 <= i < s.len() implies ('0' <= #[trigger] s[i] && s[i] <= '9') || (i
            == 0 && s[i] == '+') by {
            if s[0] == '+' {
                if i > 0 {
                    assert(is_digit(s.drop_first()[i - 1]));
                }
            } else {
                assert(is_digit(s[i]));
            }
        }
    }
}

/// The digits of a number are those that a person writes: adding a digit multiplies by ten and adds it.
pub proof fn law_digits_count_by_tens(n: nat, d: nat)
    requires
        d < 10,
    ensures
        decimal(d).len() == 1 && decimal(d)[0] as int == '0' as int + d,
        n > 0 ==> decimal(10 * n + d) == decimal(n) + decimal(d),
{
    if n > 0 {
        assert((10 * n + d) / 10 == n && (10 * n + d) % 10 == d);
        assert(decimal(10 * n + d) =~= decimal(n) + decimal(d));
    }
}

/// Names are put in order by the first character in which they differ, and a name comes before any
/// longer one that it begins: of two different names exactly one comes first.
pub proof fn law_names_are_ordered(a: Seq<char>, b: Seq<char>, x: char, y: char, p: Seq<char>)
    ensures
        precedes(p + seq![x] + a, p + seq![y] + b) <==> x < y || (x == y && precedes(a, b)),
        precedes(p, p + seq![x] + a),
        !precedes(p, p),
        !precedes(p + seq![x] + a, p),
        a != b ==> precedes(a, b) != precedes(b, a),
    decreases p.len(), a.len(),
{
    let s = p + seq![x] + a;
    let t = p + seq![y] + b;
    if p.len() == 0 {
        assert(s.drop_first() =~= a && t.drop_first() =~= b);
        assert(s[0] == x && t[0] == y);
    } else {
        let q = p.drop_first();
        law_names_are_ordered(a, b, x, y, q);
        assert(s.drop_first() =~= q + seq![x] + a);
        assert(t.drop_first() =~= q + seq![y] + b);
        assert(s[0] == p[0] && t[0] == p[0]);
    }
    lemma_one_comes_first(a, b);
}

proof fn lemma_one_comes_first(a: Seq<char>, b: Seq<char>)
    ensures
        a != b ==> precedes(a, b) != precedes(b, a),
    decreases a.len(),
{
    if a.len() > 0 && b.len() > 0 && a[0] == b[0] {
        lemma_one_comes_first(a.drop_first(), b.drop_first());
        assert(a =~= seq![a[0]] + a.drop_first());
        assert(b =~= seq![b[0]] + b.drop_first());
    } else if a.len() == 0 && b.len() == 0 {
        assert(a =~= b);
    }
}


/// A text that begins with anything but white space still does so once it is trimmed.
pub proof fn lemma_trim_keeps_first(s: Seq<char>)
    requires
        s.len() > 0,
        !is_space(s[0]),
    ensures
        trim(s).len() > 0,
        trim(s)[0] == s[0],
{
    lemma_trim_end_parts(s);
    if trim_end(s).len() == 0 {
        assert(is_space(s.skip(0)[0]));
    }
}

/// A character that is in a text is there a last time.
pub proof fn lemma_last_place(s: Seq<char>, c: char) -> (k: int)
    requires
        !lacks(s, c),
    ensures
        0 <= k < s.len(),
        s[k] == c,
        lacks(s.skip(k + 1), c),
        s == s.take(k) + seq![c] + s.skip(k + 1),
    decreases s.len(),
{
    if s.last() == c {
        let k = s.len() - 1;
        assert(s =~= s.take(k) + seq![c] + s.skip(k + 1));
        k
    } else {
        let r = s.drop_last();
        let i = choose|i: int| 0 <= i < s.len() && #[trigger] s[i] == c;
        assert(r[i] == c);
        let k = lemma_last_place(r, c);
        assert forall|j: int| 0 <= j < s.skip(k + 1).len() implies #[trigger] s.skip(k + 1)[j] != c by {
            if j < r.skip(k + 1).len() {
                assert(s.skip(k + 1)[j] == r.skip(k + 1)[j]);
            }
        }
        assert(s =~= s.take(k) + seq![c] + s.skip(k + 1));
        k
    }
}

/// Two lines of headers that differ at most in the case of the letters of their name, which ends at
/// the first colon.
pub open spec fn same_header(a: Seq<char>, b: Seq<char>) -> bool {
    a == b || exists|k: int| same_header_at(a, b, k)
}

pub open spec fn same_header_at(a: Seq<char>, b: Seq<char>, k: int) -> bool {
    &&& 0 <= k < a.len() == b.len()
    &&& a[k] == ':'
    &&& lacks(a.take(k), ':')
    &&& lower(a.take(k)) == lower(b.take(k))
    &&& a.skip(k) == b.skip(k)
}

/// What the names of two such lines have in common.
pub proof fn lemma_same_header(a: Seq<char>, b: Seq<char>, k: int)
    requires
        same_header_at(a, b, k),
    ensures
        lower(a) == lower(b),
        lacks(b.take(k), ':'),
        b[k] == ':',
        split(a, ':').len() > 1 && split(b, ':').len() > 1,
        split(a, ':')[1] == split(b, ':')[1],
{
    assert(a.skip(k)[0] == a[k] && b.skip(k)[0] == b[k]);
    assert forall|i: int| 0 <= i < a.len() implies lower(a)[i] == #[trigger] lower(b)[i] by {
        if i < k {
            assert(lower(a.take(k))[i] == lower(b.take(k))[i]);
        } else {
            assert(a.skip(k)[i - k] == b.skip(k)[i - k]);
        }
    }
    assert(lower(a) =~= lower(b));
    assert forall|i: int| 0 <= i < k implies #[trigger] b.take(k)[i] != ':' by {
        assert(lower(a)[i] == lower(b)[i]);
        assert(a.take(k)[i] != ':');
        lemma_colon(a[i]);
        lemma_colon(b[i]);
    }
    let rest = a.skip(k + 1);
    assert(b.skip(k + 1) =~= b.skip(k).drop_first());
    assert(rest =~= a.skip(k).drop_first());
    assert(a =~= a.take(k) + seq![':'] + rest);
    assert(b =~= b.take(k) + seq![':'] + rest);
    law_the_first_piece_comes_first(a.take(k), ':', rest);
    law_the_first_piece_comes_first(b.take(k), ':', rest);
    lemma_split_len(rest, seq![':']);
}

proof fn lemma_colon(c: char)
    ensures
        lower_char(c) == ':' <==> c == ':',
        lower_char(c) == '/' <==> c == '/',
{
}

/// A line whose lowered text begins with a name and a colon has its first colon there, and holds no
/// slash before it when the name holds none.
pub proof fn lemma_name_ends(line: Seq<char>, name: Seq<char>)
    requires
        lacks(name, ':'),
        lacks(name, '/'),
        starts_with(lower(line), name + seq![':']),
    ensures
        line.len() > name.len(),
        line[name.len() as int] == ':',
        lacks(line.take(name.len() as int), ':'),
        lacks(line.take(name.len() as int), '/'),
{
    let key = name + seq![':'];
    let low = lower(line);
    assert(low.subrange(0, key.len() as int) == key);
    assert forall|i: int| 0 <= i < key.len() implies low[i] == #[trigger] key[i] by {
        assert(low.subrange(0, key.len() as int)[i] == low[i]);
    }
    assert(key[name.len() as int] == ':');
    lemma_colon(line[name.len() as int]);
    assert forall|i: int| 0 <= i < name.len() implies #[trigger] line.take(name.len() as int)[i] != ':'
        && line.take(name.len() as int)[i] != '/' by {
        assert(key[i] == name[i]);
        assert(low[i] == key[i]);
        lemma_colon(line[i]);
    }
}

/// A line that begins with a name and a colon, in whatever case, does so in small letters once lowered.
pub proof fn lemma_begins_lowered(key: Seq<char>, name: Seq<char>, rest: Seq<char>)
    requires
        lower(name) == key,
    ensures
        starts_with(lower(name + rest), key),
{
    let low = lower(name + rest);
    assert(key.len() == name.len());
    assert forall|i: int| 0 <= i < key.len() implies low.subrange(0, key.len() as int)[i] == key[i] by {
        assert(lower(name)[i] == key[i]);
    }
    assert(low.subrange(0, key.len() as int) =~= key);
}

/// The digits of a number hold no other character, and trimming leaves them as they are.
pub proof fn lemma_digits_alone(n: nat, c: char)
    ensures
        !is_digit(c) ==> lacks(decimal(n), c),
        trim(decimal(n)) == decimal(n),
        forall|a: Seq<char>| blank(a) ==> trim(#[trigger] (a + decimal(n))) == decimal(n),
{
    lemma_decimal(n);
    let d = decimal(n);
    assert forall|i: int| 0 <= i < d.len() implies #[trigger] is_digit(d[i]) && !is_space(d[i]) by {
        lemma_digit_seen(d[i]);
    }
    assert(is_digit(d[0]) && is_digit(d[d.len() - 1]));
    assert forall|a: Seq<char>| blank(a) implies trim(#[trigger] (a + d)) == d by {
        law_white_space_around_is_ignored(a, d, Seq::empty());
        assert(a + d + Seq::<char>::empty() =~= a + d);
    }
}

proof fn lemma_digit_seen(c: char)
    ensures
        is_digit(c) ==> !is_space(c),
{
}

proof fn lemma_words_some(s: Seq<char>)
    requires
        s.len() > 0,
        !is_space(s.last()),
    ensures
        words(s).len() > 0,
{
}

proof fn lemma_from_space(w: Seq<char>, r: Seq<char>)
    requires
        forall|i: int| 0 <= i < w.len() ==> !is_space(#[trigger] w[i]),
        r.len() == 0 || is_space(r[0]),
    ensures
        from_space(w + r) == r,
    decreases w.len(),
{
    if w.len() == 0 {
        assert(w + r =~= r);
    } else {
        assert((w + r)[0] == w[0]);
        assert((w + r).drop_first() =~= w.drop_first() + r);
        lemma_from_space(w.drop_first(), r);
    }
}

/// The first word is what stands before the first white space, the others are those of the rest, and
/// what follows the first word is the rest.
pub proof fn law_the_first_word_comes_first(w: Seq<char>, b: Seq<char>, rest: Seq<char>)
    requires
        w.len() > 0,
        forall|i: int| 0 <= i < w.len() ==> !is_space(#[trigger] w[i]),
        blank(b),
        b.len() > 0 || rest.len() == 0,
    ensures
        words(w + b + rest) == seq![w] + words(rest),
        after_word(w + b + rest) == trim(rest),
    decreases rest.len(),
{
    let s = w + b + rest;
    let r = b + rest;
    assert(s =~= w + r);
    if r.len() > 0 {
        if b.len() > 0 {
            assert(is_space(b[0]) && r[0] == b[0]);
        }
    }
    lemma_from_space(w, r);
    assert(s[0] == w[0]);
    assert(trim_start(s) == s);
    law_white_space_around_is_ignored(b, rest, Seq::empty());
    assert(b + rest + Seq::<char>::empty() =~= r);
    let none = Seq::<char>::empty();
    if rest.len() == 0 {
        assert(s =~= w + b);
        assert(none + none + w =~= w);
        law_words_stand_between_white_space(none, none, w);
        lemma_words_blank(w, b);
        assert(words(none) =~= Seq::<Seq<char>>::empty());
        assert(words(rest) =~= Seq::<Seq<char>>::empty());
        assert(words(none).push(w) =~= seq![w]);
        assert(words(s) =~= seq![w] + words(rest));
    } else {
        let c = rest.last();
        let q = rest.drop_last();
        assert(s.drop_last() =~= w + b + q);
        assert(s.last() == c);
        law_the_first_word_comes_first(w, b, q);
        let before = words(s.drop_last());
        if is_space(c) {
        } else if rest.len() > 1 {
            assert(s[s.len() - 2] == rest[rest.len() - 2]);
            if !is_space(rest[rest.len() - 2]) {
                assert(q.last() == rest[rest.len() - 2]);
                lemma_words_some(q);
                assert(before.last() == words(q).last());
                assert(before.drop_last() =~= seq![w] + words(q).drop_last());
                assert(words(s) =~= seq![w] + words(rest));
            } else {
                assert(words(s) =~= seq![w] + words(rest));
            }
        } else {
            assert(s[s.len() - 2] == b[b.len() - 1]);
            assert(is_space(b[b.len() - 1]));
            assert(words(s) =~= seq![w] + words(rest));
        }
    }
}

/// A text is cut where the separator first stands, and the rest of it again in the same way.
pub proof fn law_a_text_is_cut_at_its_separator(a: Seq<char>, p: Seq<char>, b: Seq<char>)
    requires
        p.len() > 0,
        forall|j: int| 0 <= j < a.len() ==> !occurs_at(a + p + b, p, j),
    ensures
        split_on(a + p + b, p) == seq![a] + split_on(b, p),
{
    let s = a + p + b;
    lemma_find_from(s, p, 0);
    assert(s.subrange(a.len() as int, (a.len() + p.len()) as int) =~= p);
    assert(occurs_at(s, p, a.len() as int));
    assert(find(s, p) == Some(a.len() as int));
    assert(s.take(a.len() as int) =~= a);
    assert(s.skip((a.len() + p.len()) as int) =~= b);
}

/// A text without the separator is left whole.
pub proof fn law_a_text_without_separator_stays(s: Seq<char>, p: Seq<char>)
    requires
        !contains(s, p),
    ensures
        split_on(s, p) == seq![s],
{
    lemma_find_from(s, p, 0);
}

/// Splitting two texts with a separator between them gives the pieces of the one and then those of the
/// other.
pub proof fn law_pieces_follow_one_another(a: Seq<char>, c: char, b: Seq<char>)
    ensures
        split(a + seq![c] + b, c) == split(a, c) + split(b, c),
    decreases a.len(),
{
    if lacks(a, c) {
        law_the_first_piece_comes_first(a, c, b);
        lemma_split_none(a, c);
    } else {
        let p = seq![c];
        lemma_find_from(a, p, 0);
        let i0 = choose|i: int| 0 <= i < a.len() && a[i] == c;
        lemma_char_occurs(a, c, i0);
        let k = find(a, p)->0;
        lemma_char_occurs(a, c, k);
        let x = a.take(k);
        let y = a.skip(k + 1);
        assert(a =~= x + p + y);
        assert forall|j: int| 0 <= j < x.len() implies #[trigger] x[j] != c by {
            lemma_char_occurs(a, c, j);
        }
        law_the_first_piece_comes_first(x, c, y);
        law_the_first_piece_comes_first(x, c, y + p + b);
        assert(a + p + b =~= x + p + (y + p + b));
        law_pieces_follow_one_another(y, c, b);
        assert(seq![x] + (split(y, c) + split(b, c)) =~= (seq![x] + split(y, c)) + split(b, c));
    }
}

/// What is read as a number holds digits, perhaps after a plus sign, and nothing else.
pub proof fn lemma_number_shape(s: Seq<char>, max: nat)
    requires
        parse_upto(s, max) is Some,
    ensures
        s.len() > 0,
        forall|i: int| 0 <= i < s.len() ==> ('0' <= #[trigger] s[i] && s[i] <= '9') || s[i] == '+',
{
    assert forall|i: int| 0 <= i < s.len() implies ('0' <= #[trigger] s[i] && s[i] <= '9') || s[i]
        == '+' by {
        if s[0] == '+' {
            if i > 0 {
                assert(is_digit(s.drop_first()[i - 1]));
            }
        } else {
            assert(is_digit(s[i]));
        }
    }
}

/// What stands in the place of a separator is put there each time, and the rest stays.
pub proof fn law_every_occurrence_is_replaced(a: Seq<char>, p: Seq<char>, r: Seq<char>, b: Seq<char>)
    requires
        p.len() > 0,
        forall|j: int| 0 <= j < a.len() ==> !occurs_at(a + p + b, p, j),
    ensures
        replace(a + p + b, p, r) == a + r + replace(b, p, r),
{
    law_a_text_is_cut_at_its_separator(a, p, b);
    let rest = split_on(b, p);
    lemma_split_len(b, p);
    lemma_join_first(a, rest, r);
    assert(a + r + join(rest, r) =~= a + (r + join(rest, r)));
}

/// A text without the separator is left as it is.
pub proof fn law_nothing_else_is_replaced(s: Seq<char>, p: Seq<char>, r: Seq<char>)
    requires
        !contains(s, p),
    ensures
        replace(s, p, r) == s,
{
    law_a_text_without_separator_stays(s, p);
}

} // verus!
