//! Where the images come from.
//!
//! "Latest" is the hard part. A burn tool that ships a list of fixed URLs is out of date the week
//! after it is built, so most entries describe how to find the newest image (a directory to read, a
//! version to pick) rather than naming one. Entries can also be replaced or added by a table of
//! tab separated values.

use vstd::prelude::*;
use vstd::string::*;

use crate::builtin;
use crate::text;

verus! {

#[derive(Debug, Clone, Copy, PartialEq, Eq, Structural)]
pub enum Family {
    Linux,
    Windows,
    Tool,
}

#[derive(Debug)]
pub enum Source {
    /// A URL that always serves the current image.
    Direct(String),
    /// Read a directory index or a download page and take the newest name matching prefix/suffix.
    /// `reject` is a comma separated list of substrings that drop variants of the same shape (the
    /// mac build, the edu build, a beta), and in a Chain it filters the directories as well.
    Index { dir: String, prefix: String, suffix: String, reject: String },
    /// Take the newest versioned subdirectory, then do the same inside it.
    Chain {
        root: String,
        dir_prefix: String,
        sub: String,
        prefix: String,
        suffix: String,
        reject: String,
    },
    /// The newest GitHub release of a repo, picking the asset ending in `suffix`.
    Github { repo: String, suffix: String },
    /// A Microsoft fwlink that redirects to the real file.
    Fwlink(String),
    /// An archive.org item: take its largest .iso.
    Archive(String),
    /// Microsoft's download page, resolved through their own download connector.
    Windows(String),
}

#[derive(Debug)]
pub struct Iso {
    pub id: String,
    pub name: String,
    pub family: Family,
    pub note: String,
    pub src: Source,
    /// A checksum file in the same directory, if the project publishes one.
    pub sums: Option<String>,
}

/// A source, by the contents of its texts.
pub enum SourceView {
    Direct(Seq<char>),
    Index { dir: Seq<char>, prefix: Seq<char>, suffix: Seq<char>, reject: Seq<char> },
    Chain {
        root: Seq<char>,
        dir_prefix: Seq<char>,
        sub: Seq<char>,
        prefix: Seq<char>,
        suffix: Seq<char>,
        reject: Seq<char>,
    },
    Github { repo: Seq<char>, suffix: Seq<char> },
    Fwlink(Seq<char>),
    Archive(Seq<char>),
    Windows(Seq<char>),
}

/// An entry, by the contents of its texts.
pub struct IsoView {
    pub id: Seq<char>,
    pub name: Seq<char>,
    pub family: Family,
    pub note: Seq<char>,
    pub src: SourceView,
    pub sums: Option<Seq<char>>,
}

impl View for Source {
    type V = SourceView;

    open spec fn view(&self) -> SourceView {
        match self {
            Source::Direct(u) => SourceView::Direct(u@),
            Source::Index { dir, prefix, suffix, reject } => SourceView::Index {
                dir: dir@,
                prefix: prefix@,
                suffix: suffix@,
                reject: reject@,
            },
            Source::Chain { root, dir_prefix, sub, prefix, suffix, reject } => SourceView::Chain {
                root: root@,
                dir_prefix: dir_prefix@,
                sub: sub@,
                prefix: prefix@,
                suffix: suffix@,
                reject: reject@,
            },
            Source::Github { repo, suffix } => SourceView::Github { repo: repo@, suffix: suffix@ },
            Source::Fwlink(u) => SourceView::Fwlink(u@),
            Source::Archive(i) => SourceView::Archive(i@),
            Source::Windows(p) => SourceView::Windows(p@),
        }
    }
}

impl View for Iso {
    type V = IsoView;

    open spec fn view(&self) -> IsoView {
        IsoView {
            id: self.id@,
            name: self.name@,
            family: self.family,
            note: self.note@,
            src: self.src@,
            sums: text::text_opt(self.sums),
        }
    }
}

impl Clone for Source {
    fn clone(&self) -> (r: Self)
        ensures
            r@ == self@,
    {
        match self {
            Source::Direct(u) => Source::Direct(u.clone()),
            Source::Index { dir, prefix, suffix, reject } => Source::Index {
                dir: dir.clone(),
                prefix: prefix.clone(),
                suffix: suffix.clone(),
                reject: reject.clone(),
            },
            Source::Chain { root, dir_prefix, sub, prefix, suffix, reject } => Source::Chain {
                root: root.clone(),
                dir_prefix: dir_prefix.clone(),
                sub: sub.clone(),
                prefix: prefix.clone(),
                suffix: suffix.clone(),
                reject: reject.clone(),
            },
            Source::Github { repo, suffix } => Source::Github {
                repo: repo.clone(),
                suffix: suffix.clone(),
            },
            Source::Fwlink(u) => Source::Fwlink(u.clone()),
            Source::Archive(i) => Source::Archive(i.clone()),
            Source::Windows(p) => Source::Windows(p.clone()),
        }
    }
}

impl Clone for Iso {
    fn clone(&self) -> (r: Self)
        ensures
            r@ == self@,
    {
        Iso {
            id: self.id.clone(),
            name: self.name.clone(),
            family: self.family,
            note: self.note.clone(),
            src: self.src.clone(),
            sums: match &self.sums {
                Some(s) => Some(s.clone()),
                None => None,
            },
        }
    }
}

pub open spec fn isos_view(v: Seq<Iso>) -> Seq<IsoView> {
    Seq::new(v.len(), |i: int| v[i]@)
}

// ---- families -------------------------------------------------------------------------------

impl Family {
    pub open spec fn label_text(self) -> Seq<char> {
        match self {
            Family::Linux => "linux"@,
            Family::Windows => "windows"@,
            Family::Tool => "tool"@,
        }
    }

    /// The family that a text names; what names no other is Linux.
    pub open spec fn named(s: Seq<char>) -> Family {
        let w = text::lower(text::trim(s));
        if w == "windows"@ {
            Family::Windows
        } else if w == "tool"@ {
            Family::Tool
        } else {
            Family::Linux
        }
    }

    pub fn label(&self) -> (r: &'static str)
        ensures
            r@ == self.label_text(),
    {
        match self {
            Family::Linux => "linux",
            Family::Windows => "windows",
            Family::Tool => "tool",
        }
    }

    pub fn parse(s: &[char]) -> (r: Family)
        ensures
            r == Family::named(s@),
    {
        let w: Vec<char> = text::lowered(text::trimmed(s));
        if text::same_str(&w, "windows") {
            Family::Windows
        } else if text::same_str(&w, "tool") {
            Family::Tool
        } else {
            Family::Linux
        }
    }
}

/// The label of a family names it.
pub proof fn law_label_names_family(f: Family)
    ensures
        Family::named(f.label_text()) == f,
{
    reveal_strlit("linux");
    reveal_strlit("windows");
    reveal_strlit("tool");
    let w = f.label_text();
    assert(text::lower(w) =~= w);
    assert(text::trim_start(w) == w);
    assert(text::trim_end(w) == w);
    if f is Linux {
        assert(w[0] == 'l');
    }
}

// ---- the table of tab separated values ------------------------------------------------------

pub open spec fn part_or_empty(p: Seq<Seq<char>>, i: int) -> Seq<char> {
    if i < p.len() {
        p[i]
    } else {
        seq![]
    }
}

/// A source as a table writes it: its kind, a colon, and its parts with bars between them.
pub open spec fn source_of(spec: Seq<char>) -> Option<SourceView> {
    match text::split_once(spec, ':') {
        None => None,
        Some((kind, rest)) => {
            let k = text::trim(kind);
            let p = text::split(rest, '|');
            if k == "direct"@ {
                Some(SourceView::Direct(rest))
            } else if k == "archive"@ {
                Some(SourceView::Archive(rest))
            } else if k == "windows"@ {
                Some(SourceView::Windows(rest))
            } else if k == "github"@ && p.len() >= 2 {
                Some(SourceView::Github { repo: p[0], suffix: p[1] })
            } else if k == "fwlink"@ {
                Some(SourceView::Fwlink(rest))
            } else if k == "index"@ && p.len() >= 3 {
                Some(
                    SourceView::Index {
                        dir: p[0],
                        prefix: p[1],
                        suffix: p[2],
                        reject: part_or_empty(p, 3),
                    },
                )
            } else if k == "chain"@ && p.len() >= 5 {
                Some(
                    SourceView::Chain {
                        root: p[0],
                        dir_prefix: p[1],
                        sub: p[2],
                        prefix: p[3],
                        suffix: p[4],
                        reject: part_or_empty(p, 5),
                    },
                )
            } else {
                None
            }
        },
    }
}

/// The entry that a line of a table writes; empty lines, comments and lines that lack a field or a
/// known source write none.
pub open spec fn entry_of(line: Seq<char>) -> Option<IsoView> {
    let l = text::trim_end(line);
    let f = text::split(l, '\t');
    if l.len() == 0 || l[0] == '#' || f.len() < 5 {
        None
    } else {
        match source_of(f[4]) {
            None => None,
            Some(src) => Some(
                IsoView {
                    id: text::trim(f[0]),
                    name: text::trim(f[1]),
                    family: Family::named(f[2]),
                    note: text::trim(f[3]),
                    src,
                    sums: if f.len() > 5 && text::trim(f[5]).len() > 0 {
                        Some(text::trim(f[5]))
                    } else {
                        None
                    },
                },
            ),
        }
    }
}

pub open spec fn entries_of(ls: Seq<Seq<char>>) -> Seq<IsoView>
    decreases ls.len(),
{
    if ls.len() == 0 {
        seq![]
    } else {
        match entry_of(ls.last()) {
            Some(e) => entries_of(ls.drop_last()).push(e),
            None => entries_of(ls.drop_last()),
        }
    }
}

pub open spec fn source_opt(s: Option<Source>) -> Option<SourceView> {
    match s {
        Some(x) => Some(x@),
        None => None,
    }
}

pub open spec fn iso_opt(s: Option<Iso>) -> Option<IsoView> {
    match s {
        Some(x) => Some(x@),
        None => None,
    }
}

fn part_or(p: &Vec<Vec<char>>, i: usize) -> (r: String)
    ensures
        r@ == part_or_empty(text::texts(p@), i as int),
{
    if i < p.len() {
        assert(text::texts(p@)[i as int] == p@[i as int]@);
        text::string_of(&p[i])
    } else {
        assert(Seq::<char>::empty() =~= seq![]);
        String::new()
    }
}

pub fn parse_source(spec: &[char]) -> (r: Option<Source>)
    ensures
        source_opt(r) == source_of(spec@),
{
    let mut colon: Vec<char> = Vec::new();
    colon.push(':');
    assert(colon@ =~= seq![':']);
    let at: usize = match text::position_from(spec, &colon, 0) {
        Some(i) => i,
        None => {
            return None;
        },
    };
    let n: usize = spec.len();
    let kind: &[char] = vstd::slice::slice_subrange(spec, 0, at);
    let rest: &[char] = vstd::slice::slice_subrange(spec, at + 1, n);
    assert(kind@ =~= spec@.take(at as int));
    assert(rest@ =~= spec@.skip(at + 1));
    let k: &[char] = text::trimmed(kind);
    let p: Vec<Vec<char>> = text::pieces_at(rest, '|');
    if text::same_str(k, "direct") {
        Some(Source::Direct(text::string_of(rest)))
    } else if text::same_str(k, "archive") {
        Some(Source::Archive(text::string_of(rest)))
    } else if text::same_str(k, "windows") {
        Some(Source::Windows(text::string_of(rest)))
    } else if text::same_str(k, "github") && p.len() >= 2 {
        Some(Source::Github { repo: part_or(&p, 0), suffix: part_or(&p, 1) })
    } else if text::same_str(k, "fwlink") {
        Some(Source::Fwlink(text::string_of(rest)))
    } else if text::same_str(k, "index") && p.len() >= 3 {
        Some(
            Source::Index {
                dir: part_or(&p, 0),
                prefix: part_or(&p, 1),
                suffix: part_or(&p, 2),
                reject: part_or(&p, 3),
            },
        )
    } else if text::same_str(k, "chain") && p.len() >= 5 {
        Some(
            Source::Chain {
                root: part_or(&p, 0),
                dir_prefix: part_or(&p, 1),
                sub: part_or(&p, 2),
                prefix: part_or(&p, 3),
                suffix: part_or(&p, 4),
                reject: part_or(&p, 5),
            },
        )
    } else {
        None
    }
}

fn parse_entry(line: &[char]) -> (r: Option<Iso>)
    ensures
        iso_opt(r) == entry_of(line@),
{
    let l: &[char] = text::trimmed_end(line);
    if l.len() == 0 || l[0] == '#' {
        return None;
    }
    let f: Vec<Vec<char>> = text::pieces_at(l, '\t');
    let ghost fields = text::texts(f@);
    if f.len() < 5 {
        return None;
    }
    assert(forall|i: int| 0 <= i < f@.len() ==> fields[i] == #[trigger] f@[i]@);
    let src: Source = match parse_source(&f[4]) {
        Some(s) => s,
        None => {
            return None;
        },
    };
    let sums: Option<String> = if f.len() > 5 && text::trimmed(&f[5]).len() > 0 {
        Some(text::string_of(text::trimmed(&f[5])))
    } else {
        None
    };
    Some(
        Iso {
            id: text::string_of(text::trimmed(&f[0])),
            name: text::string_of(text::trimmed(&f[1])),
            family: Family::parse(&f[2]),
            note: text::string_of(text::trimmed(&f[3])),
            src,
            sums,
        },
    )
}

/// Read a table: id, name, family, note, source and sums, with tabs between them.
///
/// source: direct:URL | index:DIR|PREFIX|SUFFIX[|REJECT] |
/// chain:ROOT|DIRPREFIX|SUB|PREFIX|SUFFIX[|REJECT] | github:OWNER/REPO|SUFFIX | archive:ID |
/// fwlink:URL | windows:URL
pub fn parse_tsv(body: &str) -> (r: Vec<Iso>)
    ensures
        isos_view(r@) == entries_of(text::lines(body@)),
{
    let ls: Vec<Vec<char>> = text::lines_of(&text::chars_of(body));
    let ghost all = text::texts(ls@);
    let mut out: Vec<Iso> = Vec::new();
    let mut i: usize = 0;
    while i < ls.len()
        invariant
            i <= ls@.len(),
            all == text::texts(ls@),
            isos_view(out@) =~= entries_of(all.take(i as int)),
        decreases ls@.len() - i,
    {
        assert(all.take(i + 1).drop_last() =~= all.take(i as int));
        assert(all.take(i + 1).last() == ls@[i as int]@);
        if let Some(e) = parse_entry(&ls[i]) {
            let ghost before = isos_view(out@);
            let ghost ev = e@;
            out.push(e);
            assert(isos_view(out@) =~= before.push(ev));
        }
        i += 1;
    }
    assert(all.take(i as int) =~= all);
    out
}

// ---- layering one catalog over another ------------------------------------------------------

/// The first entry from `i` on with the given id.
pub open spec fn entry_from(v: Seq<IsoView>, id: Seq<char>, i: int) -> Option<int>
    decreases v.len() - i,
{
    if i < 0 || i >= v.len() {
        None
    } else if v[i].id == id {
        Some(i)
    } else {
        entry_from(v, id, i + 1)
    }
}

/// The catalog with an entry in the place of the one with its id, or at the end.
pub open spec fn placed(v: Seq<IsoView>, e: IsoView) -> Seq<IsoView> {
    match entry_from(v, e.id, 0) {
        Some(i) => v.update(i, e),
        None => v.push(e),
    }
}

/// The catalog with each entry placed over it in turn.
pub open spec fn layered(v: Seq<IsoView>, over: Seq<IsoView>) -> Seq<IsoView>
    decreases over.len(),
{
    if over.len() == 0 {
        v
    } else {
        placed(layered(v, over.drop_last()), over.last())
    }
}

/// The catalog with each table layered over it in turn.
pub open spec fn layered_tables(v: Seq<IsoView>, bodies: Seq<Seq<char>>) -> Seq<IsoView>
    decreases bodies.len(),
{
    if bodies.len() == 0 {
        v
    } else {
        layered(layered_tables(v, bodies.drop_last()), entries_of(text::lines(bodies.last())))
    }
}

/// Where the entry with an id stands in a catalog.
pub fn position_of(list: &Vec<Iso>, id: &str) -> (r: Option<usize>)
    ensures
        match r {
            Some(i) => entry_from(isos_view(list@), id@, 0) == Some(i as int) && i < list@.len(),
            None => entry_from(isos_view(list@), id@, 0) is None,
        },
{
    let want: Vec<char> = text::chars_of(id);
    let mut i: usize = 0;
    while i < list.len()
        invariant
            i <= list@.len(),
            want@ == id@,
            entry_from(isos_view(list@), id@, 0) == entry_from(isos_view(list@), id@, i as int),
        decreases list@.len() - i,
    {
        assert(isos_view(list@)[i as int].id == list@[i as int].id@);
        if text::same_str(&want, list[i].id.as_str()) {
            return Some(i);
        }
        i += 1;
    }
    None
}

fn place(list: &mut Vec<Iso>, e: Iso)
    ensures
        isos_view(final(list)@) == placed(isos_view(old(list)@), e@),
{
    let ghost before = isos_view(list@);
    let ghost ev = e@;
    match position_of(list, e.id.as_str()) {
        Some(i) => {
            list[i] = e;
            assert(isos_view(list@) =~= before.update(i as int, ev));
        },
        None => {
            list.push(e);
            assert(isos_view(list@) =~= before.push(ev));
        },
    }
}

/// Layer the entries of a table over a catalog by id.
pub fn layer(list: &mut Vec<Iso>, body: &str)
    ensures
        isos_view(final(list)@) == layered(
            isos_view(old(list)@),
            entries_of(text::lines(body@)),
        ),
{
    let ghost before = isos_view(list@);
    let mut over: Vec<Iso> = parse_tsv(body);
    let ghost all = isos_view(over@);
    let ghost mut k: int = 0;
    assert(all.take(0) =~= seq![]);
    assert(all.skip(0) =~= all);
    while over.len() > 0
        invariant
            0 <= k <= all.len(),
            isos_view(over@) =~= all.skip(k),
            isos_view(list@) == layered(before, all.take(k)),
        decreases over@.len(),
    {
        let ghost rest = isos_view(over@);
        let e: Iso = over.remove(0);
        assert(rest[0] == e@);
        assert(isos_view(over@) =~= rest.drop_first());
        place(list, e);
        assert(all.take(k + 1).drop_last() =~= all.take(k));
        proof {
            k = k + 1;
        }
    }
    assert(all.take(k) =~= all);
}

/// Built-in entries, with the tables of the user and of the system layered over them by id.
/// `bodies` holds the text of each table that could be read, in the order of [`overlay_paths`].
pub fn all(bodies: &Vec<String>) -> (r: Vec<Iso>)
    ensures
        isos_view(r@) == layered_tables(builtin::builtin_view(), text::strings(bodies@)),
{
    let mut list: Vec<Iso> = builtin::builtin();
    let ghost texts = text::strings(bodies@);
    let mut i: usize = 0;
    assert(texts.take(0) =~= seq![]);
    while i < bodies.len()
        invariant
            i <= bodies@.len(),
            texts == text::strings(bodies@),
            isos_view(list@) == layered_tables(builtin::builtin_view(), texts.take(i as int)),
        decreases bodies@.len() - i,
    {
        assert(texts.take(i + 1).drop_last() =~= texts.take(i as int));
        assert(texts.take(i + 1).last() == bodies@[i as int]@);
        layer(&mut list, bodies[i].as_str());
        i += 1;
    }
    assert(texts.take(i as int) =~= texts);
    list
}

pub open spec fn overlay_places(variable: Option<Seq<char>>, home: Option<Seq<char>>) -> Seq<
    Seq<char>,
> {
    let a: Seq<Seq<char>> = match variable {
        Some(p) => seq![p],
        None => seq![],
    };
    let b = match home {
        Some(h) => a.push(h + "/.config/arxburn/catalog.tsv"@),
        None => a,
    };
    b.push("/etc/arxburn/catalog.tsv"@)
}

/// Where the tables are: the place that `ARXBURN_CATALOG` names, the user's, and the system's.
pub fn overlay_paths(variable: Option<String>, home: Option<String>) -> (r: Vec<String>)
    ensures
        text::strings(r@) == overlay_places(text::text_opt(variable), text::text_opt(home)),
{
    let mut v: Vec<String> = Vec::new();
    if let Some(p) = variable {
        v.push(p);
    }
    if let Some(h) = home {
        let mut p: String = h;
        p.append("/.config/arxburn/catalog.tsv");
        v.push(p);
    }
    v.push("/etc/arxburn/catalog.tsv".to_owned());
    assert(text::strings(v@) =~= overlay_places(text::text_opt(variable), text::text_opt(home)));
    v
}

// ---- what layering promises -----------------------------------------------------------------

/// No two entries have the same id.
pub open spec fn distinct_ids(v: Seq<IsoView>) -> bool {
    forall|i: int, j: int| 0 <= i < j < v.len() ==> (#[trigger] v[i]).id != (#[trigger] v[j]).id
}

proof fn lemma_entry_from(v: Seq<IsoView>, id: Seq<char>, i: int)
    requires
        0 <= i,
    ensures
        match entry_from(v, id, i) {
            Some(k) => i <= k < v.len() && v[k].id == id && forall|j: int|
                i <= j < k ==> (#[trigger] v[j]).id != id,
            None => forall|j: int| i <= j < v.len() ==> (#[trigger] v[j]).id != id,
        },
    decreases v.len() - i,
{
    if i < v.len() && v[i].id != id {
        lemma_entry_from(v, id, i + 1);
    }
}

/// The entry that a catalog has under an id.
pub open spec fn lookup(v: Seq<IsoView>, id: Seq<char>) -> Option<IsoView> {
    match entry_from(v, id, 0) {
        Some(i) => Some(v[i]),
        None => None,
    }
}

/// The last entry under an id.
pub open spec fn last_lookup(v: Seq<IsoView>, id: Seq<char>) -> Option<IsoView>
    decreases v.len(),
{
    if v.len() == 0 {
        None
    } else if v.last().id == id {
        Some(v.last())
    } else {
        last_lookup(v.drop_last(), id)
    }
}

proof fn lemma_placed(v: Seq<IsoView>, e: IsoView, id: Seq<char>)
    requires
        distinct_ids(v),
    ensures
        distinct_ids(placed(v, e)),
        placed(v, e).len() >= v.len(),
        lookup(placed(v, e), id) == if e.id == id {
            Some(e)
        } else {
            lookup(v, id)
        },
        forall|i: int| 0 <= i < v.len() ==> (#[trigger] placed(v, e)[i]).id == v[i].id,
        forall|i: int|
            0 <= i < v.len() && v[i].id != e.id ==> (#[trigger] placed(v, e)[i]) == v[i],
{
    let w = placed(v, e);
    lemma_entry_from(v, e.id, 0);
    lemma_entry_from(v, id, 0);
    lemma_entry_from(w, id, 0);
    assert forall|i: int, j: int| 0 <= i < j < w.len() implies (#[trigger] w[i]).id != (
    #[trigger] w[j]).id by {
        if i < v.len() && j < v.len() {
            assert(v[i].id != v[j].id);
        }
    }
    match entry_from(w, id, 0) {
        Some(k) => {
            if e.id != id {
                assert(k < v.len() && v[k] == w[k]);
                match entry_from(v, id, 0) {
                    Some(m) => {
                        assert(v[m].id == id);
                    },
                    None => {},
                }
            } else if k < v.len() {
                assert(v[k].id == id);
            }
        },
        None => {
            if e.id == id {
                match entry_from(v, id, 0) {
                    Some(m) => {
                        assert(w[m] == e);
                    },
                    None => {
                        assert(w[v.len() as int] == e);
                    },
                }
            } else {
                match entry_from(v, id, 0) {
                    Some(m) => {
                        assert(w[m] == v[m]);
                    },
                    None => {},
                }
            }
        },
    }
}

/// An entry with an existing id replaces the one that was there, in its place; one with a new id is
/// added; every other entry stays as it was. Ids stay distinct, so each names one entry.
pub proof fn law_overlay_replaces_by_id(v: Seq<IsoView>, over: Seq<IsoView>, id: Seq<char>)
    requires
        distinct_ids(v),
    ensures
        distinct_ids(layered(v, over)),
        layered(v, over).len() >= v.len(),
        lookup(layered(v, over), id) == match last_lookup(over, id) {
            Some(e) => Some(e),
            None => lookup(v, id),
        },
        forall|i: int| 0 <= i < v.len() ==> (#[trigger] layered(v, over)[i]).id == v[i].id,
        forall|i: int|
            0 <= i < v.len() && last_lookup(over, v[i].id) is None ==> (#[trigger] layered(
                v,
                over,
            )[i]) == v[i],
    decreases over.len(),
{
    if over.len() > 0 {
        law_overlay_replaces_by_id(v, over.drop_last(), id);
        let w = layered(v, over.drop_last());
        lemma_placed(w, over.last(), id);
        assert forall|i: int|
            0 <= i < v.len() && last_lookup(over, v[i].id) is None implies (#[trigger] layered(
            v,
            over,
        )[i]) == v[i] by {
            assert(w[i] == v[i]);
        }
    }
}

/// However many tables are layered over the built-in entries, each id names one entry, and no
/// built-in id is lost.
pub proof fn law_catalog_ids_are_distinct(bodies: Seq<Seq<char>>)
    ensures
        distinct_ids(layered_tables(builtin::builtin_view(), bodies)),
        layered_tables(builtin::builtin_view(), bodies).len() >= builtin::builtin_view().len(),
        forall|i: int|
            0 <= i < builtin::builtin_view().len() ==> (#[trigger] layered_tables(
                builtin::builtin_view(),
                bodies,
            )[i]).id == builtin::builtin_view()[i].id,
    decreases bodies.len(),
{
    if bodies.len() == 0 {
        builtin::law_builtin_ids_are_distinct();
    } else {
        law_catalog_ids_are_distinct(bodies.drop_last());
        law_overlay_replaces_by_id(
            layered_tables(builtin::builtin_view(), bodies.drop_last()),
            entries_of(text::lines(bodies.last())),
            seq![],
        );
    }
}

// ---- tables in full -------------------------------------------------------------------------

/// The family is read in capitals or not and with white space around it, and whatever is not known is a
/// Linux.
pub proof fn law_a_family_is_read_in_any_case(a: Seq<char>, s: Seq<char>, b: Seq<char>)
    requires
        text::blank(a),
        text::blank(b),
    ensures
        text::lower(s) == "windows"@ ==> Family::named(a + s + b) is Windows,
        text::lower(s) == "tool"@ ==> Family::named(a + s + b) is Tool,
        s.len() > 0 && !text::is_space(s[0]) && !text::is_space(s.last()) && text::lower(s) != "windows"@
            && text::lower(s) != "tool"@ ==> Family::named(a + s + b) is Linux,
{
    reveal_strlit("windows");
    reveal_strlit("tool");
    text::law_white_space_around_is_ignored(a, s, b);
    if text::lower(s) == "windows"@ || text::lower(s) == "tool"@ {
        assert(text::lower(s).len() == s.len());
        lemma_letter_stays(s, 0);
        lemma_letter_stays(s, s.len() - 1);
        text::law_a_trimmed_text_stays(s);
        if text::lower(s) == "tool"@ {
            assert("tool"@.len() != "windows"@.len());
        }
    }
    if s.len() > 0 && !text::is_space(s[0]) && !text::is_space(s.last()) {
        text::law_a_trimmed_text_stays(s);
    }
}

proof fn lemma_letter_stays(s: Seq<char>, i: int)
    requires
        0 <= i < s.len(),
        'a' <= text::lower(s)[i] && text::lower(s)[i] <= 'z',
    ensures
        !text::is_space(s[i]),
{
}

proof fn lemma_cut_at_colon(kind: Seq<char>, rest: Seq<char>)
    requires
        text::lacks(kind, ':'),
    ensures
        text::split_once(kind + seq![':'] + rest, ':') == Some((kind, rest)),
{
    let p = seq![':'];
    let s = kind + p + rest;
    let n = kind.len() as int;
    text::lemma_find_from(s, p, 0);
    assert(s.subrange(n, n + 1) =~= p);
    assert(text::occurs_at(s, p, n));
    assert forall|j: int| 0 <= j < n implies !text::occurs_at(s, p, j) by {
        assert(s.subrange(j, j + 1)[0] == s[j]);
        assert(s[j] == kind[j]);
        assert(p[0] == ':');
    }
    assert(text::find(s, p) == Some(n));
    assert(s.take(n) =~= kind);
    assert(s.skip(n + 1) =~= rest);
}

/// A source says what kind it is before its first colon, white space around it aside, and everything
/// after that colon belongs to it; a kind that is not known is no source, and neither is a text without a
/// colon.
pub proof fn law_a_source_names_its_kind(a: Seq<char>, kind: Seq<char>, b: Seq<char>, rest: Seq<char>)
    requires
        text::blank(a),
        text::blank(b),
        text::lacks(kind, ':'),
        kind.len() > 0 && !text::is_space(kind[0]) && !text::is_space(kind.last()),
    ensures
        ({
            let s = source_of(a + kind + b + seq![':'] + rest);
            &&& kind == "direct"@ ==> s == Some(SourceView::Direct(rest))
            &&& kind == "archive"@ ==> s == Some(SourceView::Archive(rest))
            &&& kind == "windows"@ ==> s == Some(SourceView::Windows(rest))
            &&& kind == "fwlink"@ ==> s == Some(SourceView::Fwlink(rest))
            &&& kind != "direct"@ && kind != "archive"@ && kind != "windows"@ && kind != "fwlink"@ && kind
                != "github"@ && kind != "index"@ && kind != "chain"@ ==> s is None
        }),
        source_of(kind) is None,
{
    lemma_kinds_differ();
    let k = a + kind + b;
    assert forall|i: int| 0 <= i < k.len() implies #[trigger] k[i] != ':' by {
        if i < a.len() {
            assert(text::is_space(a[i]));
        } else if i < a.len() + kind.len() {
            assert(k[i] == kind[i - a.len()]);
        } else {
            assert(text::is_space(b[i - a.len() - kind.len()]));
        }
    }
    lemma_cut_at_colon(k, rest);
    text::law_white_space_around_is_ignored(a, kind, b);
    text::law_a_trimmed_text_stays(kind);
    text::lemma_split_none(kind, ':');
    text::lemma_find_from(kind, seq![':'], 0);
    if let Some(i) = text::find(kind, seq![':']) {
        assert(kind.subrange(i, i + 1)[0] == kind[i]);
        assert(seq![':'][0] == ':');
    }
}

proof fn lemma_kinds_differ()
    ensures
        "direct"@ != "archive"@ && "direct"@ != "windows"@ && "direct"@ != "github"@ && "direct"@
            != "fwlink"@ && "direct"@ != "index"@ && "direct"@ != "chain"@,
        "archive"@ != "windows"@ && "archive"@ != "github"@ && "archive"@ != "fwlink"@ && "archive"@
            != "index"@ && "archive"@ != "chain"@,
        "windows"@ != "github"@ && "windows"@ != "fwlink"@ && "windows"@ != "index"@ && "windows"@
            != "chain"@,
        "github"@ != "fwlink"@ && "github"@ != "index"@ && "github"@ != "chain"@,
        "fwlink"@ != "index"@ && "fwlink"@ != "chain"@,
        "index"@ != "chain"@,
{
    reveal_strlit("direct");
    reveal_strlit("archive");
    reveal_strlit("windows");
    reveal_strlit("github");
    reveal_strlit("fwlink");
    reveal_strlit("index");
    reveal_strlit("chain");
    assert("direct"@[0] == 'd' && "archive"@[0] == 'a' && "windows"@[0] == 'w' && "github"@[0] == 'g'
        && "fwlink"@[0] == 'f' && "index"@[0] == 'i' && "chain"@[0] == 'c');
}

/// The parts of a source stand between bars, in a fixed order. The variants to leave out may be missing;
/// any other part may not.
pub proof fn law_the_parts_of_a_source_stand_between_bars(
    x: Seq<char>,
    y: Seq<char>,
    z: Seq<char>,
    u: Seq<char>,
    v: Seq<char>,
    r: Seq<char>,
)
    requires
        text::lacks(x, '|') && text::lacks(y, '|') && text::lacks(z, '|') && text::lacks(u, '|')
            && text::lacks(v, '|') && text::lacks(r, '|'),
    ensures
        ({
            let bar = seq!['|'];
            let two = x + bar + y;
            let three = two + bar + z;
            let four = three + bar + u;
            let five = four + bar + v;
            let six = five + bar + r;
            let github = "github"@ + seq![':'];
            let index = "index"@ + seq![':'];
            let chain = "chain"@ + seq![':'];
            &&& source_of(github + two) == Some(SourceView::Github { repo: x, suffix: y })
            &&& source_of(github + x) is None
            &&& source_of(index + two) is None
            &&& source_of(index + three) == Some(
                SourceView::Index { dir: x, prefix: y, suffix: z, reject: Seq::empty() },
            )
            &&& source_of(index + four) == Some(
                SourceView::Index { dir: x, prefix: y, suffix: z, reject: u },
            )
            &&& source_of(chain + four) is None
            &&& source_of(chain + five) == Some(
                SourceView::Chain {
                    root: x,
                    dir_prefix: y,
                    sub: z,
                    prefix: u,
                    suffix: v,
                    reject: Seq::empty(),
                },
            )
            &&& source_of(chain + six) == Some(
                SourceView::Chain { root: x, dir_prefix: y, sub: z, prefix: u, suffix: v, reject: r },
            )
        }),
{
    let bar = seq!['|'];
    let two = x + bar + y;
    let three = two + bar + z;
    let four = three + bar + u;
    let five = four + bar + v;
    let six = five + bar + r;
    text::lemma_split_none(x, '|');
    text::lemma_split_tail(x, '|', y);
    text::lemma_split_tail(two, '|', z);
    text::lemma_split_tail(three, '|', u);
    text::lemma_split_tail(four, '|', v);
    text::lemma_split_tail(five, '|', r);
    lemma_kinds_differ();
    lemma_kind_word("github"@, x);
    lemma_kind_word("github"@, two);
    lemma_kind_word("index"@, two);
    lemma_kind_word("index"@, three);
    lemma_kind_word("index"@, four);
    lemma_kind_word("chain"@, four);
    lemma_kind_word("chain"@, five);
    lemma_kind_word("chain"@, six);
}

proof fn lemma_kind_word(kind: Seq<char>, rest: Seq<char>)
    requires
        kind == "github"@ || kind == "index"@ || kind == "chain"@,
    ensures
        text::split_once(kind + seq![':'] + rest, ':') == Some((kind, rest)),
        text::trim(kind) == kind,
{
    reveal_strlit("github");
    reveal_strlit("index");
    reveal_strlit("chain");
    assert forall|i: int| 0 <= i < kind.len() implies #[trigger] kind[i] != ':' && !text::is_space(
        kind[i],
    ) by {
        text::law_what_white_space_is(kind[i]);
    }
    lemma_cut_at_colon(kind, rest);
    assert(!text::is_space(kind[0]) && !text::is_space(kind[kind.len() - 1]));
    text::law_a_trimmed_text_stays(kind);
}

/// A line of a table gives an image: its id, name, family, note and source stand between tabs, and a
/// checksum file may follow. White space around them is left out.
pub proof fn law_a_line_gives_an_image(
    id: Seq<char>,
    name: Seq<char>,
    family: Seq<char>,
    note: Seq<char>,
    src: Seq<char>,
    sums: Seq<char>,
)
    requires
        text::lacks(id, '\t') && text::lacks(name, '\t') && text::lacks(family, '\t') && text::lacks(
            note,
            '\t',
        ) && text::lacks(src, '\t') && text::lacks(sums, '\t'),
        id.len() > 0 && id[0] != '#',
        src.len() > 0 && !text::is_space(src.last()),
        sums.len() > 0 && !text::is_space(sums[0]) && !text::is_space(sums.last()),
    ensures
        ({
            let tab = seq!['\t'];
            let line = id + tab + name + tab + family + tab + note + tab + src;
            let with_sums = line + tab + sums;
            &&& source_of(src) is None ==> entry_of(line) is None && entry_of(with_sums) is None
            &&& source_of(src) is Some ==> entry_of(line) == Some(
                IsoView {
                    id: text::trim(id),
                    name: text::trim(name),
                    family: Family::named(family),
                    note: text::trim(note),
                    src: source_of(src)->0,
                    sums: None,
                },
            )
            &&& source_of(src) is Some ==> entry_of(with_sums) == Some(
                IsoView {
                    id: text::trim(id),
                    name: text::trim(name),
                    family: Family::named(family),
                    note: text::trim(note),
                    src: source_of(src)->0,
                    sums: Some(sums),
                },
            )
        }),
{
    let tab = seq!['\t'];
    let one = id + tab + name;
    let two = one + tab + family;
    let three = two + tab + note;
    let line = three + tab + src;
    let with_sums = line + tab + sums;
    text::lemma_split_none(id, '\t');
    text::lemma_split_tail(id, '\t', name);
    text::lemma_split_tail(one, '\t', family);
    text::lemma_split_tail(two, '\t', note);
    text::lemma_split_tail(three, '\t', src);
    text::lemma_split_tail(line, '\t', sums);
    assert(line.last() == src.last());
    assert(with_sums.last() == sums.last());
    assert(text::trim_end(line) == line);
    assert(text::trim_end(with_sums) == with_sums);
    assert(line[0] == id[0] && with_sums[0] == id[0]);
    text::law_a_trimmed_text_stays(sums);
}

/// A table is read line by line; what is blank or begins with `#` gives nothing, and neither does a line
/// with fewer than five fields.
pub proof fn law_a_table_is_read_line_by_line(ls: Seq<Seq<char>>, line: Seq<char>, rest: Seq<char>)
    ensures
        entries_of(Seq::empty()).len() == 0,
        entry_of(line) is Some ==> entries_of(ls.push(line)) == entries_of(ls).push(entry_of(line)->0),
        entry_of(line) is None ==> entries_of(ls.push(line)) == entries_of(ls),
        text::blank(line) ==> entry_of(line) is None,
        entry_of(seq!['#'] + rest) is None,
        text::split(text::trim_end(line), '\t').len() < 5 ==> entry_of(line) is None,
{
    assert(ls.push(line).drop_last() =~= ls);
    if text::blank(line) {
        lemma_blank_line(line);
    }
    lemma_comment(seq!['#'] + rest);
}

proof fn lemma_blank_line(line: Seq<char>)
    requires
        text::blank(line),
    ensures
        text::trim_end(line).len() == 0,
    decreases line.len(),
{
    if line.len() > 0 {
        assert(text::is_space(line[line.len() - 1]));
        assert forall|i: int| 0 <= i < line.drop_last().len() implies text::is_space(
            #[trigger] line.drop_last()[i],
        ) by {
            assert(line.drop_last()[i] == line[i]);
        }
        lemma_blank_line(line.drop_last());
    }
}

proof fn lemma_comment(line: Seq<char>)
    requires
        line.len() > 0,
        line[0] == '#',
    ensures
        text::trim_end(line).len() > 0 && text::trim_end(line)[0] == '#',
    decreases line.len(),
{
    if text::is_space(line.last()) {
        assert(line.len() > 1) by {
            text::law_what_white_space_is('#');
        }
        assert(line.drop_last()[0] == '#');
        lemma_comment(line.drop_last());
    }
}

/// The tables that may add to the catalog: the one that is named first, then the one of the user, then
/// the one of the machine, so that the machine's has the last word.
pub proof fn law_where_tables_may_be(variable: Option<Seq<char>>, home: Option<Seq<char>>)
    ensures
        ({
            let v = overlay_places(variable, home);
            &&& v.last() == "/etc/arxburn/catalog.tsv"@
            &&& variable is Some ==> v[0] == variable->0
            &&& home is Some ==> v.len() > 1 && v[v.len() - 2] == home->0
                + "/.config/arxburn/catalog.tsv"@
            &&& v.len() == 1 + (if variable is Some {
                1int
            } else {
                0
            }) + (if home is Some {
                1int
            } else {
                0
            })
        }),
{
}

} // verus!
