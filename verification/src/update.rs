//! Finding out about a newer release, and replacing this one only with what its project published.

use vstd::prelude::*;
use vstd::string::*;

use crate::json;
use crate::pick;
use crate::say;
use crate::say::{no_notes, one_note, Note};
use crate::text;

verus! {

pub const REPO: &'static str = "0xb0rn3/arxburn";

// ---- versions -------------------------------------------------------------------------------

/// The number of a part of a version; what is no number counts as zero.
pub open spec fn part_number(s: Seq<char>) -> u64 {
    match text::parse_u64(s) {
        Some(n) => n,
        None => 0,
    }
}

/// The numbers of a dotted version.
pub open spec fn version_of(v: Seq<char>) -> Seq<u64> {
    text::split(v, '.').map_values(|p: Seq<char>| part_number(p))
}

/// Number `i` of a version, which is zero past its end.
pub open spec fn number_at(v: Seq<u64>, i: int) -> u64 {
    if 0 <= i < v.len() {
        v[i]
    } else {
        0
    }
}

/// The first place from `i` on at which the two differ decides for `x`.
pub open spec fn greater_from(x: Seq<u64>, y: Seq<u64>, i: int) -> bool
    decreases x.len() + y.len() - i,
{
    if i >= x.len() && i >= y.len() || i < 0 {
        false
    } else if number_at(x, i) != number_at(y, i) {
        number_at(x, i) > number_at(y, i)
    } else {
        greater_from(x, y, i + 1)
    }
}

pub open spec fn is_newer(a: Seq<char>, b: Seq<char>) -> bool {
    greater_from(version_of(a), version_of(b), 0)
}

fn numbers_of(v: &str) -> (r: Vec<u64>)
    ensures
        r@ == version_of(v@),
{
    let parts: Vec<Vec<char>> = text::pieces_at(&text::chars_of(v), '.');
    let mut out: Vec<u64> = Vec::new();
    let mut i: usize = 0;
    while i < parts.len()
        invariant
            i <= parts@.len(),
            out@.len() == i,
            forall|j: int| 0 <= j < i ==> #[trigger] out@[j] == part_number(parts@[j]@),
        decreases parts@.len() - i,
    {
        out.push(
            match text::number_u64(&parts[i]) {
                Some(n) => n,
                None => 0,
            },
        );
        i += 1;
    }
    assert forall|j: int| 0 <= j < out@.len() implies out@[j] == version_of(v@)[j] by {
        assert(text::split(v@, '.')[j] == parts@[j]@);
    }
    assert(out@ =~= version_of(v@));
    out
}

/// Compare two dotted versions numerically, so 0.10.0 is newer than 0.9.0.
pub fn newer(a: &str, b: &str) -> (r: bool)
    ensures
        r == is_newer(a@, b@),
{
    let x: Vec<u64> = numbers_of(a);
    let y: Vec<u64> = numbers_of(b);
    let mut i: usize = 0;
    while i < x.len() || i < y.len()
        invariant
            x@ == version_of(a@),
            y@ == version_of(b@),
            i <= x@.len() || i <= y@.len(),
            greater_from(x@, y@, 0) == greater_from(x@, y@, i as int),
        decreases x@.len() + y@.len() - i,
    {
        let l: u64 = if i < x.len() {
            x[i]
        } else {
            0
        };
        let r: u64 = if i < y.len() {
            y[i]
        } else {
            0
        };
        if l != r {
            return l > r;
        }
        i += 1;
    }
    false
}

proof fn lemma_greater(x: Seq<u64>, y: Seq<u64>, i: int)
    requires
        0 <= i,
    ensures
        greater_from(x, y, i) <==> exists|k: int|
            #![trigger number_at(x, k)]
            i <= k && number_at(x, k) > number_at(y, k) && forall|j: int|
                #![trigger number_at(x, j)]
                i <= j < k ==> number_at(x, j) == number_at(y, j),
    decreases x.len() + y.len() - i,
{
    if i < x.len() || i < y.len() {
        if number_at(x, i) == number_at(y, i) {
            lemma_greater(x, y, i + 1);
            if greater_from(x, y, i) {
                let k = choose|k: int|
                    #![trigger number_at(x, k)]
                    i + 1 <= k && number_at(x, k) > number_at(y, k) && forall|j: int|
                        #![trigger number_at(x, j)]
                        i + 1 <= j < k ==> number_at(x, j) == number_at(y, j);
                assert(forall|j: int|
                    #![trigger number_at(x, j)]
                    i <= j < k ==> number_at(x, j) == number_at(y, j));
            }
        } else if number_at(x, i) > number_at(y, i) {
            assert(forall|j: int|
                #![trigger number_at(x, j)]
                i <= j < i ==> number_at(x, j) == number_at(y, j));
        } else {
            assert forall|k: int|
                #![trigger number_at(x, k)]
                i <= k && number_at(x, k) > number_at(y, k) && (forall|j: int|
                    #![trigger number_at(x, j)]
                    i <= j < k ==> number_at(x, j) == number_at(y, j)) implies false by {
                assert(number_at(x, i) == number_at(y, i) || k == i);
            }
        }
    }
}

/// Being newer is an order: no version is newer than itself, of two versions at most one is newer,
/// and what is newer than a newer one is newer.
pub proof fn law_newer_is_an_order(a: Seq<char>, b: Seq<char>, c: Seq<char>)
    ensures
        !is_newer(a, a),
        !(is_newer(a, b) && is_newer(b, a)),
        is_newer(a, b) && is_newer(b, c) ==> is_newer(a, c),
{
    let x = version_of(a);
    let y = version_of(b);
    let z = version_of(c);
    lemma_greater(x, x, 0);
    lemma_greater(x, y, 0);
    lemma_greater(y, x, 0);
    lemma_greater(y, z, 0);
    lemma_greater(x, z, 0);
    if is_newer(a, b) {
        let k = choose|k: int|
            #![trigger number_at(x, k)]
            0 <= k && number_at(x, k) > number_at(y, k) && forall|j: int|
                #![trigger number_at(x, j)]
                0 <= j < k ==> number_at(x, j) == number_at(y, j);
        if is_newer(b, a) {
            let m = choose|m: int|
                #![trigger number_at(y, m)]
                0 <= m && number_at(y, m) > number_at(x, m) && forall|j: int|
                    #![trigger number_at(y, j)]
                    0 <= j < m ==> number_at(y, j) == number_at(x, j);
            assert(number_at(x, m) == number_at(x, m) && number_at(y, k) == number_at(y, k));
        }
        if is_newer(b, c) {
            let m = choose|m: int|
                #![trigger number_at(y, m)]
                0 <= m && number_at(y, m) > number_at(z, m) && forall|j: int|
                    #![trigger number_at(y, j)]
                    0 <= j < m ==> number_at(y, j) == number_at(z, j);
            let p = if k < m {
                k
            } else {
                m
            };
            assert(number_at(x, p) >= number_at(y, p) >= number_at(z, p));
            assert(number_at(x, p) > number_at(z, p));
            assert forall|j: int|
                #![trigger number_at(x, j)]
                0 <= j < p implies number_at(x, j) == number_at(z, j) by {
                assert(number_at(y, j) == number_at(z, j));
            }
        }
    }
}

// ---- the newest release ---------------------------------------------------------------------

/// The version of the newest release, out of its description.
pub open spec fn release_version(body: Seq<char>) -> Option<Seq<char>> {
    let parts = text::split_on(body, "\"tag_name\":"@);
    if parts.len() > 1 && text::split(parts[1], '"').len() > 1 {
        Some(text::trim_start_matches(text::split(parts[1], '"')[1], "v"@))
    } else {
        None
    }
}

/// The newest published version, or nothing when the description cannot be read.
pub fn latest_release(body: &str) -> (r: Option<String>)
    ensures
        text::text_opt(r) == release_version(body@),
{
    proof {
        reveal_strlit("\"tag_name\":");
        reveal_strlit("v");
    }
    let parts: Vec<Vec<char>> = text::pieces_str(&text::chars_of(body), "\"tag_name\":");
    if parts.len() < 2 {
        return None;
    }
    assert(text::texts(parts@)[1] == parts@[1]@);
    let quoted: Vec<Vec<char>> = text::pieces_at(&parts[1], '"');
    if quoted.len() < 2 {
        return None;
    }
    assert(text::texts(quoted@)[1] == quoted@[1]@);
    Some(text::string_of(text::without_prefixes(&quoted[1], "v")))
}

/// Where the newest release is described.
pub fn feed_url() -> (r: String)
    ensures
        r@ == "https://api.github.com/repos/"@ + REPO@ + "/releases/latest"@,
{
    let mut s: String = "https://api.github.com/repos/".to_owned();
    s.append(REPO);
    s.append("/releases/latest");
    s
}

pub open spec fn asset_address(name: Seq<char>) -> Seq<char> {
    "https://github.com/"@ + REPO@ + "/releases/latest/download/"@ + name
}

/// Where a file of the newest release is.
pub fn asset_url(name: &str) -> (r: String)
    ensures
        r@ == asset_address(name@),
{
    let mut s: String = "https://github.com/".to_owned();
    s.append(REPO);
    s.append("/releases/latest/download/");
    s.append(name);
    s
}

// ---- whether to go on -----------------------------------------------------------------------

pub open spec fn update_event(here: Seq<char>, latest: Seq<char>) -> Seq<char> {
    json::object_text(
        seq![
            ("event"@, json::quoted("update"@)),
            ("current"@, json::quoted(here)),
            ("latest"@, json::quoted(latest)),
            ("available"@, json::truth(is_newer(latest, here))),
        ],
    )
}

pub open spec fn unreachable_event() -> Seq<char> {
    json::object_text(
        seq![
            ("event"@, json::quoted("update"@)),
            ("error"@, json::quoted("cannot reach the release feed"@)),
        ],
    )
}

pub open spec fn update_report(here: Seq<char>, latest: Option<Seq<char>>, json: bool) -> Seq<
    say::NoteView,
> {
    match latest {
        Some(l) => if json {
            seq![say::NoteView::Event(update_event(here, l))]
        } else if is_newer(l, here) {
            seq![say::NoteView::Good(l + " is available (you have "@ + here + ")"@)]
        } else {
            seq![say::NoteView::Good(here + " is the newest release"@)]
        },
        None => if json {
            seq![say::NoteView::Event(unreachable_event())]
        } else {
            seq![say::NoteView::Bad("cannot reach the release feed"@)]
        },
    }
}

fn tell_update(here: &str, latest: &str, available: bool) -> (r: String)
    requires
        available == is_newer(latest@, here@),
    ensures
        r@ == update_event(here@, latest@),
{
    let mut f: Vec<json::Field> = Vec::new();
    f.push(("event", json::s("update")));
    f.push(("current", json::s(here)));
    f.push(("latest", json::s(latest)));
    f.push(("available", json::b(available)));
    assert(json::fields_view(f@) =~= seq![
        ("event"@, json::quoted("update"@)),
        ("current"@, json::quoted(here@)),
        ("latest"@, json::quoted(latest@)),
        ("available"@, json::truth(available)),
    ]);
    json::object(&f)
}

fn tell_unreachable() -> (r: String)
    ensures
        r@ == unreachable_event(),
{
    let mut f: Vec<json::Field> = Vec::new();
    f.push(("event", json::s("update")));
    f.push(("error", json::s("cannot reach the release feed")));
    assert(json::fields_view(f@) =~= seq![
        ("event"@, json::quoted("update"@)),
        ("error"@, json::quoted("cannot reach the release feed"@)),
    ]);
    json::object(&f)
}

/// Whether to replace anything, and what is said: a newer release is there, and more was wanted
/// than to know of it.
pub fn consider(here: &str, latest: &Option<String>, only_check: bool, json: bool) -> (r: (
    bool,
    Vec<Note>,
))
    ensures
        r.0 == (!only_check && latest is Some && is_newer(latest->0@, here@)),
        say::notes_view(r.1@) == update_report(here@, text::text_opt(*latest), json),
{
    match latest {
        Some(l) => {
            let available: bool = newer(l, here);
            let note: Note = if json {
                Note::Event(tell_update(here, l, available))
            } else if available {
                let mut s: String = l.clone();
                s.append(" is available (you have ");
                s.append(here);
                s.append(")");
                Note::Good(s)
            } else {
                let mut s: String = here.to_owned();
                s.append(" is the newest release");
                Note::Good(s)
            };
            (!only_check && available, one_note(note))
        },
        None => {
            let note: Note = if json {
                Note::Event(tell_unreachable())
            } else {
                Note::Bad("cannot reach the release feed".to_owned())
            };
            (false, one_note(note))
        },
    }
}

// ---- what may replace what ------------------------------------------------------------------

/// The first line from `i` on that ends with the name of the asset, and names nothing else.
pub open spec fn asset_line_from(ls: Seq<Seq<char>>, asset: Seq<char>, i: int) -> Option<Seq<char>>
    decreases ls.len() - i,
{
    if i < 0 || i >= ls.len() {
        None
    } else if text::ends_with(ls[i], asset) && pick::listed_name(ls[i]) == asset {
        Some(ls[i])
    } else {
        asset_line_from(ls, asset, i + 1)
    }
}

/// The hash that a checksum file gives for an asset: the first word of the first line that is
/// about it.
pub open spec fn asset_hash(sums: Seq<char>, asset: Seq<char>) -> Option<Seq<char>> {
    match asset_line_from(text::lines(sums), asset, 0) {
        Some(l) => if text::words(l).len() > 0 {
            Some(text::words(l)[0])
        } else {
            None
        },
        None => None,
    }
}

pub fn published_hash(sums: &str, asset: &str) -> (r: Option<String>)
    ensures
        text::text_opt(r) == asset_hash(sums@, asset@),
{
    let ls: Vec<Vec<char>> = text::lines_of(&text::chars_of(sums));
    let name: Vec<char> = text::chars_of(asset);
    let ghost all = text::texts(ls@);
    let mut i: usize = 0;
    while i < ls.len()
        invariant
            i <= ls@.len(),
            name@ == asset@,
            all == text::texts(ls@),
            all == text::lines(sums@),
            asset_line_from(all, asset@, 0) == asset_line_from(all, asset@, i as int),
        decreases ls@.len() - i,
    {
        assert(all[i as int] == ls@[i as int]@);
        if text::ends(&ls[i], asset) && pick::lists(&ls[i], &name) {
            let w: Vec<Vec<char>> = text::words_of(&ls[i]);
            if w.len() == 0 {
                return None;
            }
            assert(text::texts(w@)[0] == w@[0]@);
            return Some(text::string_of(&w[0]));
        }
        i += 1;
    }
    None
}

/// What to do about one of the programs.
pub enum Replacement {
    /// It is not installed: nothing.
    Skip,
    /// Its hash is not published: nothing, and this is said.
    Unknown(Note),
    /// Download it; this is said, and this is the hash it must have.
    Fetch { note: Note, want: String },
}

pub open spec fn replacement_matches(
    r: Replacement,
    asset: Seq<char>,
    installed: bool,
    want: Option<Seq<char>>,
) -> bool {
    match r {
        Replacement::Skip => !installed,
        Replacement::Unknown(n) => installed && want is None && n@ == say::NoteView::Bad(
            "no published hash for "@ + asset + ", skipped"@,
        ),
        Replacement::Fetch { note, want: w } => installed && want == Some(w@) && note@
            == say::NoteView::Step("downloading "@ + asset),
    }
}

/// Only what is actually installed is replaced, and only by something with a published hash.
pub fn replacement(asset: &str, installed: bool, sums: &str) -> (r: Replacement)
    ensures
        replacement_matches(r, asset@, installed, asset_hash(sums@, asset@)),
{
    if !installed {
        return Replacement::Skip;
    }
    match published_hash(sums, asset) {
        Some(want) => {
            let mut s: String = "downloading ".to_owned();
            s.append(asset);
            Replacement::Fetch { note: Note::Step(s), want }
        },
        None => {
            let mut s: String = "no published hash for ".to_owned();
            s.append(asset);
            s.append(", skipped");
            Replacement::Unknown(Note::Bad(s))
        },
    }
}

/// Whether a download may replace the program: exactly when it has the published hash.
pub fn accept(asset: &str, got: &str, want: &str) -> (r: Result<(), String>)
    ensures
        match r {
            Ok(_) => got@ == want@,
            Err(e) => got@ != want@ && e@ == asset@
                + " does not match its published sha256; nothing was replaced"@,
        },
{
    if text::same_str(&text::chars_of(got), want) {
        Ok(())
    } else {
        let mut s: String = asset.to_owned();
        s.append(" does not match its published sha256; nothing was replaced");
        Err(s)
    }
}

// ---- turn by turn ---------------------------------------------------------------------------

/// The programs of a release.
pub open spec fn assets() -> Seq<Seq<char>> {
    seq!["arxburn-x86_64-linux"@, "arxburn-gui-x86_64-linux"@]
}

fn asset_name(i: usize) -> (r: &'static str)
    requires
        i < 2,
    ensures
        r@ == assets()[i as int],
{
    if i == 0 {
        "arxburn-x86_64-linux"
    } else {
        "arxburn-gui-x86_64-linux"
    }
}

/// What a turn asks for.
pub enum Chore {
    /// See whether programs can be replaced where this one is.
    TryDirectory,
    /// Read the text at this address.
    Read(String),
    /// See whether the program with this place among the assets is installed.
    Find(usize),
    /// Download it from this address, next to the installed one.
    Fetch { asset: usize, url: String },
    /// Hash the download.
    Hash(usize),
    /// Put it in the place of the installed one.
    Replace(usize),
    /// Remove these downloads; it is over, and did not go well.
    Discard(Vec<usize>),
    /// It is over, and whether it went well.
    End(bool),
}

pub enum ChoreView {
    TryDirectory,
    Read(Seq<char>),
    Find(int),
    Fetch { asset: int, url: Seq<char> },
    Hash(int),
    Replace(int),
    Discard(Seq<usize>),
    End(bool),
}

impl View for Chore {
    type V = ChoreView;

    open spec fn view(&self) -> ChoreView {
        match self {
            Chore::TryDirectory => ChoreView::TryDirectory,
            Chore::Read(u) => ChoreView::Read(u@),
            Chore::Find(i) => ChoreView::Find(*i as int),
            Chore::Fetch { asset, url } => ChoreView::Fetch { asset: *asset as int, url: url@ },
            Chore::Hash(i) => ChoreView::Hash(*i as int),
            Chore::Replace(i) => ChoreView::Replace(*i as int),
            Chore::Discard(v) => ChoreView::Discard(v@),
            Chore::End(ok) => ChoreView::End(*ok),
        }
    }
}

/// How far it has come. `ready` are the programs whose downloads turned out to be right; none is put
/// in its place before all of them did.
pub enum Progress {
    Feed,
    Directory,
    Sums,
    Finding { sums: String, asset: usize, ready: Vec<usize> },
    Fetching { sums: String, asset: usize, want: String, ready: Vec<usize> },
    Hashing { sums: String, asset: usize, want: String, ready: Vec<usize> },
    Replacing { sums: String, ready: Vec<usize>, next: usize },
    Over,
}

pub enum ProgressView {
    Feed,
    Directory,
    Sums,
    Finding { sums: Seq<char>, asset: int, ready: Seq<usize> },
    Fetching { sums: Seq<char>, asset: int, want: Seq<char>, ready: Seq<usize> },
    Hashing { sums: Seq<char>, asset: int, want: Seq<char>, ready: Seq<usize> },
    Replacing { sums: Seq<char>, ready: Seq<usize>, next: int },
    Over,
}

impl View for Progress {
    type V = ProgressView;

    open spec fn view(&self) -> ProgressView {
        match self {
            Progress::Feed => ProgressView::Feed,
            Progress::Directory => ProgressView::Directory,
            Progress::Sums => ProgressView::Sums,
            Progress::Finding { sums, asset, ready } => ProgressView::Finding {
                sums: sums@,
                asset: *asset as int,
                ready: ready@,
            },
            Progress::Fetching { sums, asset, want, ready } => ProgressView::Fetching {
                sums: sums@,
                asset: *asset as int,
                want: want@,
                ready: ready@,
            },
            Progress::Hashing { sums, asset, want, ready } => ProgressView::Hashing {
                sums: sums@,
                asset: *asset as int,
                want: want@,
                ready: ready@,
            },
            Progress::Replacing { sums, ready, next } => ProgressView::Replacing {
                sums: sums@,
                ready: ready@,
                next: *next as int,
            },
            Progress::Over => ProgressView::Over,
        }
    }
}

/// What is said, what is asked for, and how far it has come.
pub struct Advance {
    pub notes: Vec<Note>,
    pub chore: Chore,
    pub progress: Progress,
}

pub struct AdvanceView {
    pub notes: Seq<say::NoteView>,
    pub chore: ChoreView,
    pub progress: ProgressView,
}

impl View for Advance {
    type V = AdvanceView;

    open spec fn view(&self) -> AdvanceView {
        AdvanceView {
            notes: say::notes_view(self.notes@),
            chore: self.chore@,
            progress: self.progress@,
        }
    }
}

/// What came of what was asked for.
pub enum Report {
    /// What was read, or why nothing was.
    Text(Result<String, String>),
    /// Whether programs can be replaced, or why not.
    Directory(Result<(), String>),
    Installed(bool),
    /// Whether it was downloaded, or why not.
    Fetched(Result<(), String>),
    /// The hash of the download, or why there is none.
    Hashed(Result<String, String>),
    /// What was replaced, or why nothing was.
    Replaced(Result<String, String>),
}

pub enum ReportView {
    Text(Result<Seq<char>, Seq<char>>),
    Directory(Result<(), Seq<char>>),
    Installed(bool),
    Fetched(Result<(), Seq<char>>),
    Hashed(Result<Seq<char>, Seq<char>>),
    Replaced(Result<Seq<char>, Seq<char>>),
}

impl View for Report {
    type V = ReportView;

    open spec fn view(&self) -> ReportView {
        match self {
            Report::Text(r) => ReportView::Text(text::text_result(*r)),
            Report::Directory(r) => ReportView::Directory(
                match r {
                    Ok(_) => Ok(()),
                    Err(e) => Err(e@),
                },
            ),
            Report::Installed(b) => ReportView::Installed(*b),
            Report::Fetched(r) => ReportView::Fetched(
                match r {
                    Ok(_) => Ok(()),
                    Err(e) => Err(e@),
                },
            ),
            Report::Hashed(r) => ReportView::Hashed(text::text_result(*r)),
            Report::Replaced(r) => ReportView::Replaced(text::text_result(*r)),
        }
    }
}

pub open spec fn ended(notes: Seq<say::NoteView>, ok: bool) -> AdvanceView {
    AdvanceView { notes, chore: ChoreView::End(ok), progress: ProgressView::Over }
}

/// It ends badly, and what was downloaded is removed.
pub open spec fn discarded(why: Seq<char>, downloads: Seq<usize>) -> AdvanceView {
    AdvanceView {
        notes: seq![say::NoteView::Bad(why)],
        chore: ChoreView::Discard(downloads),
        progress: ProgressView::Over,
    }
}

/// Put what is ready in its place, from `next` on, or come to the end.
pub open spec fn replacing(
    notes: Seq<say::NoteView>,
    sums: Seq<char>,
    ready: Seq<usize>,
    next: int,
) -> AdvanceView {
    if next < ready.len() {
        AdvanceView {
            notes,
            chore: ChoreView::Replace(ready[next] as int),
            progress: ProgressView::Replacing { sums, ready, next },
        }
    } else {
        ended(notes, true)
    }
}

/// Go on with asset `i`, or, when all have been looked at, replace.
pub open spec fn go_on(
    notes: Seq<say::NoteView>,
    sums: Seq<char>,
    i: int,
    ready: Seq<usize>,
) -> AdvanceView {
    if i < assets().len() {
        AdvanceView {
            notes,
            chore: ChoreView::Find(i),
            progress: ProgressView::Finding { sums, asset: i, ready },
        }
    } else {
        replacing(notes, sums, ready, 0)
    }
}

/// What is asked first.
pub open spec fn first_advance() -> AdvanceView {
    AdvanceView {
        notes: seq![],
        chore: ChoreView::Read("https://api.github.com/repos/"@ + REPO@ + "/releases/latest"@),
        progress: ProgressView::Feed,
    }
}

/// The version that the feed names, if it could be read.
pub open spec fn feed_version(r: Result<Seq<char>, Seq<char>>) -> Option<Seq<char>> {
    match r {
        Ok(body) => release_version(body),
        Err(_) => None,
    }
}

pub open spec fn after_feed_of(
    here: Seq<char>,
    only_check: bool,
    json: bool,
    latest: Option<Seq<char>>,
) -> AdvanceView {
    let notes = update_report(here, latest, json);
    match latest {
        Some(l) => if !only_check && is_newer(l, here) {
            AdvanceView {
                notes,
                chore: ChoreView::TryDirectory,
                progress: ProgressView::Directory,
            }
        } else {
            ended(notes, true)
        },
        // a program that reads along has been told; a person is left with a failure
        None => ended(notes, json),
    }
}

pub open spec fn after_find_of(
    sums: Seq<char>,
    asset: int,
    ready: Seq<usize>,
    installed: bool,
) -> AdvanceView {
    let name = assets()[asset];
    if !installed {
        go_on(seq![], sums, asset + 1, ready)
    } else {
        match asset_hash(sums, name) {
            Some(want) => AdvanceView {
                notes: seq![say::NoteView::Step("downloading "@ + name)],
                chore: ChoreView::Fetch { asset, url: asset_address(name) },
                progress: ProgressView::Fetching { sums, asset, want, ready },
            },
            None => go_on(
                seq![say::NoteView::Bad("no published hash for "@ + name + ", skipped"@)],
                sums,
                asset + 1,
                ready,
            ),
        }
    }
}

pub open spec fn after_hash_of(
    sums: Seq<char>,
    asset: int,
    want: Seq<char>,
    ready: Seq<usize>,
    got: Seq<char>,
) -> AdvanceView {
    if got == want {
        go_on(seq![], sums, asset + 1, ready.push(asset as usize))
    } else {
        discarded(
            assets()[asset] + " does not match its published sha256; nothing was replaced"@,
            ready.push(asset as usize),
        )
    }
}

/// What is asked after a report. One that is not about what was asked for ends it.
pub open spec fn next_advance(
    here: Seq<char>,
    only_check: bool,
    json: bool,
    progress: ProgressView,
    report: ReportView,
) -> AdvanceView {
    match (progress, report) {
        (ProgressView::Feed, ReportView::Text(r)) => after_feed_of(
            here,
            only_check,
            json,
            feed_version(r),
        ),
        (ProgressView::Directory, ReportView::Directory(r)) => match r {
            Ok(_) => AdvanceView {
                notes: seq![],
                chore: ChoreView::Read(asset_address("SHA256SUMS"@)),
                progress: ProgressView::Sums,
            },
            Err(e) => ended(seq![say::NoteView::Bad(e)], false),
        },
        (ProgressView::Sums, ReportView::Text(r)) => match r {
            Ok(sums) => go_on(seq![], sums, 0, seq![]),
            Err(e) => ended(seq![say::NoteView::Bad(e)], false),
        },
        (ProgressView::Finding { sums, asset, ready }, ReportView::Installed(b)) => after_find_of(
            sums,
            asset,
            ready,
            b,
        ),
        (ProgressView::Fetching { sums, asset, want, ready }, ReportView::Fetched(r)) => match r {
            Ok(_) => AdvanceView {
                notes: seq![],
                chore: ChoreView::Hash(asset),
                progress: ProgressView::Hashing { sums, asset, want, ready },
            },
            Err(e) => discarded(e, ready.push(asset as usize)),
        },
        (ProgressView::Hashing { sums, asset, want, ready }, ReportView::Hashed(r)) => match r {
            Ok(got) => after_hash_of(sums, asset, want, ready, got),
            Err(e) => discarded("cannot read the download: "@ + e, ready.push(asset as usize)),
        },
        (ProgressView::Replacing { sums, ready, next }, ReportView::Replaced(r)) => match r {
            Ok(what) => replacing(
                seq![say::NoteView::Good(what + " updated"@)],
                sums,
                ready,
                next + 1,
            ),
            Err(e) => discarded(e, ready.skip(next)),
        },
        _ => ended(seq![], false),
    }
}

fn end(notes: Vec<Note>, ok: bool) -> (r: Advance)
    ensures
        r@ == ended(say::notes_view(notes@), ok),
{
    Advance { notes, chore: Chore::End(ok), progress: Progress::Over }
}

fn end_badly(e: String) -> (r: Advance)
    ensures
        r@ == ended(seq![say::NoteView::Bad(e@)], false),
{
    end(one_note(Note::Bad(e)), false)
}

fn discard(why: String, downloads: Vec<usize>) -> (r: Advance)
    ensures
        r@ == discarded(why@, downloads@),
{
    Advance {
        notes: one_note(Note::Bad(why)),
        chore: Chore::Discard(downloads),
        progress: Progress::Over,
    }
}

fn replace_next(notes: Vec<Note>, sums: String, ready: Vec<usize>, next: usize) -> (r: Advance)
    ensures
        r@ == replacing(say::notes_view(notes@), sums@, ready@, next as int),
{
    if next < ready.len() {
        let asset: usize = ready[next];
        Advance {
            notes,
            chore: Chore::Replace(asset),
            progress: Progress::Replacing { sums, ready, next },
        }
    } else {
        end(notes, true)
    }
}

fn next_asset(notes: Vec<Note>, sums: String, i: usize, ready: Vec<usize>) -> (r: Advance)
    ensures
        r@ == go_on(say::notes_view(notes@), sums@, i as int, ready@),
{
    if i < 2 {
        Advance {
            notes,
            chore: Chore::Find(i),
            progress: Progress::Finding { sums, asset: i, ready },
        }
    } else {
        replace_next(notes, sums, ready, 0)
    }
}

/// What is asked first.
pub fn start() -> (r: Advance)
    ensures
        r@ == first_advance(),
{
    Advance { notes: no_notes(), chore: Chore::Read(feed_url()), progress: Progress::Feed }
}

fn after_feed(here: &str, only_check: bool, json: bool, latest: &Option<String>) -> (r: Advance)
    ensures
        r@ == after_feed_of(here@, only_check, json, text::text_opt(*latest)),
{
    let (go, notes) = consider(here, latest, only_check, json);
    if go {
        Advance { notes, chore: Chore::TryDirectory, progress: Progress::Directory }
    } else {
        end(notes, latest.is_some() || json)
    }
}

fn after_find(sums: String, asset: usize, ready: Vec<usize>, installed: bool) -> (r: Advance)
    requires
        asset < 2,
    ensures
        r@ == after_find_of(sums@, asset as int, ready@, installed),
{
    let name: &'static str = asset_name(asset);
    match replacement(name, installed, &sums) {
        Replacement::Skip => next_asset(no_notes(), sums, asset + 1, ready),
        Replacement::Unknown(note) => next_asset(one_note(note), sums, asset + 1, ready),
        Replacement::Fetch { note, want } => Advance {
            notes: one_note(note),
            chore: Chore::Fetch { asset, url: asset_url(name) },
            progress: Progress::Fetching { sums, asset, want, ready },
        },
    }
}

fn after_hash(sums: String, asset: usize, want: &str, ready: Vec<usize>, got: &str) -> (r: Advance)
    requires
        asset < 2,
    ensures
        r@ == after_hash_of(sums@, asset as int, want@, ready@, got@),
{
    let mut all: Vec<usize> = ready;
    all.push(asset);
    match accept(asset_name(asset), got, want) {
        Ok(_) => next_asset(no_notes(), sums, asset + 1, all),
        Err(e) => discard(e, all),
    }
}

fn rest_of(ready: &Vec<usize>, next: usize) -> (r: Vec<usize>)
    requires
        next <= ready@.len(),
    ensures
        r@ == ready@.skip(next as int),
{
    let mut out: Vec<usize> = Vec::new();
    let mut i: usize = next;
    while i < ready.len()
        invariant
            next <= i <= ready@.len(),
            out@ =~= ready@.subrange(next as int, i as int),
        decreases ready@.len() - i,
    {
        out.push(ready[i]);
        i += 1;
    }
    assert(out@ =~= ready@.skip(next as int));
    out
}

fn after_replace(sums: String, ready: Vec<usize>, next: usize, r: Result<String, String>) -> (a:
    Advance)
    requires
        next < ready@.len() <= 2,
    ensures
        a@ == (match text::text_result(r) {
            Ok(what) => replacing(
                seq![say::NoteView::Good(what + " updated"@)],
                sums@,
                ready@,
                next + 1,
            ),
            Err(e) => discarded(e, ready@.skip(next as int)),
        }),
{
    match r {
        Ok(what) => {
            let mut s: String = what;
            s.append(" updated");
            replace_next(one_note(Note::Good(s)), sums, ready, next + 1)
        },
        Err(e) => discard(e, rest_of(&ready, next)),
    }
}

/// A point that an update can come to.
pub open spec fn sensible(p: ProgressView) -> bool {
    match p {
        ProgressView::Finding { sums: _, asset, ready } => 0 <= asset < 2 && ready.len() <= asset,
        ProgressView::Fetching { sums: _, asset, want: _, ready } => 0 <= asset < 2 && ready.len()
            <= asset,
        ProgressView::Hashing { sums: _, asset, want: _, ready } => 0 <= asset < 2 && ready.len()
            <= asset,
        ProgressView::Replacing { sums: _, ready, next } => 0 <= next < ready.len() <= 2,
        _ => true,
    }
}

/// What is asked once what was asked for has been carried out. `here` is the version of this
/// program.
pub fn advance(here: &str, only_check: bool, json: bool, progress: Progress, report: Report) -> (r:
    Advance)
    requires
        sensible(progress@),
    ensures
        r@ == next_advance(here@, only_check, json, progress@, report@),
        sensible(r.progress@),
{
    match (progress, report) {
        (Progress::Feed, Report::Text(x)) => {
            let latest: Option<String> = match x {
                Ok(body) => latest_release(&body),
                Err(_) => None,
            };
            after_feed(here, only_check, json, &latest)
        },
        (Progress::Directory, Report::Directory(x)) => match x {
            Ok(_) => Advance {
                notes: no_notes(),
                chore: Chore::Read(asset_url("SHA256SUMS")),
                progress: Progress::Sums,
            },
            Err(e) => end_badly(e),
        },
        (Progress::Sums, Report::Text(x)) => match x {
            Ok(sums) => {
                let ready: Vec<usize> = Vec::new();
                assert(ready@ =~= seq![]);
                next_asset(no_notes(), sums, 0, ready)
            },
            Err(e) => end_badly(e),
        },
        (Progress::Finding { sums, asset, ready }, Report::Installed(b)) => after_find(
            sums,
            asset,
            ready,
            b,
        ),
        (Progress::Fetching { sums, asset, want, ready }, Report::Fetched(x)) => match x {
            Ok(_) => Advance {
                notes: no_notes(),
                chore: Chore::Hash(asset),
                progress: Progress::Hashing { sums, asset, want, ready },
            },
            Err(e) => {
                let mut all: Vec<usize> = ready;
                all.push(asset);
                discard(e, all)
            },
        },
        (Progress::Hashing { sums, asset, want, ready }, Report::Hashed(x)) => match x {
            Ok(got) => after_hash(sums, asset, &want, ready, &got),
            Err(e) => {
                let mut s: String = "cannot read the download: ".to_owned();
                s.append(&e);
                let mut all: Vec<usize> = ready;
                all.push(asset);
                discard(s, all)
            },
        },
        (Progress::Replacing { sums, ready, next }, Report::Replaced(x)) => after_replace(
            sums,
            ready,
            next,
            x,
        ),
        _ => end(no_notes(), false),
    }
}

// ---- laws -----------------------------------------------------------------------------------

/// How an update is run: the version of this program, whether only a check is wanted, and whether a
/// program reads along.
pub struct Wanted {
    pub here: Seq<char>,
    pub only_check: bool,
    pub json: bool,
}

/// What an update has come to after these reports.
pub open spec fn run(w: Wanted, reports: Seq<ReportView>) -> AdvanceView
    decreases reports.len(),
{
    if reports.len() == 0 {
        first_advance()
    } else {
        next_advance(
            w.here,
            w.only_check,
            w.json,
            run(w, reports.drop_last()).progress,
            reports.last(),
        )
    }
}

/// This text was read.
pub open spec fn was_read(reports: Seq<ReportView>, body: Seq<char>) -> bool {
    reports.contains(ReportView::Text(Ok(body)))
}

/// Report `k` says that the program is not installed.
pub open spec fn missing_at(w: Wanted, reports: Seq<ReportView>, asset: int, k: int) -> bool {
    run(w, reports.take(k)).chore == ChoreView::Find(asset) && reports[k] == ReportView::Installed(
        false,
    )
}

/// Report `k` says that the download of the program has the hash that the checksum file gives it.
pub open spec fn right_at(
    w: Wanted,
    reports: Seq<ReportView>,
    sums: Seq<char>,
    asset: int,
    k: int,
) -> bool {
    run(w, reports.take(k)).chore == ChoreView::Hash(asset) && match reports[k] {
        ReportView::Hashed(Ok(got)) => asset_hash(sums, assets()[asset]) == Some(got),
        _ => false,
    }
}

/// The download of the program turned out to be what the checksum file says.
pub open spec fn is_right(w: Wanted, reports: Seq<ReportView>, sums: Seq<char>, asset: int) -> bool {
    exists|k: int| 0 <= k < reports.len() && #[trigger] right_at(w, reports, sums, asset, k)
}

/// The program is not installed, or no hash is published for it, or its download turned out to be
/// right.
pub open spec fn dealt_with(w: Wanted, reports: Seq<ReportView>, sums: Seq<char>, asset: int) -> bool {
    ||| asset_hash(sums, assets()[asset]) is None
    ||| exists|k: int| 0 <= k < reports.len() && #[trigger] missing_at(w, reports, asset, k)
    ||| is_right(w, reports, sums, asset)
}

/// All programs before `asset` are dealt with, and those that are ready are right.
spec fn sorted_out(
    w: Wanted,
    reports: Seq<ReportView>,
    sums: Seq<char>,
    asset: int,
    ready: Seq<usize>,
) -> bool {
    &&& was_read(reports, sums)
    &&& forall|a: int| 0 <= a < asset ==> #[trigger] dealt_with(w, reports, sums, a)
    &&& forall|i: int|
        0 <= i < ready.len() ==> is_right(w, reports, sums, #[trigger] ready[i] as int)
}

/// What holds once an update has come to a point.
spec fn holds_at(w: Wanted, reports: Seq<ReportView>, a: AdvanceView) -> bool {
    match a.progress {
        ProgressView::Finding { sums, asset, ready } => 0 <= asset < 2 && sorted_out(
            w,
            reports,
            sums,
            asset,
            ready,
        ) && a.chore == ChoreView::Find(asset),
        ProgressView::Fetching { sums, asset, want, ready } => 0 <= asset < 2 && sorted_out(
            w,
            reports,
            sums,
            asset,
            ready,
        ) && asset_hash(sums, assets()[asset]) == Some(want) && a.chore is Fetch,
        ProgressView::Hashing { sums, asset, want, ready } => 0 <= asset < 2 && sorted_out(
            w,
            reports,
            sums,
            asset,
            ready,
        ) && asset_hash(sums, assets()[asset]) == Some(want) && a.chore == ChoreView::Hash(asset),
        ProgressView::Replacing { sums, ready, next } => 0 <= next < ready.len() && sorted_out(
            w,
            reports,
            sums,
            2,
            ready,
        ) && a.chore == ChoreView::Replace(ready[next] as int),
        _ => !(a.chore is Replace),
    }
}

proof fn lemma_still(w: Wanted, reports: Seq<ReportView>, sums: Seq<char>, asset: int)
    requires
        reports.len() > 0,
    ensures
        was_read(reports.drop_last(), sums) ==> was_read(reports, sums),
        reports.last() == ReportView::Text(Ok(sums)) ==> was_read(reports, sums),
        is_right(w, reports.drop_last(), sums, asset) ==> is_right(w, reports, sums, asset),
        dealt_with(w, reports.drop_last(), sums, asset) ==> dealt_with(w, reports, sums, asset),
{
    let before = reports.drop_last();
    let n = reports.len() - 1;
    assert(reports[n] == reports.last());
    assert forall|k: int| 0 <= k < n implies before[k] == reports[k] && #[trigger] before.take(k)
        == reports.take(k) by {
        assert(before.take(k) =~= reports.take(k));
    }
    if was_read(before, sums) {
        let k = choose|k: int| 0 <= k < before.len() && before[k] == ReportView::Text(Ok(sums));
        assert(reports[k] == ReportView::Text(Ok(sums)));
    }
    if is_right(w, before, sums, asset) {
        let k = choose|k: int|
            0 <= k < before.len() && #[trigger] right_at(w, before, sums, asset, k);
        assert(before.take(k) == reports.take(k));
        assert(right_at(w, reports, sums, asset, k));
    }
    if exists|k: int| 0 <= k < before.len() && #[trigger] missing_at(w, before, asset, k) {
        let k = choose|k: int| 0 <= k < before.len() && #[trigger] missing_at(w, before, asset, k);
        assert(before.take(k) == reports.take(k));
        assert(missing_at(w, reports, asset, k));
    }
}

proof fn lemma_still_sorted(
    w: Wanted,
    reports: Seq<ReportView>,
    sums: Seq<char>,
    asset: int,
    ready: Seq<usize>,
)
    requires
        reports.len() > 0,
        sorted_out(w, reports.drop_last(), sums, asset, ready),
    ensures
        sorted_out(w, reports, sums, asset, ready),
{
    let before = reports.drop_last();
    lemma_still(w, reports, sums, 0);
    assert forall|a: int| 0 <= a < asset implies #[trigger] dealt_with(w, reports, sums, a) by {
        assert(dealt_with(w, before, sums, a));
        lemma_still(w, reports, sums, a);
    }
    assert forall|i: int| 0 <= i < ready.len() implies is_right(
        w,
        reports,
        sums,
        #[trigger] ready[i] as int,
    ) by {
        assert(is_right(w, before, sums, ready[i] as int));
        lemma_still(w, reports, sums, ready[i] as int);
    }
}

proof fn lemma_found(
    w: Wanted,
    reports: Seq<ReportView>,
    sums: Seq<char>,
    asset: int,
    ready: Seq<usize>,
    installed: bool,
)
    requires
        reports.len() > 0,
        0 <= asset < 2,
        sorted_out(w, reports.drop_last(), sums, asset, ready),
        run(w, reports.drop_last()).chore == ChoreView::Find(asset),
        reports.last() == ReportView::Installed(installed),
    ensures
        holds_at(w, reports, after_find_of(sums, asset, ready, installed)),
{
    lemma_still_sorted(w, reports, sums, asset, ready);
    let n = reports.len() - 1;
    assert(reports.take(n) =~= reports.drop_last());
    if !installed {
        assert(missing_at(w, reports, asset, n));
    }
    if !installed || asset_hash(sums, assets()[asset]) is None {
        assert(dealt_with(w, reports, sums, asset));
        assert(sorted_out(w, reports, sums, asset + 1, ready));
    }
}

proof fn lemma_hashed(
    w: Wanted,
    reports: Seq<ReportView>,
    sums: Seq<char>,
    asset: int,
    want: Seq<char>,
    ready: Seq<usize>,
    got: Seq<char>,
)
    requires
        reports.len() > 0,
        0 <= asset < 2,
        sorted_out(w, reports.drop_last(), sums, asset, ready),
        asset_hash(sums, assets()[asset]) == Some(want),
        run(w, reports.drop_last()).chore == ChoreView::Hash(asset),
        reports.last() == ReportView::Hashed(Ok(got)),
    ensures
        holds_at(w, reports, after_hash_of(sums, asset, want, ready, got)),
{
    lemma_still_sorted(w, reports, sums, asset, ready);
    let n = reports.len() - 1;
    assert(reports.take(n) =~= reports.drop_last());
    if got == want {
        assert(right_at(w, reports, sums, asset, n));
        assert(is_right(w, reports, sums, asset));
        assert(dealt_with(w, reports, sums, asset));
        let all = ready.push(asset as usize);
        assert forall|i: int| 0 <= i < all.len() implies is_right(
            w,
            reports,
            sums,
            #[trigger] all[i] as int,
        ) by {
            if i < ready.len() {
                assert(all[i] == ready[i]);
            }
        }
        assert(sorted_out(w, reports, sums, asset + 1, all));
    }
}

proof fn lemma_run(w: Wanted, reports: Seq<ReportView>)
    ensures
        holds_at(w, reports, run(w, reports)),
    decreases reports.len(),
{
    if reports.len() > 0 {
        let before = reports.drop_last();
        lemma_run(w, before);
        match run(w, before).progress {
            ProgressView::Sums => {
                if let ReportView::Text(Ok(sums)) = reports.last() {
                    lemma_still(w, reports, sums, 0);
                    assert(sorted_out(w, reports, sums, 0, seq![]));
                }
            },
            ProgressView::Finding { sums, asset, ready } => {
                if let ReportView::Installed(b) = reports.last() {
                    lemma_found(w, reports, sums, asset, ready, b);
                }
            },
            ProgressView::Fetching { sums, asset, want, ready } => {
                lemma_still_sorted(w, reports, sums, asset, ready);
            },
            ProgressView::Hashing { sums, asset, want, ready } => {
                if let ReportView::Hashed(Ok(got)) = reports.last() {
                    lemma_hashed(w, reports, sums, asset, want, ready, got);
                }
            },
            ProgressView::Replacing { sums, ready, next } => {
                lemma_still_sorted(w, reports, sums, 2, ready);
            },
            _ => {},
        }
    }
}

/// The programs of the release are what this checksum file says: each one is missing here, or has no
/// published hash, or its download was hashed and is right; and the one to be replaced is right.
pub open spec fn may_replace(w: Wanted, reports: Seq<ReportView>, sums: Seq<char>, asset: int) -> bool {
    &&& was_read(reports, sums)
    &&& is_right(w, reports, sums, asset)
    &&& forall|a: int| 0 <= a < assets().len() ==> #[trigger] dealt_with(w, reports, sums, a)
}

/// A program is replaced only once the download of every installed program with a published hash
/// turned out to have that hash, so a bad download leaves all of them as they were; and never when
/// only a check was wanted.
pub proof fn law_only_the_published_programs_replace_any(w: Wanted, reports: Seq<ReportView>)
    ensures
        run(w, reports).chore is Replace ==> !w.only_check,
        run(w, reports).chore is Replace ==> exists|sums: Seq<char>|
            #[trigger] may_replace(w, reports, sums, run(w, reports).chore->Replace_0),
{
    lemma_run(w, reports);
    if w.only_check {
        lemma_not_only_check(w, reports);
    }
    if let ProgressView::Replacing { sums, ready, next } = run(w, reports).progress {
        assert(is_right(w, reports, sums, ready[next] as int));
        assert(may_replace(w, reports, sums, run(w, reports).chore->Replace_0));
    } else {
        assert(!(run(w, reports).chore is Replace));
    }
}

/// A download that is not what was published ends the update with nothing replaced: no program was put
/// in its place at any time before, and what was downloaded, the bad one with the others, is removed.
pub proof fn law_a_bad_download_replaces_nothing(
    w: Wanted,
    reports: Seq<ReportView>,
    sums: Seq<char>,
    asset: int,
    want: Seq<char>,
    ready: Seq<usize>,
    got: Seq<char>,
    k: int,
)
    requires
        run(w, reports).progress == (ProgressView::Hashing { sums, asset, want, ready }),
        got != want,
        0 <= k <= reports.len(),
    ensures
        !(run(w, reports.take(k)).chore is Replace),
        run(w, reports.push(ReportView::Hashed(Ok(got)))).chore == ChoreView::Discard(
            ready.push(asset as usize),
        ),
{
    lemma_run(w, reports);
    assert(reports.push(ReportView::Hashed(Ok(got))).drop_last() =~= reports);
    lemma_none_replaced(w, reports, k);
}

/// Replacing is the last part of an update.
spec fn is_late(p: ProgressView) -> bool {
    p is Replacing || p is Over
}

proof fn lemma_none_replaced(w: Wanted, reports: Seq<ReportView>, k: int)
    requires
        !is_late(run(w, reports).progress),
        0 <= k <= reports.len(),
    ensures
        !(run(w, reports.take(k)).chore is Replace),
    decreases reports.len(),
{
    lemma_run(w, reports);
    if k == reports.len() {
        assert(reports.take(k) =~= reports);
    } else {
        assert(reports.drop_last().take(k) =~= reports.take(k));
        lemma_none_replaced(w, reports.drop_last(), k);
    }
}

/// How many reports are still to come at the most.
pub open spec fn reports_left(p: ProgressView) -> int {
    match p {
        ProgressView::Feed => 11,
        ProgressView::Directory => 10,
        ProgressView::Sums => 9,
        ProgressView::Finding { sums: _, asset, ready: _ } => 8 - 3 * asset,
        ProgressView::Fetching { sums: _, asset, want: _, ready: _ } => 7 - 3 * asset,
        ProgressView::Hashing { sums: _, asset, want: _, ready: _ } => 6 - 3 * asset,
        ProgressView::Replacing { sums: _, ready, next } => ready.len() - next,
        ProgressView::Over => 0,
    }
}

/// An update comes to an end: every report leaves fewer to come.
pub proof fn law_an_update_ends(
    here: Seq<char>,
    only_check: bool,
    json: bool,
    p: ProgressView,
    report: ReportView,
)
    requires
        sensible(p),
    ensures
        p is Over || 0 <= reports_left(next_advance(here, only_check, json, p, report).progress)
            < reports_left(p),
{
}

proof fn lemma_not_only_check(w: Wanted, reports: Seq<ReportView>)
    requires
        w.only_check,
    ensures
        run(w, reports).progress is Feed || run(w, reports).progress is Over,
    decreases reports.len(),
{
    if reports.len() > 0 {
        lemma_not_only_check(w, reports.drop_last());
    }
}

// ---- versions and releases in full ----------------------------------------------------------

proof fn lemma_version_then(a: Seq<char>, b: Seq<char>)
    ensures
        version_of(a + seq!['.'] + b) == version_of(a) + version_of(b),
{
    text::law_pieces_follow_one_another(a, '.', b);
    assert(version_of(a + seq!['.'] + b) =~= version_of(a) + version_of(b));
}

proof fn lemma_version_number(n: u64)
    ensures
        version_of(text::decimal(n as nat)) == seq![n],
{
    text::lemma_digits_alone(n as nat, '.');
    text::lemma_split_none(text::decimal(n as nat), '.');
    text::lemma_parse_decimal(n);
    assert(version_of(text::decimal(n as nat)) =~= seq![n]);
}

proof fn lemma_greater_at(x: Seq<u64>, y: Seq<u64>, i: int, k: int)
    requires
        0 <= i <= k,
        k < x.len() || k < y.len(),
        forall|j: int| i <= j < k ==> #[trigger] number_at(x, j) == number_at(y, j),
    ensures
        number_at(x, k) > number_at(y, k) ==> greater_from(x, y, i),
    decreases k - i,
{
    if i < k {
        assert(number_at(x, i) == number_at(y, i));
        lemma_greater_at(x, y, i + 1, k);
    }
}

/// Versions are compared number by number, and the first that differ decide, however many digits they
/// have and whatever follows them.
pub proof fn law_the_first_number_that_differs_decides(
    common: Seq<char>,
    m: u64,
    n: u64,
    x: Seq<char>,
    y: Seq<char>,
)
    requires
        m < n,
    ensures
        is_newer(text::decimal(n as nat), text::decimal(m as nat)),
        is_newer(
            text::decimal(n as nat) + seq!['.'] + y,
            text::decimal(m as nat) + seq!['.'] + x,
        ),
        is_newer(
            common + seq!['.'] + text::decimal(n as nat),
            common + seq!['.'] + text::decimal(m as nat),
        ),
        is_newer(
            common + seq!['.'] + (text::decimal(n as nat) + seq!['.'] + y),
            common + seq!['.'] + (text::decimal(m as nat) + seq!['.'] + x),
        ),
        is_newer(
            common + seq!['.'] + (text::decimal(n as nat) + seq!['.'] + y),
            common + seq!['.'] + text::decimal(m as nat),
        ),
        is_newer(
            common + seq!['.'] + text::decimal(n as nat),
            common + seq!['.'] + (text::decimal(m as nat) + seq!['.'] + x),
        ),
{
    let a = text::decimal(n as nat);
    let b = text::decimal(m as nat);
    lemma_version_number(n);
    lemma_version_number(m);
    lemma_version_then(a, y);
    lemma_version_then(b, x);
    lemma_version_then(common, a);
    lemma_version_then(common, b);
    lemma_version_then(common, a + seq!['.'] + y);
    lemma_version_then(common, b + seq!['.'] + x);
    let k = version_of(common).len() as int;
    lemma_greater_at(version_of(a), version_of(b), 0, 0);
    lemma_greater_at(version_of(a + seq!['.'] + y), version_of(b + seq!['.'] + x), 0, 0);
    let newer = seq![common + seq!['.'] + a, common + seq!['.'] + (a + seq!['.'] + y)];
    let older = seq![common + seq!['.'] + b, common + seq!['.'] + (b + seq!['.'] + x)];
    assert forall|i: int, j: int| 0 <= i < 2 && 0 <= j < 2 implies #[trigger] is_newer(
        newer[i],
        older[j],
    ) by {
        let p = version_of(newer[i]);
        let q = version_of(older[j]);
        assert forall|h: int| 0 <= h < k implies #[trigger] number_at(p, h) == number_at(q, h) by {
            assert(p[h] == version_of(common)[h] && q[h] == version_of(common)[h]);
        }
        assert(p[k] == n && q[k] == m);
        lemma_greater_at(p, q, 0, k);
    }
    assert(is_newer(newer[0], older[0]) && is_newer(newer[0], older[1]));
    assert(is_newer(newer[1], older[0]) && is_newer(newer[1], older[1]));
}

/// A number that is missing counts as zero.
pub proof fn law_a_missing_number_is_zero(a: Seq<char>, b: Seq<char>)
    ensures
        is_newer(a + seq!['.', '0'], b) == is_newer(a, b),
        is_newer(b, a + seq!['.', '0']) == is_newer(b, a),
{
    let z = text::decimal(0);
    assert(z =~= seq!['0']);
    lemma_version_number(0);
    lemma_version_then(a, z);
    assert(a + seq!['.'] + z =~= a + seq!['.', '0']);
    let x = version_of(a);
    let y = version_of(a + seq!['.', '0']);
    let v = version_of(b);
    assert forall|i: int| #[trigger] number_at(y, i) == number_at(x, i) by {
        if 0 <= i < x.len() {
            assert(y[i] == x[i]);
        } else if i == x.len() {
            assert(y[i] == 0);
        }
    }
    lemma_same_numbers(x, y, v, 0);
}

proof fn lemma_same_numbers(x: Seq<u64>, y: Seq<u64>, v: Seq<u64>, i: int)
    requires
        0 <= i,
        y.len() == x.len() + 1,
        forall|i: int| #[trigger] number_at(y, i) == number_at(x, i),
    ensures
        greater_from(x, v, i) == greater_from(y, v, i),
        greater_from(v, x, i) == greater_from(v, y, i),
    decreases y.len() + v.len() - i,
{
    assert(number_at(y, i) == number_at(x, i));
    if i < y.len() || i < v.len() {
        lemma_same_numbers(x, y, v, i + 1);
    }
}

/// The version of a release is what stands between the quotes after `"tag_name":`, without the letter
/// that versions begin with.
pub proof fn law_the_version_follows_the_tag(
    before: Seq<char>,
    gap: Seq<char>,
    version: Seq<char>,
    after: Seq<char>,
)
    requires
        forall|j: int|
            0 <= j < before.len() ==> !text::occurs_at(
                before + "\"tag_name\":"@ + (gap + seq!['"'] + (seq!['v'] + version + seq!['"'] + after)),
                "\"tag_name\":"@,
                j,
            ),
        forall|j: int|
            0 <= j < before.len() ==> !text::occurs_at(
                before + "\"tag_name\":"@ + (gap + seq!['"'] + (version + seq!['"'] + after)),
                "\"tag_name\":"@,
                j,
            ),
        text::lacks(gap, '"'),
        text::lacks(version, '"'),
        !text::contains(gap + seq!['"'] + (seq!['v'] + version + seq!['"'] + after), "\"tag_name\":"@),
        !text::contains(gap + seq!['"'] + (version + seq!['"'] + after), "\"tag_name\":"@),
        version.len() > 0 && version[0] != 'v',
    ensures
        release_version(
            before + "\"tag_name\":"@ + (gap + seq!['"'] + (seq!['v'] + version + seq!['"'] + after)),
        ) == Some(version),
        release_version(
            before + "\"tag_name\":"@ + (gap + seq!['"'] + (version + seq!['"'] + after)),
        ) == Some(version),
{
    reveal_strlit("v");
    reveal_strlit("\"tag_name\":");
    let tagged = seq!['v'] + version;
    assert forall|i: int| 0 <= i < tagged.len() implies #[trigger] tagged[i] != '"' by {
        if i > 0 {
            assert(tagged[i] == version[i - 1]);
        }
    }
    lemma_tag(before, gap, tagged, after);
    lemma_tag(before, gap, version, after);
    assert(tagged.subrange(0, 1) =~= "v"@);
    assert(tagged.skip(1) =~= version);
    if text::starts_with(version, "v"@) {
        assert(version.subrange(0, 1)[0] == version[0] && "v"@[0] == 'v');
    }
}

proof fn lemma_tag(before: Seq<char>, gap: Seq<char>, tag: Seq<char>, after: Seq<char>)
    requires
        forall|j: int|
            0 <= j < before.len() ==> !text::occurs_at(
                before + "\"tag_name\":"@ + (gap + seq!['"'] + (tag + seq!['"'] + after)),
                "\"tag_name\":"@,
                j,
            ),
        text::lacks(gap, '"'),
        text::lacks(tag, '"'),
        !text::contains(gap + seq!['"'] + (tag + seq!['"'] + after), "\"tag_name\":"@),
    ensures
        release_version(before + "\"tag_name\":"@ + (gap + seq!['"'] + (tag + seq!['"'] + after)))
            == Some(text::trim_start_matches(tag, "v"@)),
{
    reveal_strlit("\"tag_name\":");
    let key = "\"tag_name\":"@;
    let rest = gap + seq!['"'] + (tag + seq!['"'] + after);
    text::law_a_text_is_cut_at_its_separator(before, key, rest);
    text::law_a_text_without_separator_stays(rest, key);
    let parts = text::split_on(before + key + rest, key);
    assert(parts =~= seq![before, rest]);
    text::law_the_first_piece_comes_first(gap, '"', tag + seq!['"'] + after);
    text::law_the_first_piece_comes_first(tag, '"', after);
    text::lemma_split_len(after, seq!['"']);
    assert(text::split(rest, '"')[1] == tag);
}

/// The hash of a program is the first word of the line that ends in its name, and of no line about a file
/// whose name only ends alike; the first such line counts.
pub proof fn law_a_program_has_its_published_hash(
    sums: Seq<char>,
    hashes: Seq<Seq<char>>,
    names: Seq<Seq<char>>,
    k: int,
    other: Seq<char>,
)
    requires
        hashes.len() == names.len() == text::lines(sums).len(),
        forall|i: int|
            0 <= i < names.len() ==> pick::plain_name(#[trigger] names[i]) && pick::is_hash(hashes[i])
                && text::lines(sums)[i] == hashes[i] + seq![' ', ' '] + names[i],
        0 <= k < names.len(),
        forall|i: int| 0 <= i < k ==> #[trigger] names[i] != names[k],
        forall|i: int| 0 <= i < names.len() ==> #[trigger] names[i] != other,
    ensures
        asset_hash(sums, names[k]) == Some(hashes[k]),
        asset_hash(sums, other) is None,
{
    let ls = text::lines(sums);
    assert forall|i: int| 0 <= i < ls.len() implies pick::listed_name(#[trigger] ls[i]) == names[i]
        && text::words(ls[i]).len() > 0 && text::words(ls[i])[0] == hashes[i] && text::ends_with(
        ls[i],
        names[i],
    ) by {
        assert(pick::plain_name(names[i]));
        lemma_sum_line(hashes[i], names[i]);
    }
    lemma_asset_line(ls, names, names[k], 0, k);
    lemma_no_asset_line(ls, names, other, 0);
}

proof fn lemma_sum_line(h: Seq<char>, f: Seq<char>)
    requires
        pick::plain_name(f),
        pick::is_hash(h),
    ensures
        ({
            let l = h + seq![' ', ' '] + f;
            &&& pick::listed_name(l) == f
            &&& text::words(l).len() > 0 && text::words(l)[0] == h
            &&& text::ends_with(l, f)
        }),
{
    let b = seq![' ', ' '];
    let l = h + b + f;
    assert(text::blank(b)) by {
        text::law_what_white_space_is(' ');
    }
    assert forall|i: int| 0 <= i < h.len() implies !text::is_space(#[trigger] h[i]) by {
        text::law_what_white_space_is(h[i]);
    }
    text::law_the_first_word_comes_first(h, b, f);
    text::law_a_trimmed_text_stays(f);
    text::law_the_last_piece_comes_last(Seq::empty(), '/', f);
    assert(l.subrange(l.len() - f.len(), l.len() as int) =~= f);
}

proof fn lemma_asset_line(
    ls: Seq<Seq<char>>,
    names: Seq<Seq<char>>,
    f: Seq<char>,
    i: int,
    k: int,
)
    requires
        names.len() == ls.len(),
        0 <= i <= k < ls.len(),
        names[k] == f,
        forall|j: int|
            0 <= j < ls.len() ==> pick::listed_name(#[trigger] ls[j]) == names[j] && text::ends_with(
                ls[j],
                names[j],
            ),
        forall|j: int| i <= j < k ==> #[trigger] names[j] != f,
    ensures
        asset_line_from(ls, f, i) == Some(ls[k]),
    decreases k - i,
{
    assert(pick::listed_name(ls[i]) == names[i]);
    if i < k {
        assert(names[i] != f);
        lemma_asset_line(ls, names, f, i + 1, k);
    }
}

proof fn lemma_no_asset_line(ls: Seq<Seq<char>>, names: Seq<Seq<char>>, f: Seq<char>, i: int)
    requires
        names.len() == ls.len(),
        0 <= i,
        forall|j: int| 0 <= j < ls.len() ==> pick::listed_name(#[trigger] ls[j]) == names[j],
        forall|j: int| 0 <= j < names.len() ==> #[trigger] names[j] != f,
    ensures
        asset_line_from(ls, f, i) is None,
    decreases ls.len() - i,
{
    if i < ls.len() {
        assert(pick::listed_name(ls[i]) == names[i]);
        assert(names[i] != f);
        lemma_no_asset_line(ls, names, f, i + 1);
    }
}

/// An update goes on only to a newer release and only when more than a look was asked for. A feed that
/// cannot be read is a failure for a person, and an answer for a program.
pub proof fn law_when_an_update_goes_on(
    here: Seq<char>,
    only_check: bool,
    json: bool,
    body: Seq<char>,
    e: Seq<char>,
)
    ensures
        ({
            let a = next_advance(here, only_check, json, ProgressView::Feed, ReportView::Text(Ok(body)));
            let v = release_version(body);
            &&& v is Some && is_newer(v->0, here) && !only_check ==> a.chore is TryDirectory
            &&& v is Some && (only_check || !is_newer(v->0, here)) ==> a.chore == ChoreView::End(true)
            &&& v is None ==> a.chore == ChoreView::End(json)
        }),
        next_advance(here, only_check, json, ProgressView::Feed, ReportView::Text(Err(e))).chore
            == ChoreView::End(json),
        next_advance(here, only_check, json, ProgressView::Directory, ReportView::Directory(Err(e))).chore
            == ChoreView::End(false),
        next_advance(here, only_check, json, ProgressView::Directory, ReportView::Directory(Ok(()))).chore
            == ChoreView::Read("https://github.com/0xb0rn3/arxburn/releases/latest/download/SHA256SUMS"@),
        next_advance(here, only_check, json, ProgressView::Sums, ReportView::Text(Err(e))).chore
            == ChoreView::End(false),
{
    reveal_strlit("https://github.com/0xb0rn3/arxburn/releases/latest/download/SHA256SUMS");
    reveal_strlit("https://github.com/");
    reveal_strlit("0xb0rn3/arxburn");
    reveal_strlit("/releases/latest/download/");
    reveal_strlit("SHA256SUMS");
    assert(asset_address("SHA256SUMS"@)
        =~= "https://github.com/0xb0rn3/arxburn/releases/latest/download/SHA256SUMS"@);
}

/// Each program in turn: one that is not installed or has no published hash is passed over, any other is
/// downloaded and hashed; when its hash is the published one, it is ready, and otherwise everything that
/// was downloaded is removed and nothing replaced. Only when all are dealt with are the ready ones put in
/// place, one after the other.
pub proof fn law_how_each_program_is_updated(
    here: Seq<char>,
    only_check: bool,
    json: bool,
    sums: Seq<char>,
    asset: int,
    ready: Seq<usize>,
    want: Seq<char>,
    got: Seq<char>,
    e: Seq<char>,
    what: Seq<char>,
    next: int,
)
    requires
        0 <= asset < 2,
        0 <= next < ready.len(),
    ensures
        ({
            let find = ProgressView::Finding { sums, asset, ready };
            let missing = next_advance(here, only_check, json, find, ReportView::Installed(false));
            let there = next_advance(here, only_check, json, find, ReportView::Installed(true));
            let hash = asset_hash(sums, assets()[asset]);
            let on = if asset == 0 {
                ChoreView::Find(1)
            } else {
                ChoreView::Replace(ready[0] as int)
            };
            &&& missing.chore == on
            &&& hash is None ==> there.chore == on
            &&& hash is Some ==> there.chore is Fetch && there.chore->Fetch_asset == asset && there.progress
                == (ProgressView::Fetching { sums, asset, want: hash->0, ready })
        }),
        ({
            let fetch = ProgressView::Fetching { sums, asset, want, ready };
            &&& next_advance(here, only_check, json, fetch, ReportView::Fetched(Ok(()))).chore
                == ChoreView::Hash(asset)
            &&& next_advance(here, only_check, json, fetch, ReportView::Fetched(Err(e))).chore
                == ChoreView::Discard(ready.push(asset as usize))
        }),
        ({
            let hashing = ProgressView::Hashing { sums, asset, want, ready };
            let a = next_advance(here, only_check, json, hashing, ReportView::Hashed(Ok(got)));
            let b = next_advance(here, only_check, json, hashing, ReportView::Hashed(Err(e)));
            &&& b.chore == ChoreView::Discard(ready.push(asset as usize))
            &&& got != want ==> a.chore == ChoreView::Discard(ready.push(asset as usize))
            &&& got == want && asset == 0 ==> a.chore == ChoreView::Find(1) && a.progress == (
            ProgressView::Finding { sums, asset: 1, ready: ready.push(0) })
            &&& got == want && asset == 1 ==> a.progress == (ProgressView::Replacing {
                sums,
                ready: ready.push(1),
                next: 0,
            })
        }),
        ({
            let replacing = ProgressView::Replacing { sums, ready, next };
            let a = next_advance(here, only_check, json, replacing, ReportView::Replaced(Ok(what)));
            let b = next_advance(here, only_check, json, replacing, ReportView::Replaced(Err(e)));
            &&& next + 1 < ready.len() ==> a.chore == ChoreView::Replace(ready[next + 1] as int)
            &&& next + 1 == ready.len() ==> a.chore == ChoreView::End(true)
            &&& b.chore == ChoreView::Discard(ready.skip(next))
        }),
{
}

/// The event about a release says which one is here, which is the newest, and whether that is newer.
pub proof fn law_what_the_update_event_says(here: Seq<char>, latest: Seq<char>)
    ensures
        json::has_field(update_event(here, latest), "current"@, json::quoted(here)),
        json::has_field(update_event(here, latest), "latest"@, json::quoted(latest)),
        is_newer(latest, here) ==> json::has_field(update_event(here, latest), "available"@, "true"@),
        !is_newer(latest, here) ==> json::has_field(update_event(here, latest), "available"@, "false"@),
        update_report(here, Some(latest), true) == seq![say::NoteView::Event(update_event(here, latest))],
        is_newer(latest, here) ==> update_report(here, Some(latest), false) == seq![
            say::NoteView::Good(latest + " is available (you have "@ + here + ")"@),
        ],
        !is_newer(latest, here) ==> update_report(here, Some(latest), false) == seq![
            say::NoteView::Good(here + " is the newest release"@),
        ],
        update_report(here, None, false)[0] is Bad,
{
    let f = seq![
        ("event"@, json::quoted("update"@)),
        ("current"@, json::quoted(here)),
        ("latest"@, json::quoted(latest)),
        ("available"@, json::truth(is_newer(latest, here))),
    ];
    json::law_a_written_field_is_there(f, 1);
    json::law_a_written_field_is_there(f, 2);
    json::law_a_written_field_is_there(f, 3);
}

} // verus!
