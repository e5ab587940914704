//! The window's side: it decides nothing about what may be written. Every action runs the program
//! itself and forwards what it says.

use vstd::prelude::*;
use vstd::string::*;

use crate::dev::copy_strings;
use crate::json;
use crate::listing;
use crate::listing::to_lowercase;
use crate::text;

verus! {

// ---- the program behind the window ----------------------------------------------------------

/// The program that the window runs: the installed one, or else the one that lies beside the window,
/// if there is one.
pub open spec fn program_of(installed: bool, beside: Option<Seq<char>>) -> Seq<char> {
    match beside {
        Some(path) => if installed {
            "arxburn"@
        } else {
            path
        },
        None => "arxburn"@,
    }
}

/// Prefer an installed arxburn, fall back to one that lies beside the window, so it works both once
/// installed and straight out of a build directory.
pub fn cli(installed: bool, beside: &Option<String>) -> (r: String)
    ensures
        r@ == program_of(installed, text::text_opt(*beside)),
{
    match beside {
        Some(path) => if installed {
            "arxburn".to_owned()
        } else {
            path.clone()
        },
        None => "arxburn".to_owned(),
    }
}

// ---- the answer of a one-shot command -------------------------------------------------------

/// What is wrong with a text as JSON, as [`serde_json::from_str`] says; nothing when it can be read.
pub uninterp spec fn json_fault(line: Seq<char>) -> Option<Seq<char>>;

/// [`serde_json::from_str`] into a [`serde_json::Value`]: the words of its error, if it gives one.
/// Claimed is only that this depends on nothing but the text.
#[verifier::external_body]
fn fault_of(line: &str) -> (r: Option<String>)
    ensures
        text::text_opt(r) == json_fault(line@),
{
    match serde_json::from_str::<serde_json::Value>(line) {
        Ok(_) => None,
        Err(e) => Some(e.to_string()),
    }
}

/// The last line that begins with a brace.
pub open spec fn last_object(ls: Seq<Seq<char>>) -> Option<Seq<char>>
    decreases ls.len(),
{
    if ls.len() == 0 {
        None
    } else if text::starts_with(ls.last(), "{"@) {
        Some(ls.last())
    } else {
        last_object(ls.drop_last())
    }
}

/// What is made of the last object that a command printed, given what is wrong with it.
pub open spec fn judged(line: Seq<char>, fault: Option<Seq<char>>) -> Result<Seq<char>, Seq<char>> {
    match fault {
        Some(e) => Err("cannot read arxburn's answer: "@ + e),
        None => Ok(line),
    }
}

/// What a command that printed no object is taken to have said.
pub open spec fn silence(stderr: Seq<char>) -> Seq<char> {
    if text::trim(stderr).len() == 0 {
        "arxburn said nothing"@
    } else {
        text::trim(stderr)
    }
}

pub open spec fn answer_of(stdout: Seq<char>, stderr: Seq<char>) -> Result<Seq<char>, Seq<char>> {
    match last_object(text::lines(stdout)) {
        Some(line) => judged(line, json_fault(line)),
        None => Err(silence(stderr)),
    }
}

/// The answer that a line is, given what is wrong with it as JSON.
pub fn judge(line: String, fault: &Option<String>) -> (r: Result<String, String>)
    ensures
        text::text_result(r) == judged(line@, text::text_opt(*fault)),
{
    match fault {
        Some(e) => {
            let mut s: String = "cannot read arxburn's answer: ".to_owned();
            s.append(e);
            Err(s)
        },
        None => Ok(line),
    }
}

fn object_line(stdout: &str) -> (r: Option<String>)
    ensures
        text::text_opt(r) == last_object(text::lines(stdout@)),
{
    let ls: Vec<Vec<char>> = text::lines_of(&text::chars_of(stdout));
    let ghost all = text::texts(ls@);
    let mut i: usize = ls.len();
    assert(all.take(i as int) =~= all);
    while i > 0
        invariant
            i <= ls@.len(),
            all == text::texts(ls@),
            all == text::lines(stdout@),
            last_object(all) == last_object(all.take(i as int)),
        decreases i,
    {
        assert(all.take(i as int).last() == ls@[i - 1]@);
        assert(all.take(i as int).drop_last() =~= all.take(i - 1));
        if text::begins(&ls[i - 1], "{") {
            return Some(text::string_of(&ls[i - 1]));
        }
        i -= 1;
    }
    None
}

/// The one line of JSON that a command answered with.
pub fn one_shot(stdout: &str, stderr: &str) -> (r: Result<String, String>)
    ensures
        text::text_result(r) == answer_of(stdout@, stderr@),
{
    match object_line(stdout) {
        Some(line) => {
            let fault: Option<String> = fault_of(&line);
            judge(line, &fault)
        },
        None => {
            let c: Vec<char> = text::chars_of(stderr);
            let t: &[char] = text::trimmed(&c);
            if t.len() == 0 {
                Err("arxburn said nothing".to_owned())
            } else {
                Err(text::string_of(t))
            }
        },
    }
}

/// Whether a line of a running job is passed on to the window: exactly when it is JSON.
pub fn passed_on(line: &str) -> (r: bool)
    ensures
        r == (json_fault(line@) is None),
{
    fault_of(line).is_none()
}

// ---- jobs -----------------------------------------------------------------------------------

/// The arguments of a burn.
pub open spec fn burn_args_of(
    image: Seq<char>,
    device: Seq<char>,
    allow_internal: bool,
    verify: bool,
) -> Seq<Seq<char>> {
    let a = seq!["write"@, image, "--to"@, device, "--yes"@];
    let b = if allow_internal {
        a.push("--allow-internal"@)
    } else {
        a
    };
    if verify {
        b
    } else {
        b.push("--no-verify"@)
    }
}

pub fn burn_args(image: &str, device: &str, allow_internal: bool, verify: bool) -> (r: Vec<String>)
    ensures
        text::strings(r@) == burn_args_of(image@, device@, allow_internal, verify),
{
    let mut v: Vec<String> = Vec::new();
    v.push("write".to_owned());
    v.push(image.to_owned());
    v.push("--to".to_owned());
    v.push(device.to_owned());
    v.push("--yes".to_owned());
    if allow_internal {
        v.push("--allow-internal".to_owned());
    }
    if !verify {
        v.push("--no-verify".to_owned());
    }
    assert(text::strings(v@) =~= burn_args_of(image@, device@, allow_internal, verify));
    v
}

/// The arguments of a download.
pub fn download_args(id: &str, out: &str) -> (r: Vec<String>)
    ensures
        text::strings(r@) == seq!["get"@, id@, "--out"@, out@],
{
    let mut v: Vec<String> = Vec::new();
    v.push("get".to_owned());
    v.push(id.to_owned());
    v.push("--out".to_owned());
    v.push(out.to_owned());
    assert(text::strings(v@) =~= seq!["get"@, id@, "--out"@, out@]);
    v
}

/// A program and its arguments. A burn needs root: pkexec asks through the desktop's own dialog, so
/// no password is ever typed into the window.
pub open spec fn command_line(cli: Seq<char>, args: Seq<Seq<char>>, privileged: bool) -> (
    Seq<char>,
    Seq<Seq<char>>,
) {
    if privileged {
        ("pkexec"@, seq![cli] + args.push("--json"@))
    } else {
        (cli, args.push("--json"@))
    }
}

pub fn job_command(cli: &str, args: &Vec<String>, privileged: bool) -> (r: (String, Vec<String>))
    ensures
        (r.0@, text::strings(r.1@)) == command_line(cli@, text::strings(args@), privileged),
{
    let mut all: Vec<String> = copy_strings(args);
    all.push("--json".to_owned());
    assert(text::strings(all@) =~= text::strings(args@).push("--json"@));
    if privileged {
        let ghost before = text::strings(all@);
        all.insert(0, cli.to_owned());
        assert(text::strings(all@) =~= seq![cli@] + before);
        ("pkexec".to_owned(), all)
    } else {
        (cli.to_owned(), all)
    }
}

/// A job cannot be started while another runs.
pub fn may_start(running: bool) -> (r: Result<(), String>)
    ensures
        match r {
            Ok(_) => !running,
            Err(e) => running && e@ == "something is already running"@,
        },
{
    if running {
        Err("something is already running".to_owned())
    } else {
        Ok(())
    }
}

pub open spec fn start_error_text(privileged: bool, e: Seq<char>) -> Seq<char> {
    if privileged {
        "cannot start pkexec: "@ + e
            + ". Install polkit, or burn from a terminal with sudo."@
    } else {
        "cannot run arxburn: "@ + e
    }
}

/// Why a job could not be started.
pub fn start_error(privileged: bool, e: &str) -> (r: String)
    ensures
        r@ == start_error_text(privileged, e@),
{
    if privileged {
        let mut s: String = "cannot start pkexec: ".to_owned();
        s.append(e);
        s.append(". Install polkit, or burn from a terminal with sudo.");
        s
    } else {
        let mut s: String = "cannot run arxburn: ".to_owned();
        s.append(e);
        s
    }
}

/// The last line that says anything.
pub open spec fn last_said(ls: Seq<Seq<char>>) -> Seq<char>
    decreases ls.len(),
{
    if ls.len() == 0 {
        seq![]
    } else if text::trim(ls.last()).len() > 0 {
        ls.last()
    } else {
        last_said(ls.drop_last())
    }
}

/// What a job complained about last.
pub fn detail(lines: &Vec<String>) -> (r: String)
    ensures
        r@ == last_said(text::strings(lines@)),
{
    let ghost all = text::strings(lines@);
    let mut i: usize = lines.len();
    assert(all.take(i as int) =~= all);
    while i > 0
        invariant
            i <= lines@.len(),
            all == text::strings(lines@),
            last_said(all) == last_said(all.take(i as int)),
        decreases i,
    {
        assert(all.take(i as int).last() == lines@[i - 1]@);
        assert(all.take(i as int).drop_last() =~= all.take(i - 1));
        if text::trimmed(&text::chars_of(&lines[i - 1])).len() > 0 {
            return lines[i - 1].clone();
        }
        i -= 1;
    }
    String::new()
}

/// The event that tells the window that a job is over.
pub open spec fn finished_event(code: i32, detail: Seq<char>) -> Seq<char> {
    json::object_text(
        seq![
            ("event"@, json::quoted("finished"@)),
            ("code"@, json::signed_text(code as int)),
            ("detail"@, json::quoted(detail)),
        ],
    )
}

pub fn finished(code: i32, said: &str) -> (r: String)
    ensures
        r@ == finished_event(code, said@),
{
    let mut f: Vec<json::Field> = Vec::new();
    f.push(("event", json::s("finished")));
    f.push(("code", json::i(code)));
    f.push(("detail", json::s(said)));
    assert(json::fields_view(f@) =~= seq![
        ("event"@, json::quoted("finished"@)),
        ("code"@, json::signed_text(code as int)),
        ("detail"@, json::quoted(said@)),
    ]);
    json::object(&f)
}

pub open spec fn version_text(said: Option<Seq<char>>) -> Seq<char> {
    match said {
        Some(s) => if text::trim(s).len() > 0 {
            text::trim(s)
        } else {
            "arxburn (not installed)"@
        },
        None => "arxburn (not installed)"@,
    }
}

/// The version to show, out of what the program says of itself, if it could be run.
pub fn version(said: &Option<String>) -> (r: String)
    ensures
        r@ == version_text(text::text_opt(*said)),
{
    if let Some(s) = said {
        let c: Vec<char> = text::chars_of(s);
        let t: &[char] = text::trimmed(&c);
        if t.len() > 0 {
            return text::string_of(t);
        }
    }
    "arxburn (not installed)".to_owned()
}

// ---- images on disk -------------------------------------------------------------------------

/// A file that may be an image.
pub struct LocalImage {
    pub name: String,
    pub path: String,
    pub size: u64,
}

pub struct LocalImageView {
    pub name: Seq<char>,
    pub path: Seq<char>,
    pub size: u64,
}

impl View for LocalImage {
    type V = LocalImageView;

    open spec fn view(&self) -> LocalImageView {
        LocalImageView { name: self.name@, path: self.path@, size: self.size }
    }
}

impl Clone for LocalImage {
    fn clone(&self) -> (r: Self)
        ensures
            r@ == self@,
    {
        LocalImage { name: self.name.clone(), path: self.path.clone(), size: self.size }
    }
}

pub open spec fn images_view(v: Seq<LocalImage>) -> Seq<LocalImageView> {
    Seq::new(v.len(), |i: int| v[i]@)
}

/// Where images are looked for.
pub open spec fn places(home: Seq<char>, here: Seq<char>) -> Seq<Seq<char>> {
    let a = seq![home + "/Downloads"@, home + "/iso"@];
    let b = if home.len() == 0 {
        a
    } else {
        a.push(home)
    };
    if here.len() == 0 {
        b
    } else {
        b.push(here)
    }
}

pub fn image_dirs(home: &str, here: &str) -> (r: Vec<String>)
    ensures
        text::strings(r@) == places(home@, here@),
{
    let mut a: String = home.to_owned();
    a.append("/Downloads");
    let mut b: String = home.to_owned();
    b.append("/iso");
    let mut v: Vec<String> = Vec::new();
    v.push(a);
    v.push(b);
    if text::chars_of(home).len() > 0 {
        v.push(home.to_owned());
    }
    if text::chars_of(here).len() > 0 {
        v.push(here.to_owned());
    }
    assert(text::strings(v@) =~= places(home@, here@));
    v
}

/// A name in small letters that ends like that of an image.
pub open spec fn ends_like_an_image(lower: Seq<char>) -> bool {
    text::ends_with(lower, ".iso"@) || text::ends_with(lower, ".img"@)
}

/// Whether a name, in small letters, ends like that of an image.
pub fn is_image(lower: &str) -> (r: bool)
    ensures
        r == ends_like_an_image(lower@),
{
    let c: Vec<char> = text::chars_of(lower);
    text::ends(&c, ".iso") || text::ends(&c, ".img")
}

/// The first sixty files that are images.
pub open spec fn picked(v: Seq<LocalImageView>) -> Seq<LocalImageView>
    decreases v.len(),
{
    if v.len() == 0 {
        seq![]
    } else {
        let before = picked(v.drop_last());
        if ends_like_an_image(listing::lowercase_of(v.last().name)) && before.len() < 60 {
            before.push(v.last())
        } else {
            before
        }
    }
}

/// A key to sort by, and what is sorted.
pub struct Keyed {
    pub key: String,
    pub image: LocalImage,
}

pub open spec fn keyed_view(v: Seq<Keyed>) -> Seq<(Seq<char>, LocalImageView)> {
    Seq::new(v.len(), |i: int| (v[i].key@, v[i].image@))
}

/// The first place from `i` on whose key comes after `key`.
pub open spec fn place_from(v: Seq<(Seq<char>, LocalImageView)>, key: Seq<char>, i: int) -> int
    decreases v.len() - i,
{
    if i < 0 || i >= v.len() || text::precedes(key, v[i].0) {
        i
    } else {
        place_from(v, key, i + 1)
    }
}

/// Some keyed images with one more, after those whose key does not come after its own.
pub open spec fn placed(
    v: Seq<(Seq<char>, LocalImageView)>,
    x: (Seq<char>, LocalImageView),
) -> Seq<(Seq<char>, LocalImageView)> {
    v.insert(place_from(v, x.0, 0), x)
}

/// The keyed images in the order of their keys; those with one key stay in their order.
pub open spec fn arranged(v: Seq<(Seq<char>, LocalImageView)>) -> Seq<(Seq<char>, LocalImageView)>
    decreases v.len(),
{
    if v.len() == 0 {
        seq![]
    } else {
        placed(arranged(v.drop_last()), v.last())
    }
}

/// The images without their keys, each that has the path of the one before it left out.
pub open spec fn without_repeats(v: Seq<(Seq<char>, LocalImageView)>) -> Seq<LocalImageView>
    decreases v.len(),
{
    if v.len() == 0 {
        seq![]
    } else {
        let before = without_repeats(v.drop_last());
        if before.len() > 0 && before.last().path == v.last().1.path {
            before
        } else {
            before.push(v.last().1)
        }
    }
}

/// Each image with its name in small letters as its key.
pub open spec fn by_name(v: Seq<LocalImageView>) -> Seq<(Seq<char>, LocalImageView)> {
    v.map_values(|i: LocalImageView| (listing::lowercase_of(i.name), i))
}

/// The images to offer, out of the files found.
pub open spec fn offered(v: Seq<LocalImageView>) -> Seq<LocalImageView> {
    without_repeats(arranged(by_name(picked(v))))
}

fn place(v: &Vec<Keyed>, key: &str) -> (r: usize)
    ensures
        r == place_from(keyed_view(v@), key@, 0),
        r <= v@.len(),
{
    let ghost all = keyed_view(v@);
    let k: Vec<char> = text::chars_of(key);
    let mut i: usize = 0;
    while i < v.len()
        invariant
            i <= v@.len(),
            all == keyed_view(v@),
            k@ == key@,
            place_from(all, key@, 0) == place_from(all, key@, i as int),
        decreases v@.len() - i,
    {
        assert(all[i as int] == (v@[i as int].key@, v@[i as int].image@));
        if text::before(&k, &text::chars_of(&v[i].key)) {
            return i;
        }
        i += 1;
    }
    i
}

fn put(v: &mut Vec<Keyed>, x: Keyed)
    ensures
        keyed_view(final(v)@) == placed(keyed_view(old(v)@), (x.key@, x.image@)),
{
    let ghost all = keyed_view(v@);
    let at: usize = place(v, &x.key);
    v.insert(at, x);
    assert(keyed_view(v@) =~= placed(all, (x.key@, x.image@)));
}

/// Put keyed images in the order of their keys, and leave out each that has the path of the one
/// before it.
pub fn arrange(v: Vec<Keyed>) -> (r: Vec<LocalImage>)
    ensures
        images_view(r@) == without_repeats(arranged(keyed_view(v@))),
{
    let ghost all = keyed_view(v@);
    let mut sorted: Vec<Keyed> = Vec::new();
    let mut i: usize = 0;
    assert(keyed_view(sorted@) =~= arranged(all.take(0)));
    while i < v.len()
        invariant
            i <= v@.len(),
            all == keyed_view(v@),
            keyed_view(sorted@) == arranged(all.take(i as int)),
        decreases v@.len() - i,
    {
        assert(all.take(i + 1).drop_last() =~= all.take(i as int));
        assert(all[i as int] == (v@[i as int].key@, v@[i as int].image@));
        put(&mut sorted, Keyed { key: v[i].key.clone(), image: v[i].image.clone() });
        i += 1;
    }
    assert(all.take(i as int) =~= all);
    let ghost order = keyed_view(sorted@);
    let mut out: Vec<LocalImage> = Vec::new();
    let mut k: usize = 0;
    assert(images_view(out@) =~= without_repeats(order.take(0)));
    while k < sorted.len()
        invariant
            k <= sorted@.len(),
            order == keyed_view(sorted@),
            images_view(out@) == without_repeats(order.take(k as int)),
        decreases sorted@.len() - k,
    {
        assert(order.take(k + 1).drop_last() =~= order.take(k as int));
        assert(order[k as int] == (sorted@[k as int].key@, sorted@[k as int].image@));
        let n: usize = out.len();
        let repeat: bool = if n > 0 {
            assert(images_view(out@).last() == out@[n - 1]@);
            text::same_str(&text::chars_of(&out[n - 1].path), &sorted[k].image.path)
        } else {
            false
        };
        if !repeat {
            let ghost before = images_view(out@);
            out.push(sorted[k].image.clone());
            assert(images_view(out@) =~= before.push(sorted@[k as int].image@));
        }
        k += 1;
    }
    assert(order.take(k as int) =~= order);
    out
}

/// The images to offer, out of the files found: those that are images, at most sixty, by name.
pub fn local_images(found: &Vec<LocalImage>) -> (r: Vec<LocalImage>)
    ensures
        images_view(r@) == offered(images_view(found@)),
{
    let ghost all = images_view(found@);
    let mut v: Vec<Keyed> = Vec::new();
    let mut i: usize = 0;
    assert(keyed_view(v@) =~= by_name(picked(all.take(0))));
    while i < found.len()
        invariant
            i <= found@.len(),
            all == images_view(found@),
            v@.len() <= 60,
            v@.len() == picked(all.take(i as int)).len(),
            keyed_view(v@) == by_name(picked(all.take(i as int))),
        decreases found@.len() - i,
    {
        assert(all.take(i + 1).drop_last() =~= all.take(i as int));
        assert(all[i as int] == found@[i as int]@);
        let lower: String = to_lowercase(&found[i].name);
        if is_image(&lower) && v.len() < 60 {
            let ghost before = picked(all.take(i as int));
            let ghost kv = keyed_view(v@);
            v.push(Keyed { key: lower, image: found[i].clone() });
            assert(keyed_view(v@) =~= kv.push((lower@, found@[i as int]@)));
            assert(by_name(before.push(all[i as int])) =~= by_name(before).push(
                (lower@, all[i as int]),
            ));
        }
        i += 1;
    }
    assert(all.take(i as int) =~= all);
    arrange(v)
}

// ---- laws -----------------------------------------------------------------------------------

proof fn lemma_place(v: Seq<(Seq<char>, LocalImageView)>, key: Seq<char>, i: int)
    requires
        0 <= i <= v.len(),
    ensures
        i <= place_from(v, key, i) <= v.len(),
        forall|j: int| i <= j < place_from(v, key, i) ==> !text::precedes(key, (#[trigger] v[j]).0),
        place_from(v, key, i) < v.len() ==> text::precedes(key, v[place_from(v, key, i)].0),
    decreases v.len() - i,
{
    if i < v.len() && !text::precedes(key, v[i].0) {
        lemma_place(v, key, i + 1);
    }
}

/// No key comes before one that stands in front of it.
pub open spec fn in_order(v: Seq<(Seq<char>, LocalImageView)>) -> bool {
    forall|i: int, j: int|
        0 <= i < j < v.len() ==> !text::precedes((#[trigger] v[j]).0, (#[trigger] v[i]).0)
}

proof fn lemma_precedes_trans(a: Seq<char>, b: Seq<char>, c: Seq<char>)
    ensures
        text::precedes(a, b) && text::precedes(b, c) ==> text::precedes(a, c),
        text::precedes(a, b) ==> !text::precedes(b, a),
    decreases a.len() + b.len() + c.len(),
{
    if a.len() > 0 && b.len() > 0 {
        if a[0] == b[0] {
            lemma_precedes_trans(
                a.drop_first(),
                b.drop_first(),
                if c.len() > 0 {
                    c.drop_first()
                } else {
                    c
                },
            );
        }
    }
}

proof fn lemma_placed_in_order(
    v: Seq<(Seq<char>, LocalImageView)>,
    x: (Seq<char>, LocalImageView),
)
    requires
        in_order(v),
    ensures
        in_order(placed(v, x)),
        placed(v, x).to_multiset() == v.to_multiset().insert(x),
{
    broadcast use vstd::seq_lib::group_to_multiset_ensures;

    let p = place_from(v, x.0, 0);
    lemma_place(v, x.0, 0);
    let w = placed(v, x);
    assert forall|i: int, j: int| 0 <= i < j < w.len() implies !text::precedes(
        (#[trigger] w[j]).0,
        (#[trigger] w[i]).0,
    ) by {
        if j < p {
            assert(w[i] == v[i] && w[j] == v[j]);
        } else if j == p {
            assert(w[i] == v[i] && w[j] == x);
        } else if i < p {
            assert(w[i] == v[i] && w[j] == v[j - 1]);
        } else if i == p {
            assert(w[i] == x && w[j] == v[j - 1]);
            assert(text::precedes(x.0, v[p].0));
            if p < j - 1 {
                assert(!text::precedes(v[j - 1].0, v[p].0));
                lemma_precedes_trans(v[j - 1].0, x.0, v[p].0);
            } else {
                lemma_precedes_trans(x.0, v[p].0, x.0);
            }
        } else {
            assert(w[i] == v[i - 1] && w[j] == v[j - 1]);
        }
    }
    assert(w =~= v.insert(p, x));
}

/// Arranging sorts: the keys come out in order, and nothing is lost or added.
pub proof fn law_arranged_is_sorted(v: Seq<(Seq<char>, LocalImageView)>)
    ensures
        in_order(arranged(v)),
        arranged(v).to_multiset() == v.to_multiset(),
    decreases v.len(),
{
    broadcast use vstd::seq_lib::group_to_multiset_ensures;

    if v.len() == 0 {
        assert(v =~= Seq::<(Seq<char>, LocalImageView)>::empty());
    } else {
        law_arranged_is_sorted(v.drop_last());
        lemma_placed_in_order(arranged(v.drop_last()), v.last());
        assert(v.drop_last().push(v.last()) =~= v);
    }
}

/// No two neighbours among the images offered have one path.
pub proof fn law_no_neighbours_with_one_path(v: Seq<(Seq<char>, LocalImageView)>, i: int)
    requires
        0 <= i,
        i + 1 < without_repeats(v).len(),
    ensures
        without_repeats(v)[i].path != without_repeats(v)[i + 1].path,
    decreases v.len(),
{
    let before = without_repeats(v.drop_last());
    if i + 1 < before.len() {
        law_no_neighbours_with_one_path(v.drop_last(), i);
    }
}

/// A burn started from the window is never asked to skip anything but what was chosen: the target
/// is the device that was picked, an internal disk is only allowed when that was ticked, and the
/// read back is only left out when that was.
pub proof fn law_the_window_passes_on_what_was_chosen(
    image: Seq<char>,
    device: Seq<char>,
    allow_internal: bool,
    verify: bool,
)
    requires
        image != "--allow-internal"@ && image != "--no-verify"@,
        device != "--allow-internal"@ && device != "--no-verify"@,
    ensures
        burn_args_of(image, device, allow_internal, verify)[1] == image,
        burn_args_of(image, device, allow_internal, verify)[3] == device,
        burn_args_of(image, device, allow_internal, verify).contains("--allow-internal"@)
            == allow_internal,
        burn_args_of(image, device, allow_internal, verify).contains("--no-verify"@) == !verify,
{
    reveal_strlit("--allow-internal");
    reveal_strlit("--no-verify");
    reveal_strlit("write");
    reveal_strlit("--to");
    reveal_strlit("--yes");
    let v = burn_args_of(image, device, allow_internal, verify);
    if allow_internal {
        assert(v[5] == "--allow-internal"@);
        if !verify {
            assert(v[6] == "--no-verify"@);
        }
    } else if !verify {
        assert(v[5] == "--no-verify"@);
    }
    assert("write"@.len() == 5 && "--to"@.len() == 4 && "--yes"@.len() == 5);
    assert("--allow-internal"@.len() == 16 && "--no-verify"@.len() == 11);
}

// ---- what the window shows and runs, in full ------------------------------------------------

/// The answer of a run is its last line that begins with a brace, whatever was said after it.
pub proof fn law_the_last_object_is_the_answer(
    before: Seq<Seq<char>>,
    line: Seq<char>,
    after: Seq<Seq<char>>,
)
    requires
        line.len() > 0 && line[0] == '{',
        forall|i: int| 0 <= i < after.len() ==> (#[trigger] after[i]).len() == 0 || after[i][0] != '{',
    ensures
        last_object(before.push(line) + after) == Some(line),
        last_object(after) is None,
    decreases after.len(),
{
    reveal_strlit("{");
    let all = before.push(line) + after;
    if after.len() == 0 {
        assert(all =~= before.push(line));
        assert(line.subrange(0, 1) =~= "{"@);
    } else {
        let last = after.last();
        assert(last == after[after.len() - 1]);
        if text::starts_with(last, "{"@) {
            assert(last.subrange(0, 1)[0] == last[0] && "{"@[0] == '{');
        }
        assert(all.last() == last);
        assert(all.drop_last() =~= before.push(line) + after.drop_last());
        assert forall|i: int| 0 <= i < after.drop_last().len() implies (
        #[trigger] after.drop_last()[i]).len() == 0 || after.drop_last()[i][0] != '{' by {
            assert(after.drop_last()[i] == after[i]);
        }
        law_the_last_object_is_the_answer(before, line, after.drop_last());
    }
}

/// The last thing that was said is the last line that is not blank, as it was said.
pub proof fn law_the_last_words_are_not_blank(
    before: Seq<Seq<char>>,
    line: Seq<char>,
    after: Seq<Seq<char>>,
)
    requires
        line.len() > 0 && !text::is_space(line[0]),
        forall|i: int| 0 <= i < after.len() ==> text::blank(#[trigger] after[i]),
    ensures
        last_said(before.push(line) + after) == line,
    decreases after.len(),
{
    let all = before.push(line) + after;
    if after.len() == 0 {
        assert(all =~= before.push(line));
        text::lemma_trim_keeps_first(line);
    } else {
        let last = after.last();
        assert(text::blank(after[after.len() - 1]));
        let none = Seq::<char>::empty();
        text::law_white_space_around_is_ignored(last, none, none);
        assert(last + none + none =~= last);
        assert(text::trim(none).len() == 0);
        assert(all.last() == last);
        assert(all.drop_last() =~= before.push(line) + after.drop_last());
        assert forall|i: int| 0 <= i < after.drop_last().len() implies text::blank(
            #[trigger] after.drop_last()[i],
        ) by {
            assert(after.drop_last()[i] == after[i]);
        }
        law_the_last_words_are_not_blank(before, line, after.drop_last());
    }
}

/// A run is given its arguments in their order and asked for events; one that needs privileges is started
/// through polkit, with the program as the first argument.
pub proof fn law_how_a_run_is_started(cli: Seq<char>, args: Seq<Seq<char>>)
    ensures
        command_line(cli, args, false) == (cli, args.push("--json"@)),
        command_line(cli, args, true).0 == "pkexec"@,
        command_line(cli, args, true).1[0] == cli,
        command_line(cli, args, true).1.drop_first() == command_line(cli, args, false).1,
{
    assert(command_line(cli, args, true).1.drop_first() =~= args.push("--json"@));
}

/// Images are looked for in the downloads, then in the images of the user, then in the home directory and
/// where the program was started, where there are such.
pub proof fn law_where_images_are_looked_for(home: Seq<char>, here: Seq<char>)
    ensures
        places(home, here)[0] == home + "/Downloads"@,
        places(home, here)[1] == home + "/iso"@,
        home.len() > 0 ==> places(home, here)[2] == home,
        here.len() > 0 ==> places(home, here).last() == here,
        places(home, here).len() == 2 + (if home.len() > 0 {
            1int
        } else {
            0
        }) + (if here.len() > 0 {
            1int
        } else {
            0
        }),
{
}

/// Files are offered by the end of their name, in capitals or not, the first sixty of them.
pub proof fn law_the_first_sixty_images_are_offered(v: Seq<LocalImageView>, x: LocalImageView)
    ensures
        ({
            let low = listing::lowercase_of(x.name);
            let image = low.len() >= 4 && (low.skip(low.len() - 4) == seq!['.', 'i', 's', 'o'] || low.skip(
                low.len() - 4,
            ) == seq!['.', 'i', 'm', 'g']);
            &&& image && picked(v).len() < 60 ==> picked(v.push(x)) == picked(v).push(x)
            &&& !image || picked(v).len() >= 60 ==> picked(v.push(x)) == picked(v)
        }),
        picked(Seq::empty()).len() == 0,
{
    reveal_strlit(".iso");
    reveal_strlit(".img");
    let low = listing::lowercase_of(x.name);
    assert(v.push(x).drop_last() =~= v);
    assert(".iso"@ =~= seq!['.', 'i', 's', 'o']);
    assert(".img"@ =~= seq!['.', 'i', 'm', 'g']);
    if low.len() >= 4 {
        assert(low.skip(low.len() - 4) =~= low.subrange(low.len() - 4, low.len() as int));
    }
}

/// What the program says of its version is shown without white space around it, and a program that says
/// nothing is not installed.
pub proof fn law_what_is_said_of_the_version(a: Seq<char>, s: Seq<char>, b: Seq<char>)
    requires
        text::blank(a),
        text::blank(b),
        s.len() > 0 && !text::is_space(s[0]) && !text::is_space(s.last()),
    ensures
        version_text(Some(a + s + b)) == s,
        version_text(Some(a)) == "arxburn (not installed)"@,
        version_text(None) == "arxburn (not installed)"@,
        silence(a + s + b) == s,
        silence(a) == "arxburn said nothing"@,
{
    text::law_white_space_around_is_ignored(a, s, b);
    text::law_a_trimmed_text_stays(s);
    let none = Seq::<char>::empty();
    text::law_white_space_around_is_ignored(a, none, none);
    assert(a + none + none =~= a);
    assert(text::trim(none).len() == 0);
}

/// The event at the end of a run says with which code it ended, its sign included, and what was last
/// said. The program that is run is the installed one, or else the one beside the window, where there is
/// one.
pub proof fn law_what_the_last_event_of_a_run_says(code: i32, detail: Seq<char>, beside: Seq<char>)
    ensures
        json::has_field(finished_event(code, detail), "detail"@, json::quoted(detail)),
        code >= 0 ==> json::has_field(finished_event(code, detail), "code"@, text::decimal(code as nat)),
        code < 0 ==> json::has_field(
            finished_event(code, detail),
            "code"@,
            seq!['-'] + text::decimal((-(code as int)) as nat),
        ),
        program_of(false, Some(beside)) == beside,
        program_of(true, Some(beside)) == "arxburn"@,
        program_of(false, None) == "arxburn"@,
{
    let f = seq![
        ("event"@, json::quoted("finished"@)),
        ("code"@, json::signed_text(code as int)),
        ("detail"@, json::quoted(detail)),
    ];
    json::law_a_written_field_is_there(f, 1);
    json::law_a_written_field_is_there(f, 2);
}

} // verus!
