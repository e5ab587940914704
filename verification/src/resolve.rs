//! Finding the newest build of an image.
//!
//! Resolving takes a few requests, each of which depends on the answer to the one before. What is
//! asked, and what is made of each answer, is decided here; carrying a request out is left to the
//! caller.

use vstd::prelude::*;
use vstd::string::*;

use crate::catalog;
use crate::catalog::{Iso, Source};
use crate::net;
use crate::percent;
use crate::pick;
use crate::text;
use crate::windows;

verus! {

/// Where the newest build of an image is, and what the project says its hash is.
pub struct Resolved {
    pub url: String,
    pub filename: String,
    pub sha256: Option<String>,
}

pub struct ResolvedView {
    pub url: Seq<char>,
    pub filename: Seq<char>,
    pub sha256: Option<Seq<char>>,
}

impl View for Resolved {
    type V = ResolvedView;

    open spec fn view(&self) -> ResolvedView {
        ResolvedView {
            url: self.url@,
            filename: self.filename@,
            sha256: text::text_opt(self.sha256),
        }
    }
}

/// What has to be fetched next.
pub enum Request {
    /// The text at an address.
    Text(String),
    /// The text at an address, asked for with extra headers.
    TextWith { url: String, headers: Vec<String> },
    /// Where an address lands once its redirects are followed.
    FinalUrl(String),
    /// A fresh session id.
    SessionId,
}

pub enum RequestView {
    Text(Seq<char>),
    TextWith { url: Seq<char>, headers: Seq<Seq<char>> },
    FinalUrl(Seq<char>),
    SessionId,
}

impl View for Request {
    type V = RequestView;

    open spec fn view(&self) -> RequestView {
        match self {
            Request::Text(u) => RequestView::Text(u@),
            Request::TextWith { url, headers } => RequestView::TextWith {
                url: url@,
                headers: text::strings(headers@),
            },
            Request::FinalUrl(u) => RequestView::FinalUrl(u@),
            Request::SessionId => RequestView::SessionId,
        }
    }
}

/// What the answer to a request will be used for.
pub enum Waiting {
    /// A checksum file for an image that is found already.
    Sums { url: String, filename: String },
    /// A page that links to images.
    Page { dir: String, prefix: String, suffix: String, reject: String, sums: Option<String> },
    /// A page that links to versioned directories.
    Root {
        root: String,
        dir_prefix: String,
        sub: String,
        prefix: String,
        suffix: String,
        reject: String,
        sums: Option<String>,
    },
    /// The description of an archive.org item.
    Archive(String),
    /// The description of the newest release of a repository.
    Release { repo: String, suffix: String },
    /// Where a link lands.
    Landing,
    /// A session id.
    Session(String),
    /// Microsoft's download page.
    WindowsPage { page: String, session: String },
    /// The answer to registering the session.
    Registered { page: String, session: String, edition: String },
    /// The editions on offer.
    Skus { page: String, session: String },
    /// The download links.
    Links(String),
}

pub enum WaitingView {
    Sums { url: Seq<char>, filename: Seq<char> },
    Page {
        dir: Seq<char>,
        prefix: Seq<char>,
        suffix: Seq<char>,
        reject: Seq<char>,
        sums: Option<Seq<char>>,
    },
    Root {
        root: Seq<char>,
        dir_prefix: Seq<char>,
        sub: Seq<char>,
        prefix: Seq<char>,
        suffix: Seq<char>,
        reject: Seq<char>,
        sums: Option<Seq<char>>,
    },
    Archive(Seq<char>),
    Release { repo: Seq<char>, suffix: Seq<char> },
    Landing,
    Session(Seq<char>),
    WindowsPage { page: Seq<char>, session: Seq<char> },
    Registered { page: Seq<char>, session: Seq<char>, edition: Seq<char> },
    Skus { page: Seq<char>, session: Seq<char> },
    Links(Seq<char>),
}

impl View for Waiting {
    type V = WaitingView;

    open spec fn view(&self) -> WaitingView {
        match self {
            Waiting::Sums { url, filename } => WaitingView::Sums { url: url@, filename: filename@ },
            Waiting::Page { dir, prefix, suffix, reject, sums } => WaitingView::Page {
                dir: dir@,
                prefix: prefix@,
                suffix: suffix@,
                reject: reject@,
                sums: text::text_opt(*sums),
            },
            Waiting::Root { root, dir_prefix, sub, prefix, suffix, reject, sums } => WaitingView::Root {
                root: root@,
                dir_prefix: dir_prefix@,
                sub: sub@,
                prefix: prefix@,
                suffix: suffix@,
                reject: reject@,
                sums: text::text_opt(*sums),
            },
            Waiting::Archive(id) => WaitingView::Archive(id@),
            Waiting::Release { repo, suffix } => WaitingView::Release { repo: repo@, suffix: suffix@ },
            Waiting::Landing => WaitingView::Landing,
            Waiting::Session(page) => WaitingView::Session(page@),
            Waiting::WindowsPage { page, session } => WaitingView::WindowsPage {
                page: page@,
                session: session@,
            },
            Waiting::Registered { page, session, edition } => WaitingView::Registered {
                page: page@,
                session: session@,
                edition: edition@,
            },
            Waiting::Skus { page, session } => WaitingView::Skus { page: page@, session: session@ },
            Waiting::Links(page) => WaitingView::Links(page@),
        }
    }
}

/// One step of resolving: ask for something, or the end of it.
pub enum Step {
    Ask { request: Request, waiting: Waiting },
    Found(Resolved),
    Failed(String),
}

pub enum StepView {
    Ask { request: RequestView, waiting: WaitingView },
    Found(ResolvedView),
    Failed(Seq<char>),
}

impl View for Step {
    type V = StepView;

    open spec fn view(&self) -> StepView {
        match self {
            Step::Ask { request, waiting } => StepView::Ask { request: request@, waiting: waiting@ },
            Step::Found(r) => StepView::Found(r@),
            Step::Failed(e) => StepView::Failed(e@),
        }
    }
}

// ---- what each step does --------------------------------------------------------------------

/// An image at `url` is found. Its hash is looked up in the checksum file at `sums`, if there is
/// one.
pub open spec fn found_at(
    url: Seq<char>,
    filename: Seq<char>,
    base: Seq<char>,
    sums: Option<Seq<char>>,
) -> StepView {
    match sums {
        Some(s) => StepView::Ask {
            request: RequestView::Text(pick::address(base, s)),
            waiting: WaitingView::Sums { url, filename },
        },
        None => StepView::Found(ResolvedView { url, filename, sha256: None }),
    }
}

/// Ask for the page at `dir` and pick an image there.
pub open spec fn ask_page(
    dir: Seq<char>,
    prefix: Seq<char>,
    suffix: Seq<char>,
    reject: Seq<char>,
    sums: Option<Seq<char>>,
) -> StepView {
    StepView::Ask {
        request: RequestView::Text(dir),
        waiting: WaitingView::Page { dir, prefix, suffix, reject, sums },
    }
}

/// The first step for an entry of the catalog.
pub open spec fn first_step(iso: catalog::IsoView) -> StepView {
    match iso.src {
        catalog::SourceView::Direct(url) => found_at(
            url,
            text::after_last(url, '/'),
            match text::before_last(url, '/') {
                Some(base) => base,
                None => Seq::empty(),
            },
            iso.sums,
        ),
        catalog::SourceView::Index { dir, prefix, suffix, reject } => ask_page(
            dir,
            prefix,
            suffix,
            reject,
            iso.sums,
        ),
        catalog::SourceView::Chain { root, dir_prefix, sub, prefix, suffix, reject } => StepView::Ask {
            request: RequestView::Text(root),
            waiting: WaitingView::Root {
                root,
                dir_prefix,
                sub,
                prefix,
                suffix,
                reject,
                sums: iso.sums,
            },
        },
        catalog::SourceView::Archive(id) => StepView::Ask {
            request: RequestView::Text("https://archive.org/metadata/"@ + id),
            waiting: WaitingView::Archive(id),
        },
        catalog::SourceView::Github { repo, suffix } => StepView::Ask {
            request: RequestView::Text("https://api.github.com/repos/"@ + repo + "/releases/latest"@),
            waiting: WaitingView::Release { repo, suffix },
        },
        catalog::SourceView::Fwlink(url) => StepView::Ask {
            request: RequestView::FinalUrl(url),
            waiting: WaitingView::Landing,
        },
        catalog::SourceView::Windows(page) => StepView::Ask {
            request: RequestView::SessionId,
            waiting: WaitingView::Session(page),
        },
    }
}

/// The directory of the newest version: `sub` under `d` under `root`, with a slash at its end.
pub open spec fn version_dir(root: Seq<char>, d: Seq<char>, sub: Seq<char>) -> Seq<char> {
    let dir = pick::address(pick::address(root, d), sub);
    if text::ends_with(dir, "/"@) {
        dir
    } else {
        dir + "/"@
    }
}

/// The link after `"browser_download_url":` in a piece of a release's description.
pub open spec fn asset_link(chunk: Seq<char>) -> Option<Seq<char>> {
    if text::split(chunk, '"').len() > 1 {
        Some(text::split(chunk, '"')[1])
    } else {
        None
    }
}

/// The first link from piece `i` on that ends in `suffix`.
pub open spec fn asset_from(chunks: Seq<Seq<char>>, suffix: Seq<char>, i: int) -> Option<Seq<char>>
    decreases chunks.len() - i,
{
    if i < 0 || i >= chunks.len() {
        None
    } else if asset_link(chunks[i]) is Some && text::ends_with(asset_link(chunks[i])->0, suffix) {
        asset_link(chunks[i])
    } else {
        asset_from(chunks, suffix, i + 1)
    }
}

pub open spec fn asset_of(body: Seq<char>, suffix: Seq<char>) -> Option<Seq<char>> {
    asset_from(text::split_on(body, "\"browser_download_url\":"@), suffix, 1)
}

/// The file name at the end of an address, without its query.
pub open spec fn name_in_link(url: Seq<char>) -> Seq<char> {
    text::after_last(text::before_first(url, '?'), '/')
}

/// The step after the answer to `Page`.
pub open spec fn after_page(
    body: Seq<char>,
    dir: Seq<char>,
    prefix: Seq<char>,
    suffix: Seq<char>,
    reject: Seq<char>,
    sums: Option<Seq<char>>,
) -> StepView {
    match pick::newest_of(pick::named_links(body), prefix, suffix, reject) {
        Some((name, href)) => found_at(pick::address(dir, href), name, dir, sums),
        None => StepView::Failed(
            "no image matching "@ + prefix + "*"@ + suffix + " at "@ + dir,
        ),
    }
}

/// The step after the answer that `w` waits for.
pub open spec fn next_step(w: WaitingView, reply: Result<Seq<char>, Seq<char>>) -> StepView {
    match w {
        WaitingView::Sums { url, filename } => StepView::Found(
            ResolvedView {
                url,
                filename,
                sha256: match reply {
                    Ok(body) => pick::published_sha(body, filename),
                    Err(_) => None,
                },
            },
        ),
        WaitingView::Page { dir, prefix, suffix, reject, sums } => match reply {
            Err(e) => StepView::Failed(e),
            Ok(body) => after_page(body, dir, prefix, suffix, reject, sums),
        },
        WaitingView::Root { root, dir_prefix, sub, prefix, suffix, reject, sums } => match reply {
            Err(e) => StepView::Failed(e),
            Ok(body) => match pick::newest_dir_of(net::links(body), dir_prefix, reject) {
                Some(d) => ask_page(version_dir(root, d, sub), prefix, suffix, reject, sums),
                None => StepView::Failed("no versioned directory under "@ + root),
            },
        },
        WaitingView::Archive(id) => match reply {
            Err(e) => StepView::Failed(e),
            Ok(meta) => match pick::largest_name(meta) {
                Some(name) => StepView::Found(
                    ResolvedView {
                        url: "https://archive.org/download/"@ + id + "/"@ + percent::escape(name),
                        filename: name,
                        sha256: None,
                    },
                ),
                None => StepView::Failed("archive.org item "@ + id + " has no .iso"@),
            },
        },
        WaitingView::Release { repo, suffix } => match reply {
            Err(e) => StepView::Failed(e),
            Ok(body) => match asset_of(body, suffix) {
                Some(url) => StepView::Found(
                    ResolvedView { url, filename: text::after_last(url, '/'), sha256: None },
                ),
                None => StepView::Failed(
                    "newest "@ + repo + " release has no asset ending in "@ + suffix,
                ),
            },
        },
        WaitingView::Landing => match reply {
            Err(_) => StepView::Failed("Microsoft's link did not redirect anywhere"@),
            Ok(url) => StepView::Found(
                ResolvedView { url, filename: name_in_link(url), sha256: None },
            ),
        },
        WaitingView::Session(page) => match reply {
            Err(e) => StepView::Failed(windows::advice("no uuid source: "@ + e, page)),
            Ok(id) => StepView::Ask {
                request: RequestView::TextWith { url: page, headers: windows::page_headers() },
                waiting: WaitingView::WindowsPage { page, session: text::trim(id) },
            },
        },
        WaitingView::WindowsPage { page, session } => match reply {
            Err(e) => StepView::Failed(windows::advice(e, page)),
            Ok(body) => match windows::edition_of(body) {
                Some(edition) => StepView::Ask {
                    request: RequestView::Text(windows::session_address(session)),
                    waiting: WaitingView::Registered { page, session, edition },
                },
                None => StepView::Failed(
                    windows::advice("Microsoft's page no longer lists a product edition"@, page),
                ),
            },
        },
        WaitingView::Registered { page, session, edition } => StepView::Ask {
            request: RequestView::TextWith {
                url: windows::sku_address(edition, session),
                headers: windows::connector_headers(page),
            },
            waiting: WaitingView::Skus { page, session },
        },
        WaitingView::Skus { page, session } => match reply {
            Err(e) => StepView::Failed(windows::advice(e, page)),
            Ok(json) => match windows::sku_of(json) {
                Some(sku) => StepView::Ask {
                    request: RequestView::TextWith {
                        url: windows::links_address(sku, session),
                        headers: windows::connector_headers(page),
                    },
                    waiting: WaitingView::Links(page),
                },
                None => StepView::Failed(
                    windows::advice(
                        windows::refusal(json, "Microsoft listed no edition to download"@),
                        page,
                    ),
                ),
            },
        },
        WaitingView::Links(page) => match reply {
            Err(e) => StepView::Failed(windows::advice(e, page)),
            Ok(json) => match windows::link_of(json) {
                Some(url) => StepView::Found(
                    ResolvedView { url, filename: name_in_link(url), sha256: None },
                ),
                None => StepView::Failed(
                    windows::advice(
                        windows::refusal(json, "Microsoft returned no download link"@),
                        page,
                    ),
                ),
            },
        },
    }
}

/// The answer can be worked with: the percent signs on a page of images can be read.
pub open spec fn usable(w: WaitingView, reply: Result<Seq<char>, Seq<char>>) -> bool {
    w is Page && reply is Ok ==> pick::page_readable(reply->Ok_0)
}

// ---- carrying it out ------------------------------------------------------------------------

fn sums_copy(s: &Option<String>) -> (r: Option<String>)
    ensures
        text::text_opt(r) == text::text_opt(*s),
{
    match s {
        Some(x) => Some(x.clone()),
        None => None,
    }
}

fn step_found(url: String, filename: String, base: &str, sums: &Option<String>) -> (r: Step)
    ensures
        r@ == found_at(url@, filename@, base@, text::text_opt(*sums)),
{
    match sums {
        Some(s) => Step::Ask {
            request: Request::Text(pick::join(base, s)),
            waiting: Waiting::Sums { url, filename },
        },
        None => Step::Found(Resolved { url, filename, sha256: None }),
    }
}

fn step_page(dir: String, prefix: &str, suffix: &str, reject: &str, sums: &Option<String>) -> (r:
    Step)
    ensures
        r@ == ask_page(dir@, prefix@, suffix@, reject@, text::text_opt(*sums)),
{
    Step::Ask {
        request: Request::Text(dir.clone()),
        waiting: Waiting::Page {
            dir,
            prefix: prefix.to_owned(),
            suffix: suffix.to_owned(),
            reject: reject.to_owned(),
            sums: sums_copy(sums),
        },
    }
}

fn last_name(url: &str) -> (r: String)
    ensures
        r@ == text::after_last(url@, '/'),
{
    text::string_of(&text::last_piece(&text::chars_of(url), '/'))
}

fn link_file(url: &str) -> (r: String)
    ensures
        r@ == name_in_link(url@),
{
    let plain: Vec<char> = text::first_piece(&text::chars_of(url), '?');
    text::string_of(&text::last_piece(&plain, '/'))
}

fn direct(url: &str, sums: &Option<String>) -> (r: Step)
    ensures
        r@ == found_at(
            url@,
            text::after_last(url@, '/'),
            match text::before_last(url@, '/') {
                Some(base) => base,
                None => Seq::empty(),
            },
            text::text_opt(*sums),
        ),
{
    let base: String = match text::up_to_last(&text::chars_of(url), '/') {
        Some(b) => text::string_of(&b),
        None => String::new(),
    };
    step_found(url.to_owned(), last_name(url), &base, sums)
}

/// Start resolving an entry.
pub fn resolve(iso: &Iso) -> (r: Step)
    ensures
        r@ == first_step(iso@),
{
    match &iso.src {
        Source::Direct(url) => direct(url, &iso.sums),
        Source::Index { dir, prefix, suffix, reject } => step_page(
            dir.clone(),
            prefix,
            suffix,
            reject,
            &iso.sums,
        ),
        Source::Chain { root, dir_prefix, sub, prefix, suffix, reject } => Step::Ask {
            request: Request::Text(root.clone()),
            waiting: Waiting::Root {
                root: root.clone(),
                dir_prefix: dir_prefix.clone(),
                sub: sub.clone(),
                prefix: prefix.clone(),
                suffix: suffix.clone(),
                reject: reject.clone(),
                sums: sums_copy(&iso.sums),
            },
        },
        Source::Archive(id) => {
            let mut u: String = "https://archive.org/metadata/".to_owned();
            u.append(id);
            Step::Ask { request: Request::Text(u), waiting: Waiting::Archive(id.clone()) }
        },
        Source::Github { repo, suffix } => {
            let mut u: String = "https://api.github.com/repos/".to_owned();
            u.append(repo);
            u.append("/releases/latest");
            Step::Ask {
                request: Request::Text(u),
                waiting: Waiting::Release { repo: repo.clone(), suffix: suffix.clone() },
            }
        },
        Source::Fwlink(url) => Step::Ask {
            request: Request::FinalUrl(url.clone()),
            waiting: Waiting::Landing,
        },
        Source::Windows(page) => Step::Ask {
            request: Request::SessionId,
            waiting: Waiting::Session(page.clone()),
        },
    }
}

fn page_step(
    body: &str,
    dir: &str,
    prefix: &str,
    suffix: &str,
    reject: &str,
    sums: &Option<String>,
) -> (r: Step)
    requires
        pick::page_readable(body@),
    ensures
        r@ == after_page(body@, dir@, prefix@, suffix@, reject@, text::text_opt(*sums)),
{
    match pick::newest(body, prefix, suffix, reject) {
        Some((name, href)) => step_found(pick::join(dir, &href), name, dir, sums),
        None => {
            let mut e: String = "no image matching ".to_owned();
            e.append(prefix);
            e.append("*");
            e.append(suffix);
            e.append(" at ");
            e.append(dir);
            Step::Failed(e)
        },
    }
}

fn root_step(
    body: &str,
    root: &str,
    dir_prefix: &str,
    sub: &str,
    prefix: &str,
    suffix: &str,
    reject: &str,
    sums: &Option<String>,
) -> (r: Step)
    ensures
        r@ == match pick::newest_dir_of(net::links(body@), dir_prefix@, reject@) {
            Some(d) => ask_page(
                version_dir(root@, d, sub@),
                prefix@,
                suffix@,
                reject@,
                text::text_opt(*sums),
            ),
            None => StepView::Failed("no versioned directory under "@ + root@),
        },
{
    match pick::newest_dir(body, dir_prefix, reject) {
        Some(d) => {
            let mut dir: String = pick::join(&pick::join(root, &d), sub);
            if !text::ends(&text::chars_of(&dir), "/") {
                dir.append("/");
            }
            step_page(dir, prefix, suffix, reject, sums)
        },
        None => {
            let mut e: String = "no versioned directory under ".to_owned();
            e.append(root);
            Step::Failed(e)
        },
    }
}

/// The first asset of a release whose link ends in `suffix`.
pub fn asset(body: &str, suffix: &str) -> (r: Option<String>)
    ensures
        text::text_opt(r) == asset_of(body@, suffix@),
{
    proof {
        reveal_strlit("\"browser_download_url\":");
    }
    let parts: Vec<Vec<char>> = text::pieces_str(
        &text::chars_of(body),
        "\"browser_download_url\":",
    );
    let ghost chunks = text::texts(parts@);
    let mut i: usize = 1;
    while i < parts.len()
        invariant
            1 <= i <= parts@.len(),
            chunks == text::texts(parts@),
            asset_of(body@, suffix@) == asset_from(chunks, suffix@, i as int),
        decreases parts@.len() - i,
    {
        assert(chunks[i as int] == parts@[i as int]@);
        let quoted: Vec<Vec<char>> = text::pieces_at(&parts[i], '"');
        if quoted.len() > 1 {
            assert(text::texts(quoted@)[1] == quoted@[1]@);
            if text::ends(&quoted[1], suffix) {
                return Some(text::string_of(&quoted[1]));
            }
        }
        i += 1;
    }
    None
}

fn archive_step(id: &str, meta: &str) -> (r: Step)
    ensures
        r@ == next_step(WaitingView::Archive(id@), Ok(meta@)),
{
    match pick::largest_iso(meta) {
        Some(name) => {
            let mut url: String = "https://archive.org/download/".to_owned();
            url.append(id);
            url.append("/");
            url.append(&percent::percent_encode(&name));
            Step::Found(Resolved { url, filename: name, sha256: None })
        },
        None => {
            let mut e: String = "archive.org item ".to_owned();
            e.append(id);
            e.append(" has no .iso");
            Step::Failed(e)
        },
    }
}

fn release_step(repo: &str, suffix: &str, body: &str) -> (r: Step)
    ensures
        r@ == next_step(WaitingView::Release { repo: repo@, suffix: suffix@ }, Ok(body@)),
{
    match asset(body, suffix) {
        Some(url) => {
            let filename: String = last_name(&url);
            Step::Found(Resolved { url, filename, sha256: None })
        },
        None => {
            let mut e: String = "newest ".to_owned();
            e.append(repo);
            e.append(" release has no asset ending in ");
            e.append(suffix);
            Step::Failed(e)
        },
    }
}

fn windows_page_step(page: String, session: String, body: &str) -> (r: Step)
    ensures
        r@ == next_step(
            WaitingView::WindowsPage { page: page@, session: session@ },
            Ok(body@),
        ),
{
    match windows::edition(body) {
        Some(edition) => Step::Ask {
            request: Request::Text(windows::session_url(&session)),
            waiting: Waiting::Registered { page, session, edition },
        },
        None => Step::Failed(
            windows::fail("Microsoft's page no longer lists a product edition", &page),
        ),
    }
}

fn skus_step(page: String, session: &str, json: &str) -> (r: Step)
    ensures
        r@ == next_step(WaitingView::Skus { page: page@, session: session@ }, Ok(json@)),
{
    match windows::sku(json) {
        Some(sku) => Step::Ask {
            request: Request::TextWith {
                url: windows::links_url(&sku, session),
                headers: windows::headers_for_connector(&page),
            },
            waiting: Waiting::Links(page),
        },
        None => {
            let answer: Vec<char> = text::chars_of(json);
            let why: &str = windows::why_nothing(
                &answer,
                "Microsoft listed no edition to download",
            );
            Step::Failed(windows::fail(why, &page))
        },
    }
}

fn links_step(page: &str, json: &str) -> (r: Step)
    ensures
        r@ == next_step(WaitingView::Links(page@), Ok(json@)),
{
    match windows::link(json) {
        Some(url) => {
            let filename: String = link_file(&url);
            Step::Found(Resolved { url, filename, sha256: None })
        },
        None => {
            let answer: Vec<char> = text::chars_of(json);
            let why: &str = windows::why_nothing(&answer, "Microsoft returned no download link");
            Step::Failed(windows::fail(why, page))
        },
    }
}

fn session_step(page: String, id: &str) -> (r: Step)
    ensures
        r@ == next_step(WaitingView::Session(page@), Ok(id@)),
{
    let chars: Vec<char> = text::chars_of(id);
    let session: String = text::string_of(text::trimmed(&chars));
    Step::Ask {
        request: Request::TextWith { url: page.clone(), headers: windows::headers_for_page() },
        waiting: Waiting::WindowsPage { page, session },
    }
}

fn session_failed(page: &str, e: &str) -> (r: Step)
    ensures
        r@ == next_step(WaitingView::Session(page@), Err(e@)),
{
    let mut why: String = "no uuid source: ".to_owned();
    why.append(e);
    Step::Failed(windows::fail(&why, page))
}

fn sums_step(url: String, filename: String, reply: &Result<String, String>) -> (r: Step)
    ensures
        r@ == next_step(
            WaitingView::Sums { url: url@, filename: filename@ },
            text::text_result(*reply),
        ),
{
    let sha256: Option<String> = match reply {
        Ok(body) => pick::sha_from_sums(body, &filename),
        Err(_) => None,
    };
    Step::Found(Resolved { url, filename, sha256 })
}

/// Go on resolving with the answer to the request that was asked last.
///
/// A link on a page of images whose percent sign stands before the middle of a character has no
/// file name, so such a page has to be told apart first: see `can_use`.
pub fn resolve_reply(waiting: Waiting, reply: Result<String, String>) -> (r: Step)
    requires
        usable(waiting@, text::text_result(reply)),
    ensures
        r@ == next_step(waiting@, text::text_result(reply)),
{
    match waiting {
        Waiting::Sums { url, filename } => sums_step(url, filename, &reply),
        Waiting::Page { dir, prefix, suffix, reject, sums } => match reply {
            Err(e) => Step::Failed(e),
            Ok(body) => page_step(&body, &dir, &prefix, &suffix, &reject, &sums),
        },
        Waiting::Root { root, dir_prefix, sub, prefix, suffix, reject, sums } => match reply {
            Err(e) => Step::Failed(e),
            Ok(body) => root_step(
                &body,
                &root,
                &dir_prefix,
                &sub,
                &prefix,
                &suffix,
                &reject,
                &sums,
            ),
        },
        Waiting::Archive(id) => match reply {
            Err(e) => Step::Failed(e),
            Ok(meta) => archive_step(&id, &meta),
        },
        Waiting::Release { repo, suffix } => match reply {
            Err(e) => Step::Failed(e),
            Ok(body) => release_step(&repo, &suffix, &body),
        },
        Waiting::Landing => match reply {
            Err(_) => Step::Failed("Microsoft's link did not redirect anywhere".to_owned()),
            Ok(url) => {
                let filename: String = link_file(&url);
                Step::Found(Resolved { url, filename, sha256: None })
            },
        },
        Waiting::Session(page) => match reply {
            Err(e) => session_failed(&page, &e),
            Ok(id) => session_step(page, &id),
        },
        Waiting::WindowsPage { page, session } => match reply {
            Err(e) => Step::Failed(windows::fail(&e, &page)),
            Ok(body) => windows_page_step(page, session, &body),
        },
        Waiting::Registered { page, session, edition } => Step::Ask {
            request: Request::TextWith {
                url: windows::sku_url(&edition, &session),
                headers: windows::headers_for_connector(&page),
            },
            waiting: Waiting::Skus { page, session },
        },
        Waiting::Skus { page, session } => match reply {
            Err(e) => Step::Failed(windows::fail(&e, &page)),
            Ok(json) => skus_step(page, &session, &json),
        },
        Waiting::Links(page) => match reply {
            Err(e) => Step::Failed(windows::fail(&e, &page)),
            Ok(json) => links_step(&page, &json),
        },
    }
}

/// Whether an answer can be handed to `resolve_reply`.
pub fn can_use(waiting: &Waiting, reply: &Result<String, String>) -> (r: bool)
    ensures
        r == usable(waiting@, text::text_result(*reply)),
{
    match waiting {
        Waiting::Page { dir: _, prefix: _, suffix: _, reject: _, sums: _ } => match reply {
            Ok(body) => pick::readable_page(body),
            Err(_) => true,
        },
        _ => true,
    }
}

// ---- laws -----------------------------------------------------------------------------------

/// How many answers are still to come at the most.
pub open spec fn answers_left(s: StepView) -> nat {
    match s {
        StepView::Found(_) => 0,
        StepView::Failed(_) => 0,
        StepView::Ask { request: _, waiting } => match waiting {
            WaitingView::Sums { url: _, filename: _ } => 1,
            WaitingView::Archive(_) => 1,
            WaitingView::Release { repo: _, suffix: _ } => 1,
            WaitingView::Landing => 1,
            WaitingView::Links(_) => 1,
            WaitingView::Page { dir: _, prefix: _, suffix: _, reject: _, sums: _ } => 2,
            WaitingView::Skus { page: _, session: _ } => 2,
            WaitingView::Root {
                root: _,
                dir_prefix: _,
                sub: _,
                prefix: _,
                suffix: _,
                reject: _,
                sums: _,
            } => 3,
            WaitingView::Registered { page: _, session: _, edition: _ } => 3,
            WaitingView::WindowsPage { page: _, session: _ } => 4,
            WaitingView::Session(_) => 5,
        },
    }
}

/// Resolving comes to an end: every answer leaves fewer to come, and at most five are ever needed.
pub proof fn law_resolving_ends(
    iso: catalog::IsoView,
    w: WaitingView,
    request: RequestView,
    reply: Result<Seq<char>, Seq<char>>,
)
    ensures
        answers_left(first_step(iso)) <= 5,
        answers_left(next_step(w, reply)) < answers_left(StepView::Ask { request, waiting: w }),
{
}

/// A hash that resolving reports is 64 small hexadecimal digits.
pub proof fn law_resolved_hash_is_a_hash(w: WaitingView, reply: Result<Seq<char>, Seq<char>>)
    ensures
        match next_step(w, reply) {
            StepView::Found(r) => r.sha256 is Some ==> pick::is_small_sha(r.sha256->0),
            _ => true,
        },
{
    if let WaitingView::Sums { url, filename } = w {
        if let Ok(body) = reply {
            pick::law_published_hash_is_a_hash(body, filename);
        }
    }
}

/// A checksum file that cannot be read costs the hash and nothing else: the image is still found.
pub proof fn law_missing_sums_cost_only_the_hash(
    url: Seq<char>,
    filename: Seq<char>,
    reply: Result<Seq<char>, Seq<char>>,
)
    ensures
        match next_step(WaitingView::Sums { url, filename }, reply) {
            StepView::Found(r) => r.url == url && r.filename == filename && (reply is Err
                ==> r.sha256 is None),
            _ => false,
        },
{
}

/// The first `n` characters of a link say "here" and nothing else, and what follows does not.
pub open spec fn says_here(link: Seq<char>, n: int) -> bool {
    &&& 0 <= n <= link.len()
    &&& n % 2 == 0
    &&& forall|i: int|
        0 <= i < n ==> #[trigger] link[i] == if i % 2 == 0 {
            '.'
        } else {
            '/'
        }
    &&& !(n + 1 < link.len() && link[n] == '.' && link[n + 1] == '/')
}

/// Where a link on the page at `dir` leads: to itself when it is a web address, and else into the
/// directory, with one slash between the two.
pub open spec fn leads_to(dir: Seq<char>, link: Seq<char>, url: Seq<char>) -> bool {
    if link.len() >= 4 && link.take(4) == seq!['h', 't', 't', 'p'] {
        url == link
    } else {
        exists|n: int|
            #[trigger] says_here(link, n) && url == (if dir.len() > 0 && dir.last() == '/' {
                dir
            } else {
                dir + seq!['/']
            }) + link.skip(n)
    }
}

proof fn lemma_here(link: Seq<char>) -> (n: int)
    ensures
        says_here(link, n),
        text::trim_start_matches(link, "./"@) == link.skip(n),
    decreases link.len(),
{
    reveal_strlit("./");
    if text::starts_with(link, "./"@) {
        assert(link.subrange(0, 2)[0] == link[0] && link.subrange(0, 2)[1] == link[1]);
        assert("./"@[0] == '.' && "./"@[1] == '/');
        let rest = link.skip(2);
        let m = lemma_here(rest);
        let n = m + 2;
        assert forall|i: int| 0 <= i < n implies #[trigger] link[i] == if i % 2 == 0 {
            '.'
        } else {
            '/'
        } by {
            if i >= 2 {
                assert(rest[i - 2] == link[i]);
            }
        }
        if n + 1 < link.len() {
            assert(rest[m] == link[n] && rest[m + 1] == link[n + 1]);
        }
        assert(link.skip(n) =~= rest.skip(m));
        n
    } else {
        if link.len() > 1 && link[0] == '.' && link[1] == '/' {
            assert(link.subrange(0, 2) =~= "./"@);
        }
        assert(link.skip(0) =~= link);
        0
    }
}

proof fn lemma_leads_to(dir: Seq<char>, link: Seq<char>)
    ensures
        leads_to(dir, link, pick::address(dir, link)),
{
    reveal_strlit("http");
    reveal_strlit("/");
    assert("http"@ =~= seq!['h', 't', 't', 'p']);
    assert("/"@ =~= seq!['/']);
    if link.len() >= 4 {
        assert(link.subrange(0, 4) =~= link.take(4));
    }
    if dir.len() > 0 {
        assert(dir.subrange(dir.len() - 1, dir.len() as int) =~= seq![dir.last()]);
        assert(seq![dir.last()][0] == dir.last() && seq!['/'][0] == '/');
    }
    let n = lemma_here(link);
    assert(says_here(link, n));
}

/// Link `k` of the page is the one that resolving reports: its file name, with percent signs read, is
/// the image's, and it leads to the image. It is the newest that fits, and the first of those.
pub open spec fn is_resolved(
    body: Seq<char>,
    dir: Seq<char>,
    prefix: Seq<char>,
    suffix: Seq<char>,
    reject: Seq<char>,
    url: Seq<char>,
    filename: Seq<char>,
    k: int,
) -> bool {
    let hs = net::links(body);
    &&& 0 <= k < hs.len()
    &&& filename == percent::decoded(text::after_last(hs[k], '/'))
    &&& leads_to(dir, hs[k], url)
    &&& pick::fits(filename, prefix, suffix, reject)
    &&& forall|i: int|
        0 <= i < hs.len() && pick::fits(
            percent::decoded(text::after_last(#[trigger] hs[i], '/')),
            prefix,
            suffix,
            reject,
        ) ==> net::natural(percent::decoded(text::after_last(hs[i], '/')), filename) !is Greater
    &&& forall|i: int|
        0 <= i < k && pick::fits(
            percent::decoded(text::after_last(#[trigger] hs[i], '/')),
            prefix,
            suffix,
            reject,
        ) ==> net::natural(percent::decoded(text::after_last(hs[i], '/')), filename) is Less
}

/// Some link of the page is the one that resolving reports.
pub open spec fn resolves(
    body: Seq<char>,
    dir: Seq<char>,
    prefix: Seq<char>,
    suffix: Seq<char>,
    reject: Seq<char>,
    url: Seq<char>,
    filename: Seq<char>,
) -> bool {
    exists|k: int| #[trigger] is_resolved(body, dir, prefix, suffix, reject, url, filename, k)
}

/// What resolving a page reports is on the page: the address is where a link of the page leads whose file
/// name is the one that is reported, and it is the newest that fits. The checksum file is looked for
/// beside the page. Only a page on which nothing fits has no image.
pub proof fn law_the_resolved_image_is_on_the_page(
    body: Seq<char>,
    dir: Seq<char>,
    prefix: Seq<char>,
    suffix: Seq<char>,
    reject: Seq<char>,
    sums: Option<Seq<char>>,
)
    ensures
        match next_step(WaitingView::Page { dir, prefix, suffix, reject, sums }, Ok(body)) {
            StepView::Found(r) => sums is None && r.sha256 is None && resolves(
                body,
                dir,
                prefix,
                suffix,
                reject,
                r.url,
                r.filename,
            ),
            StepView::Ask { request, waiting } => sums is Some && request is Text && leads_to(
                dir,
                sums->0,
                request->Text_0,
            ) && waiting is Sums && resolves(
                body,
                dir,
                prefix,
                suffix,
                reject,
                waiting->Sums_url,
                waiting->Sums_filename,
            ),
            StepView::Failed(_) => forall|i: int|
                0 <= i < net::links(body).len() ==> !pick::fits(
                    percent::decoded(text::after_last(#[trigger] net::links(body)[i], '/')),
                    prefix,
                    suffix,
                    reject,
                ),
        },
{
    let hs = net::links(body);
    let links = pick::named_links(body);
    pick::law_the_first_of_the_newest_is_picked(links, prefix, suffix, reject);
    assert(forall|i: int| 0 <= i < hs.len() ==> links[i] == (pick::link_name(hs[i]), hs[i]));
    match pick::newest_of(links, prefix, suffix, reject) {
        Some((name, href)) => {
            let k = choose|k: int|
                #[trigger] pick::is_picked(links, prefix, suffix, reject, k) && links[k] == (
                    name,
                    href,
                );
            lemma_leads_to(dir, href);
            let url = pick::address(dir, href);
            net::law_natural_antisymmetric(name, name);
            assert forall|i: int|
                0 <= i < hs.len() && pick::fits(
                    percent::decoded(text::after_last(#[trigger] hs[i], '/')),
                    prefix,
                    suffix,
                    reject,
                ) implies net::natural(percent::decoded(text::after_last(hs[i], '/')), name)
                !is Greater && (i < k ==> net::natural(
                percent::decoded(text::after_last(hs[i], '/')),
                name,
            ) is Less) by {
                assert(links[i] == (pick::link_name(hs[i]), hs[i]));
            }
            assert(is_resolved(body, dir, prefix, suffix, reject, url, name, k));
            assert(resolves(body, dir, prefix, suffix, reject, url, name));
            assert(next_step(WaitingView::Page { dir, prefix, suffix, reject, sums }, Ok(body))
                == found_at(url, name, dir, sums));
            if let Some(s) = sums {
                lemma_leads_to(dir, s);
            }
        },
        None => {
            assert forall|i: int| 0 <= i < hs.len() implies !pick::fits(
                percent::decoded(text::after_last(#[trigger] hs[i], '/')),
                prefix,
                suffix,
                reject,
            ) by {
                assert(links[i] == (pick::link_name(hs[i]), hs[i]));
            }
        },
    }
}

/// A link that is the only one that fits is where the image is, under the very address that it gives.
pub proof fn law_the_only_link_is_taken(
    body: Seq<char>,
    dir: Seq<char>,
    prefix: Seq<char>,
    suffix: Seq<char>,
    reject: Seq<char>,
    k: int,
)
    requires
        0 <= k < net::links(body).len(),
        pick::fits(
            percent::decoded(text::after_last(net::links(body)[k], '/')),
            prefix,
            suffix,
            reject,
        ),
        forall|i: int|
            0 <= i < net::links(body).len() && i != k ==> !pick::fits(
                percent::decoded(text::after_last(#[trigger] net::links(body)[i], '/')),
                prefix,
                suffix,
                reject,
            ),
    ensures
        ({
            let s = next_step(
                WaitingView::Page { dir, prefix, suffix, reject, sums: None },
                Ok(body),
            );
            let link = net::links(body)[k];
            &&& s is Found
            &&& s->Found_0.filename == percent::decoded(text::after_last(link, '/'))
            &&& text::starts_with(link, "http"@) ==> s->Found_0.url == link
            &&& leads_to(dir, link, s->Found_0.url)
        }),
{
    law_the_resolved_image_is_on_the_page(body, dir, prefix, suffix, reject, None);
    let s = next_step(WaitingView::Page { dir, prefix, suffix, reject, sums: None }, Ok(body));
    let link = net::links(body)[k];
    assert(pick::fits(percent::decoded(text::after_last(link, '/')), prefix, suffix, reject));
    if let StepView::Found(r) = s {
        let j = choose|j: int|
            #[trigger] is_resolved(body, dir, prefix, suffix, reject, r.url, r.filename, j);
        assert(j == k);
        reveal_strlit("http");
        if text::starts_with(link, "http"@) {
            assert(link.subrange(0, 4) =~= link.take(4));
            assert("http"@ =~= seq!['h', 't', 't', 'p']);
        }
    }
}

/// What is asked for first is what the entry of the catalog says, and the answer is used as it says: the
/// page of an index, the root of a chain of versions, the description of an archive item or of a release,
/// where a link lands. A direct address is taken as it is, under the name after its last slash, and its
/// checksum file is looked for beside it.
pub proof fn law_what_is_asked_first(iso: catalog::IsoView)
    ensures
        iso.src matches catalog::SourceView::Direct(url) ==> {
            let s = first_step(iso);
            match iso.sums {
                None => s == StepView::Found(
                    ResolvedView { url, filename: text::after_last(url, '/'), sha256: None },
                ),
                Some(f) => s is Ask && s->Ask_waiting == (WaitingView::Sums {
                    url,
                    filename: text::after_last(url, '/'),
                }) && s->Ask_request is Text && (text::before_last(url, '/') is Some ==> leads_to(
                    text::before_last(url, '/')->0,
                    f,
                    s->Ask_request->Text_0,
                )),
            }
        },
        iso.src matches catalog::SourceView::Index { dir, prefix, suffix, reject } ==> first_step(iso)
            == (StepView::Ask {
            request: RequestView::Text(dir),
            waiting: WaitingView::Page { dir, prefix, suffix, reject, sums: iso.sums },
        }),
        iso.src matches catalog::SourceView::Fwlink(url) ==> first_step(iso) is Ask && first_step(
            iso,
        )->Ask_request == RequestView::FinalUrl(url),
        iso.src matches catalog::SourceView::Archive(id) ==> first_step(iso) is Ask && first_step(
            iso,
        )->Ask_request == RequestView::Text("https://archive.org/metadata/"@ + id),
        iso.src matches catalog::SourceView::Github { repo, suffix } ==> first_step(iso) is Ask
            && first_step(iso)->Ask_request == RequestView::Text(
            "https://api.github.com/repos/"@ + repo + "/releases/latest"@,
        ),
{
    if let catalog::SourceView::Direct(url) = iso.src {
        if let (Some(f), Some(base)) = (iso.sums, text::before_last(url, '/')) {
            lemma_leads_to(base, f);
        }
    }
}

/// Directory `d` fits, a link leads down to it, and no other such directory is newer.
pub open spec fn newest_version(
    hs: Seq<Seq<char>>,
    dir_prefix: Seq<char>,
    reject: Seq<char>,
    d: Seq<char>,
) -> bool {
    &&& exists|i: int| 0 <= i < hs.len() && pick::fits_dir(#[trigger] hs[i], d, dir_prefix, reject)
    &&& forall|i: int, e: Seq<char>|
        0 <= i < hs.len() && #[trigger] pick::fits_dir(hs[i], e, dir_prefix, reject) ==> net::natural(
            e,
            d,
        ) !is Greater
}

/// A chain of versions goes on to the newest directory that its root links to, and in it to the
/// directory of the images; the address that is asked for there always ends in a slash, and what is
/// looked for there is what the chain said.
pub proof fn law_a_chain_goes_on_to_the_newest_version(
    body: Seq<char>,
    root: Seq<char>,
    dir_prefix: Seq<char>,
    sub: Seq<char>,
    prefix: Seq<char>,
    suffix: Seq<char>,
    reject: Seq<char>,
    sums: Option<Seq<char>>,
)
    ensures
        match next_step(
            WaitingView::Root { root, dir_prefix, sub, prefix, suffix, reject, sums },
            Ok(body),
        ) {
            StepView::Ask { request, waiting } => {
                &&& request is Text && waiting == (WaitingView::Page {
                    dir: request->Text_0,
                    prefix,
                    suffix,
                    reject,
                    sums,
                })
                &&& request->Text_0.len() > 0 && request->Text_0.last() == '/'
                &&& exists|d: Seq<char>, at: Seq<char>, dir: Seq<char>|
                    newest_version(net::links(body), dir_prefix, reject, d) && #[trigger] leads_to(
                        root,
                        d,
                        at,
                    ) && #[trigger] leads_to(at, sub, dir) && (request->Text_0 == dir
                        || request->Text_0 == dir + seq!['/'])
            },
            StepView::Failed(_) => forall|i: int, d: Seq<char>|
                0 <= i < net::links(body).len() ==> !#[trigger] pick::fits_dir(
                    net::links(body)[i],
                    d,
                    dir_prefix,
                    reject,
                ),
            StepView::Found(_) => false,
        },
{
    reveal_strlit("/");
    let hs = net::links(body);
    pick::law_the_newest_directory_is_picked(hs, dir_prefix, reject);
    if let Some(d) = pick::newest_dir_of(hs, dir_prefix, reject) {
        assert(newest_version(hs, dir_prefix, reject, d));
        let at = pick::address(root, d);
        let dir = pick::address(at, sub);
        lemma_leads_to(root, d);
        lemma_leads_to(at, sub);
        assert("/"@ =~= seq!['/']);
        let v = version_dir(root, d, sub);
        if text::ends_with(dir, "/"@) {
            assert(dir.subrange(dir.len() - 1, dir.len() as int)[0] == dir.last());
            assert("/"@[0] == '/');
        }
        assert(leads_to(root, d, at) && leads_to(at, sub, dir));
    }
}

/// What a link lands on is the image, under the name before the query of the address and after its last
/// slash.
pub proof fn law_a_landing_is_named_without_its_query(
    base: Seq<char>,
    name: Seq<char>,
    query: Seq<char>,
)
    requires
        text::lacks(base + name, '?'),
        text::lacks(name, '/'),
    ensures
        next_step(
            WaitingView::Landing,
            Ok(base + seq!['/'] + name + seq!['?'] + query),
        ) == StepView::Found(
            ResolvedView {
                url: base + seq!['/'] + name + seq!['?'] + query,
                filename: name,
                sha256: None,
            },
        ),
        next_step(WaitingView::Landing, Ok(base + seq!['/'] + name)) == StepView::Found(
            ResolvedView { url: base + seq!['/'] + name, filename: name, sha256: None },
        ),
{
    let front = base + seq!['/'] + name;
    assert forall|i: int| 0 <= i < front.len() implies #[trigger] front[i] != '?' by {
        if i < base.len() {
            assert((base + name)[i] == front[i]);
        } else if i > base.len() {
            assert((base + name)[i - 1] == front[i]);
        }
    }
    text::law_the_first_piece_comes_first(front, '?', query);
    text::law_the_last_piece_comes_last(base, '/', name);
}

/// The image of a release is the first of its files whose address ends as asked, and a release without
/// such a file has none.
pub proof fn law_the_first_fitting_file_of_a_release(
    body: Seq<char>,
    repo: Seq<char>,
    suffix: Seq<char>,
)
    ensures
        ({
            let files = text::split_on(body, "\"browser_download_url\":"@);
            match next_step(WaitingView::Release { repo, suffix }, Ok(body)) {
                StepView::Found(r) => r.sha256 is None && r.filename == text::after_last(r.url, '/')
                    && text::ends_with(r.url, suffix) && exists|k: int|
                    1 <= k < files.len() && text::split(#[trigger] files[k], '"').len() > 1
                        && text::split(files[k], '"')[1] == r.url && forall|i: int|
                        1 <= i < k && text::split(#[trigger] files[i], '"').len() > 1
                            ==> !text::ends_with(text::split(files[i], '"')[1], suffix),
                StepView::Failed(_) => forall|i: int|
                    1 <= i < files.len() && text::split(#[trigger] files[i], '"').len() > 1
                        ==> !text::ends_with(text::split(files[i], '"')[1], suffix),
                StepView::Ask { request: _, waiting: _ } => false,
            }
        }),
{
    let files = text::split_on(body, "\"browser_download_url\":"@);
    lemma_asset(files, suffix, 1);
}

proof fn lemma_asset(files: Seq<Seq<char>>, suffix: Seq<char>, from: int)
    requires
        from >= 0,
    ensures
        match asset_from(files, suffix, from) {
            Some(url) => text::ends_with(url, suffix) && exists|k: int|
                from <= k < files.len() && text::split(#[trigger] files[k], '"').len() > 1
                    && text::split(files[k], '"')[1] == url && forall|i: int|
                    from <= i < k && text::split(#[trigger] files[i], '"').len() > 1
                        ==> !text::ends_with(text::split(files[i], '"')[1], suffix),
            None => forall|i: int|
                from <= i < files.len() && text::split(#[trigger] files[i], '"').len() > 1
                    ==> !text::ends_with(text::split(files[i], '"')[1], suffix),
        },
    decreases files.len() - from,
{
    if from < files.len() {
        lemma_asset(files, suffix, from + 1);
        if asset_link(files[from]) is Some && text::ends_with(asset_link(files[from])->0, suffix) {
            assert(text::split(files[from], '"').len() > 1);
        } else {
            if let Some(url) = asset_from(files, suffix, from + 1) {
                let k = choose|k: int|
                    from + 1 <= k < files.len() && text::split(#[trigger] files[k], '"').len() > 1
                        && text::split(files[k], '"')[1] == url && forall|i: int|
                        from + 1 <= i < k && text::split(#[trigger] files[i], '"').len() > 1
                            ==> !text::ends_with(text::split(files[i], '"')[1], suffix);
                assert forall|i: int|
                    from <= i < k && text::split(#[trigger] files[i], '"').len()
                        > 1 implies !text::ends_with(text::split(files[i], '"')[1], suffix) by {}
                assert(text::split(files[k], '"')[1] == url);
            }
        }
    }
}

/// The image of an archive item is at the address of the item and its own name, written so that an
/// address can hold it; only an item without any image has none. A request that failed ends the search
/// with what went wrong, except that a missing checksum file costs only the hash.
pub proof fn law_a_failed_request_ends_the_search(w: WaitingView, e: Seq<char>, id: Seq<char>, meta: Seq<char>)
    ensures
        w is Page || w is Root || w is Archive || w is Release ==> next_step(w, Err(e))
            == StepView::Failed(e),
        w is Landing ==> next_step(w, Err(e)) is Failed,
        next_step(WaitingView::Archive(id), Ok(meta)) is Found <==> pick::largest_name(meta) is Some,
        pick::largest_name(meta) matches Some(n) ==> next_step(WaitingView::Archive(id), Ok(meta))
            == StepView::Found(
            ResolvedView {
                url: "https://archive.org/download/"@ + id + "/"@ + percent::escape(n),
                filename: n,
                sha256: None,
            },
        ),
{
}

/// Microsoft's images take five requests: a session id, the page, the registration of the session, whose
/// answer does not matter, the editions and the links. Each carries the session on, and the link that
/// comes back is the image, named without its query. Whatever is missing on the way ends the search.
pub proof fn law_how_a_windows_image_is_resolved(
    page: Seq<char>,
    id: Seq<char>,
    body: Seq<char>,
    reply: Result<Seq<char>, Seq<char>>,
    edition: Seq<char>,
    e: Seq<char>,
)
    ensures
        next_step(WaitingView::Session(page), Ok(id)) == (StepView::Ask {
            request: RequestView::TextWith { url: page, headers: windows::page_headers() },
            waiting: WaitingView::WindowsPage { page, session: text::trim(id) },
        }),
        ({
            let s = next_step(WaitingView::WindowsPage { page, session: id }, Ok(body));
            &&& windows::edition_of(body) is None ==> s is Failed
            &&& windows::edition_of(body) is Some ==> s == (StepView::Ask {
                request: RequestView::Text(windows::session_address(id)),
                waiting: WaitingView::Registered {
                    page,
                    session: id,
                    edition: windows::edition_of(body)->0,
                },
            })
        }),
        next_step(WaitingView::Registered { page, session: id, edition }, reply) == (StepView::Ask {
            request: RequestView::TextWith {
                url: windows::sku_address(edition, id),
                headers: windows::connector_headers(page),
            },
            waiting: WaitingView::Skus { page, session: id },
        }),
        ({
            let s = next_step(WaitingView::Skus { page, session: id }, Ok(body));
            &&& windows::sku_of(body) is None ==> s is Failed
            &&& windows::sku_of(body) is Some ==> s == (StepView::Ask {
                request: RequestView::TextWith {
                    url: windows::links_address(windows::sku_of(body)->0, id),
                    headers: windows::connector_headers(page),
                },
                waiting: WaitingView::Links(page),
            })
        }),
        ({
            let s = next_step(WaitingView::Links(page), Ok(body));
            let link = windows::link_of(body);
            &&& link is None ==> s is Failed
            &&& link is Some ==> s == StepView::Found(
                ResolvedView {
                    url: link->0,
                    filename: text::after_last(text::before_first(link->0, '?'), '/'),
                    sha256: None,
                },
            )
        }),
        next_step(WaitingView::Session(page), Err(e)) is Failed,
        next_step(WaitingView::WindowsPage { page, session: id }, Err(e)) is Failed,
        next_step(WaitingView::Skus { page, session: id }, Err(e)) is Failed,
        next_step(WaitingView::Links(page), Err(e)) is Failed,
{
}

} // verus!
