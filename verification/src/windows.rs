//! What is read out of the answers of Microsoft's download connector.
//!
//! Microsoft publishes Windows images through a connector rather than a plain link. A browser takes
//! three steps to reach one; if they change it, the failure says so and points at the page, instead
//! of pretending there is no way to get Windows.

use vstd::prelude::*;
use vstd::string::*;

use crate::text;

verus! {

// ---- what is said when it fails -------------------------------------------------------------

pub open spec fn advice(why: Seq<char>, page: Seq<char>) -> Seq<char> {
    why
        + "\n     Microsoft hands consumer images out through a browser session, and refuses requests it thinks are automated.\n     Either download it from "@
        + page
        + " yourself and run `arxburn write <file> --to <device>`,\n     or use the official evaluation image, which needs no account: `arxburn get win11-eval`"@
}

pub fn fail(why: &str, page: &str) -> (r: String)
    ensures
        r@ == advice(why@, page@),
{
    let mut s: String = why.to_owned();
    s.append(
        "\n     Microsoft hands consumer images out through a browser session, and refuses requests it thinks are automated.\n     Either download it from ",
    );
    s.append(page);
    s.append(
        " yourself and run `arxburn write <file> --to <device>`,\n     or use the official evaluation image, which needs no account: `arxburn get win11-eval`",
    );
    s
}

/// Why nothing was found in an answer: the anti-bot turned the request away, or else `otherwise`.
pub open spec fn refusal(answer: Seq<char>, otherwise: Seq<char>) -> Seq<char> {
    if text::contains(answer, "SentinelReject"@) {
        "Microsoft's anti-bot rejected this request"@
    } else {
        otherwise
    }
}

pub fn why_nothing<'a>(answer: &[char], otherwise: &'a str) -> (r: &'a str)
    ensures
        r@ == refusal(answer@, otherwise@),
{
    let mark: Vec<char> = text::chars_of("SentinelReject");
    if text::holds(answer, &mark) {
        "Microsoft's anti-bot rejected this request"
    } else {
        otherwise
    }
}

// ---- headers --------------------------------------------------------------------------------

/// Their connector drops anything that does not look like a browser.
pub open spec fn browser() -> Seq<char> {
    "User-Agent: Mozilla/5.0 (X11; Linux x86_64; rv:128.0) Gecko/20100101 Firefox/128.0"@
}

pub open spec fn page_headers() -> Seq<Seq<char>> {
    seq![browser()]
}

pub open spec fn connector_headers(page: Seq<char>) -> Seq<Seq<char>> {
    seq![
        "Referer: "@ + page,
        "Accept: application/json, text/plain, */*"@,
        "Accept-Language: en-US,en;q=0.9"@,
        browser(),
    ]
}

pub fn headers_for_page() -> (r: Vec<String>)
    ensures
        text::strings(r@) == page_headers(),
{
    let mut v: Vec<String> = Vec::new();
    v.push(
        "User-Agent: Mozilla/5.0 (X11; Linux x86_64; rv:128.0) Gecko/20100101 Firefox/128.0".to_owned(),
    );
    assert(text::strings(v@) =~= page_headers());
    v
}

pub fn headers_for_connector(page: &str) -> (r: Vec<String>)
    ensures
        text::strings(r@) == connector_headers(page@),
{
    let mut v: Vec<String> = Vec::new();
    let mut referer: String = "Referer: ".to_owned();
    referer.append(page);
    v.push(referer);
    v.push("Accept: application/json, text/plain, */*".to_owned());
    v.push("Accept-Language: en-US,en;q=0.9".to_owned());
    v.push(
        "User-Agent: Mozilla/5.0 (X11; Linux x86_64; rv:128.0) Gecko/20100101 Firefox/128.0".to_owned(),
    );
    assert(text::strings(v@) =~= connector_headers(page@));
    v
}

// ---- addresses ------------------------------------------------------------------------------

pub open spec fn session_address(session: Seq<char>) -> Seq<char> {
    "https://vlscppe.microsoft.com/fp/tags?org_id=y6jn8c31&session_id="@ + session
}

pub open spec fn sku_address(edition: Seq<char>, session: Seq<char>) -> Seq<char> {
    "https://www.microsoft.com/software-download-connector/api/getskuinformationbyproductedition?profile=606624d44497&ProductEditionId="@
        + edition + "&SKU=undefined&friendlyFileName=undefined&Locale=en-US&sessionID="@ + session
}

pub open spec fn links_address(sku: Seq<char>, session: Seq<char>) -> Seq<char> {
    "https://www.microsoft.com/software-download-connector/api/GetProductDownloadLinksBySku?profile=606624d44497&ProductEditionId=undefined&SKU="@
        + sku + "&friendlyFileName=undefined&Locale=en-US&sessionID="@ + session
}

pub fn session_url(session: &str) -> (r: String)
    ensures
        r@ == session_address(session@),
{
    let mut s: String = "https://vlscppe.microsoft.com/fp/tags?org_id=y6jn8c31&session_id=".to_owned();
    s.append(session);
    s
}

pub fn sku_url(edition: &str, session: &str) -> (r: String)
    ensures
        r@ == sku_address(edition@, session@),
{
    let mut s: String =
        "https://www.microsoft.com/software-download-connector/api/getskuinformationbyproductedition?profile=606624d44497&ProductEditionId=".to_owned();
    s.append(edition);
    s.append("&SKU=undefined&friendlyFileName=undefined&Locale=en-US&sessionID=");
    s.append(session);
    s
}

pub fn links_url(sku: &str, session: &str) -> (r: String)
    ensures
        r@ == links_address(sku@, session@),
{
    let mut s: String =
        "https://www.microsoft.com/software-download-connector/api/GetProductDownloadLinksBySku?profile=606624d44497&ProductEditionId=undefined&SKU=".to_owned();
    s.append(sku);
    s.append("&friendlyFileName=undefined&Locale=en-US&sessionID=");
    s.append(session);
    s
}

// ---- the product edition --------------------------------------------------------------------

/// The value of a page's option, when it is a number.
pub open spec fn edition_value(chunk: Seq<char>) -> Option<Seq<char>> {
    let v = text::before_first(chunk, '"');
    if v.len() > 0 && text::all_digits(v) {
        Some(v)
    } else {
        None
    }
}

/// The first numbered option from chunk `i` on.
pub open spec fn edition_from(chunks: Seq<Seq<char>>, i: int) -> Option<Seq<char>>
    decreases chunks.len() - i,
{
    if i < 0 || i >= chunks.len() {
        None
    } else if edition_value(chunks[i]) is Some {
        edition_value(chunks[i])
    } else {
        edition_from(chunks, i + 1)
    }
}

/// The product edition that the download page lists first.
pub open spec fn edition_of(body: Seq<char>) -> Option<Seq<char>> {
    edition_from(text::split_on(body, "option value=\""@), 1)
}

fn is_number(v: &[char]) -> (r: bool)
    ensures
        r == (v@.len() > 0 && text::all_digits(v@)),
{
    let mut i: usize = 0;
    while i < v.len()
        invariant
            i <= v@.len(),
            forall|j: int| 0 <= j < i ==> text::is_digit(#[trigger] v@[j]),
        decreases v@.len() - i,
    {
        if !text::digit(v[i]) {
            return false;
        }
        i += 1;
    }
    v.len() > 0
}

pub fn edition(body: &str) -> (r: Option<String>)
    ensures
        text::text_opt(r) == edition_of(body@),
{
    proof {
        reveal_strlit("option value=\"");
    }
    let parts: Vec<Vec<char>> = text::pieces_str(&text::chars_of(body), "option value=\"");
    let ghost chunks = text::texts(parts@);
    let mut i: usize = 1;
    while i < parts.len()
        invariant
            1 <= i <= parts@.len(),
            chunks == text::texts(parts@),
            edition_of(body@) == edition_from(chunks, i as int),
        decreases parts@.len() - i,
    {
        assert(chunks[i as int] == parts@[i as int]@);
        let v: Vec<char> = text::first_piece(&parts[i], '"');
        if is_number(&v) {
            return Some(text::string_of(&v));
        }
        i += 1;
    }
    None
}

// ---- the language edition -------------------------------------------------------------------

/// What follows `"Language":"` in a description begins with `lang`.
pub open spec fn speaks(chunk: Seq<char>, lang: Seq<char>) -> bool {
    let parts = text::split_on(chunk, "\"Language\":\""@);
    parts.len() > 1 && text::starts_with(parts[1], lang)
}

/// The id of the first description from chunk `i` on in the language.
pub open spec fn sku_from(chunks: Seq<Seq<char>>, lang: Seq<char>, i: int) -> Option<Seq<char>>
    decreases chunks.len() - i,
{
    if i < 0 || i >= chunks.len() {
        None
    } else if speaks(chunks[i], lang) {
        Some(text::before_first(chunks[i], '"'))
    } else {
        sku_from(chunks, lang, i + 1)
    }
}

/// The edition to download: plain English, or else any English, or else the first.
pub open spec fn sku_of(json: Seq<char>) -> Option<Seq<char>> {
    let chunks = text::split_on(json, "{\"Id\":\""@);
    if sku_from(chunks, "English\""@, 1) is Some {
        sku_from(chunks, "English\""@, 1)
    } else if sku_from(chunks, "English"@, 1) is Some {
        sku_from(chunks, "English"@, 1)
    } else if chunks.len() > 1 {
        Some(text::before_first(chunks[1], '"'))
    } else {
        None
    }
}

fn does_speak(chunk: &[char], lang: &str) -> (r: bool)
    ensures
        r == speaks(chunk@, lang@),
{
    proof {
        reveal_strlit("\"Language\":\"");
    }
    let parts: Vec<Vec<char>> = text::pieces_str(chunk, "\"Language\":\"");
    if parts.len() < 2 {
        return false;
    }
    assert(text::texts(parts@)[1] == parts@[1]@);
    text::begins(&parts[1], lang)
}

fn pick(parts: &Vec<Vec<char>>, lang: &str) -> (r: Option<String>)
    requires
        parts@.len() > 0,
    ensures
        text::text_opt(r) == sku_from(text::texts(parts@), lang@, 1),
{
    let ghost chunks = text::texts(parts@);
    let mut i: usize = 1;
    while i < parts.len()
        invariant
            1 <= i <= parts@.len(),
            chunks == text::texts(parts@),
            sku_from(chunks, lang@, 1) == sku_from(chunks, lang@, i as int),
        decreases parts@.len() - i,
    {
        assert(chunks[i as int] == parts@[i as int]@);
        if does_speak(&parts[i], lang) {
            return Some(text::string_of(&text::first_piece(&parts[i], '"')));
        }
        i += 1;
    }
    None
}

pub fn sku(json: &str) -> (r: Option<String>)
    ensures
        text::text_opt(r) == sku_of(json@),
{
    proof {
        reveal_strlit("{\"Id\":\"");
    }
    let parts: Vec<Vec<char>> = text::pieces_str(&text::chars_of(json), "{\"Id\":\"");
    let plain: Option<String> = pick(&parts, "English\"");
    if plain.is_some() {
        return plain;
    }
    let any: Option<String> = pick(&parts, "English");
    if any.is_some() {
        return any;
    }
    if parts.len() > 1 {
        assert(text::texts(parts@)[1] == parts@[1]@);
        Some(text::string_of(&text::first_piece(&parts[1], '"')))
    } else {
        None
    }
}

// ---- the link -------------------------------------------------------------------------------

/// The first download link, with its escapes undone.
pub open spec fn link_of(json: Seq<char>) -> Option<Seq<char>> {
    let parts = text::split_on(json, "\"Uri\":\""@);
    if parts.len() > 1 {
        Some(
            text::replace(
                text::replace(text::before_first(parts[1], '"'), "\\u0026"@, "&"@),
                "\\/"@,
                "/"@,
            ),
        )
    } else {
        None
    }
}

pub fn link(json: &str) -> (r: Option<String>)
    ensures
        text::text_opt(r) == link_of(json@),
{
    proof {
        reveal_strlit("\"Uri\":\"");
        reveal_strlit("\\u0026");
        reveal_strlit("\\/");
    }
    let parts: Vec<Vec<char>> = text::pieces_str(&text::chars_of(json), "\"Uri\":\"");
    if parts.len() < 2 {
        return None;
    }
    assert(text::texts(parts@)[1] == parts@[1]@);
    let raw: Vec<char> = text::first_piece(&parts[1], '"');
    let a: Vec<char> = text::joined(&text::pieces_str(&raw, "\\u0026"), "&");
    let b: Vec<char> = text::joined(&text::pieces_str(&a, "\\/"), "/");
    Some(text::string_of(&b))
}

// ---- what is read, in full ------------------------------------------------------------------

/// The edition that is taken is the first on the page that is a number: what stands in the quotes of an
/// option, all digits and not empty.
pub proof fn law_the_first_numbered_edition_is_taken(body: Seq<char>)
    ensures
        ({
            let options = text::split_on(body, "option value=\""@);
            match edition_of(body) {
                Some(v) => numbered(v) && exists|k: int|
                    1 <= k < options.len() && text::before_first(#[trigger] options[k], '"') == v
                        && forall|i: int|
                        1 <= i < k ==> !numbered(text::before_first(#[trigger] options[i], '"')),
                None => forall|i: int|
                    1 <= i < options.len() ==> !numbered(
                        text::before_first(#[trigger] options[i], '"'),
                    ),
            }
        }),
{
    lemma_edition(text::split_on(body, "option value=\""@), 1);
}

/// One or more decimal digits and nothing else.
pub open spec fn numbered(v: Seq<char>) -> bool {
    v.len() > 0 && forall|i: int| 0 <= i < v.len() ==> '0' <= #[trigger] v[i] && v[i] <= '9'
}

proof fn lemma_numbered(v: Seq<char>)
    ensures
        numbered(v) <==> v.len() > 0 && text::all_digits(v),
{
    if numbered(v) {
        assert forall|i: int| 0 <= i < v.len() implies text::is_digit(#[trigger] v[i]) by {
            assert('0' <= v[i] && v[i] <= '9');
        }
    }
    if text::all_digits(v) {
        assert forall|i: int| 0 <= i < v.len() implies '0' <= #[trigger] v[i] && v[i] <= '9' by {
            assert(text::is_digit(v[i]));
        }
    }
}

proof fn lemma_edition(options: Seq<Seq<char>>, from: int)
    requires
        from >= 0,
    ensures
        match edition_from(options, from) {
            Some(v) => numbered(v) && exists|k: int|
                from <= k < options.len() && text::before_first(#[trigger] options[k], '"') == v
                    && forall|i: int|
                    from <= i < k ==> !numbered(text::before_first(#[trigger] options[i], '"')),
            None => forall|i: int|
                from <= i < options.len() ==> !numbered(
                    text::before_first(#[trigger] options[i], '"'),
                ),
        },
    decreases options.len() - from,
{
    if from < options.len() {
        lemma_numbered(text::before_first(options[from], '"'));
        lemma_edition(options, from + 1);
        if edition_value(options[from]) is Some {
            assert(text::before_first(options[from], '"') == edition_from(options, from)->0);
        } else if let Some(v) = edition_from(options, from + 1) {
            let k = choose|k: int|
                from + 1 <= k < options.len() && text::before_first(#[trigger] options[k], '"') == v
                    && forall|i: int|
                    from + 1 <= i < k ==> !numbered(text::before_first(#[trigger] options[i], '"'));
            assert(text::before_first(options[k], '"') == v);
        }
    }
}

/// Of the offers the first in plain English is taken; without one the first in any English; and without
/// that the first there is.
pub proof fn law_english_is_taken_first(json: Seq<char>, k: int)
    requires
        1 <= k < text::split_on(json, "{\"Id\":\""@).len(),
    ensures
        ({
            let offers = text::split_on(json, "{\"Id\":\""@);
            let id = text::before_first(offers[k], '"');
            &&& speaks(offers[k], "English\""@) && (forall|i: int|
                1 <= i < k ==> !speaks(#[trigger] offers[i], "English\""@)) ==> sku_of(json) == Some(id)
            &&& (forall|i: int|
                1 <= i < offers.len() ==> !speaks(#[trigger] offers[i], "English\""@)) && speaks(
                offers[k],
                "English"@,
            ) && (forall|i: int| 1 <= i < k ==> !speaks(#[trigger] offers[i], "English"@)) ==> sku_of(json)
                == Some(id)
            &&& k == 1 && (forall|i: int|
                1 <= i < offers.len() ==> !speaks(#[trigger] offers[i], "English\""@) && !speaks(
                    offers[i],
                    "English"@,
                )) ==> sku_of(json) == Some(id)
        }),
{
    let offers = text::split_on(json, "{\"Id\":\""@);
    lemma_sku(offers, "English\""@, 1, k);
    lemma_sku(offers, "English"@, 1, k);
}

proof fn lemma_sku(offers: Seq<Seq<char>>, lang: Seq<char>, from: int, k: int)
    requires
        0 <= from <= k < offers.len(),
    ensures
        speaks(offers[k], lang) && (forall|i: int|
            from <= i < k ==> !speaks(#[trigger] offers[i], lang)) ==> sku_from(offers, lang, from)
            == Some(text::before_first(offers[k], '"')),
        (forall|i: int| from <= i < offers.len() ==> !speaks(#[trigger] offers[i], lang)) ==> sku_from(
            offers,
            lang,
            from,
        ) is None,
    decreases offers.len() - from,
{
    if from < k {
        lemma_sku(offers, lang, from + 1, k);
    } else if from + 1 < offers.len() {
        lemma_sku(offers, lang, from + 1, from + 1);
    }
}

/// The language of an offer is what stands after its `"Language":"`.
pub proof fn law_the_language_of_an_offer(before: Seq<char>, lang: Seq<char>, after: Seq<char>)
    requires
        forall|j: int|
            0 <= j < before.len() ==> !text::occurs_at(
                before + "\"Language\":\""@ + (lang + after),
                "\"Language\":\""@,
                j,
            ),
        !text::contains(lang + after, "\"Language\":\""@),
    ensures
        speaks(before + "\"Language\":\""@ + (lang + after), lang),
        !text::contains(before, "\"Language\":\""@) ==> !speaks(before, lang),
{
    reveal_strlit("\"Language\":\"");
    let key = "\"Language\":\""@;
    text::law_a_text_is_cut_at_its_separator(before, key, lang + after);
    text::law_a_text_without_separator_stays(lang + after, key);
    assert((lang + after).subrange(0, lang.len() as int) =~= lang);
    if !text::contains(before, key) {
        text::law_a_text_without_separator_stays(before, key);
    }
}

/// The link is what stands in the quotes after the first `"Uri":"`, as it is when nothing in it is
/// written otherwise; without such a field there is none.
pub proof fn law_the_link_follows_uri(before: Seq<char>, link: Seq<char>, after: Seq<char>)
    requires
        forall|j: int|
            0 <= j < before.len() ==> !text::occurs_at(
                before + "\"Uri\":\""@ + (link + seq!['"'] + after),
                "\"Uri\":\""@,
                j,
            ),
        text::lacks(link, '"'),
        text::lacks(link, '\\'),
    ensures
        link_of(before + "\"Uri\":\""@ + (link + seq!['"'] + after)) == Some(link),
        !text::contains(before, "\"Uri\":\""@) ==> link_of(before) is None,
{
    reveal_strlit("\"Uri\":\"");
    let key = "\"Uri\":\""@;
    let rest = link + seq!['"'] + after;
    text::law_a_text_is_cut_at_its_separator(before, key, rest);
    let tail = text::split_on(rest, key);
    text::lemma_split_len(rest, key);
    assert(text::split_on(before + key + rest, key)[1] == tail[0]);
    lemma_first_quoted(rest, link, after);
    lemma_nothing_replaced(link);
    if !text::contains(before, key) {
        text::law_a_text_without_separator_stays(before, key);
    }
}

proof fn lemma_first_quoted(rest: Seq<char>, link: Seq<char>, after: Seq<char>)
    requires
        rest == link + seq!['"'] + after,
        text::lacks(link, '"'),
    ensures
        text::before_first(text::split_on(rest, "\"Uri\":\""@)[0], '"') == link,
{
    reveal_strlit("\"Uri\":\"");
    let key = "\"Uri\":\""@;
    text::lemma_find_from(rest, key, 0);
    text::law_the_first_piece_comes_first(link, '"', after);
    if let Some(p) = text::find(rest, key) {
        assert(rest.subrange(p, p + key.len())[0] == rest[p]);
        assert(key[0] == '"');
        assert(p >= link.len()) by {
            if p < link.len() {
                assert(rest[p] == link[p]);
            }
        }
        let first = rest.take(p);
        assert(text::split_on(rest, key)[0] == first);
        if p == link.len() {
            assert(first =~= link);
        } else {
            let more = first.skip(link.len() as int + 1);
            assert(first =~= link + seq!['"'] + more);
            text::law_the_first_piece_comes_first(link, '"', more);
        }
    }
}

proof fn lemma_nothing_replaced(link: Seq<char>)
    requires
        text::lacks(link, '\\'),
    ensures
        text::replace(text::replace(link, "\\u0026"@, "&"@), "\\/"@, "/"@) == link,
{
    reveal_strlit("\\u0026");
    reveal_strlit("\\/");
    let keys = seq!["\\u0026"@, "\\/"@];
    assert forall|k: int| 0 <= k < 2 implies !text::contains(link, #[trigger] keys[k]) by {
        if text::contains(link, keys[k]) {
            let i = choose|i: int| text::occurs_at(link, keys[k], i);
            assert(link.subrange(i, i + keys[k].len())[0] == link[i]);
            assert(keys[k][0] == '\\');
        }
    }
    assert(!text::contains(link, keys[0]) && !text::contains(link, keys[1]));
    text::law_a_text_without_separator_stays(link, "\\u0026"@);
    text::law_a_text_without_separator_stays(link, "\\/"@);
}

/// Every request after the first carries the session, at the end of its address; the answer to a request
/// that was taken for a robot's says so.
pub proof fn law_every_request_carries_the_session(
    a: Seq<char>,
    b: Seq<char>,
    edition: Seq<char>,
    answer: Seq<char>,
    otherwise: Seq<char>,
)
    ensures
        text::ends_with(session_address(a), a),
        text::ends_with(sku_address(edition, a), a),
        text::ends_with(links_address(edition, a), a),
        text::contains(sku_address(edition, a), edition),
        text::contains(links_address(edition, a), edition),
        text::contains(answer, "SentinelReject"@) ==> refusal(answer, otherwise)
            == "Microsoft's anti-bot rejected this request"@,
        !text::contains(answer, "SentinelReject"@) ==> refusal(answer, otherwise) == otherwise,
{
    let s = session_address(a);
    let k = sku_address(edition, a);
    let l = links_address(edition, a);
    assert(s.subrange(s.len() - a.len(), s.len() as int) =~= a);
    assert(k.subrange(k.len() - a.len(), k.len() as int) =~= a);
    assert(l.subrange(l.len() - a.len(), l.len() as int) =~= a);
    let pk =
        "https://www.microsoft.com/software-download-connector/api/getskuinformationbyproductedition?profile=606624d44497&ProductEditionId="@;
    let pl =
        "https://www.microsoft.com/software-download-connector/api/GetProductDownloadLinksBySku?profile=606624d44497&ProductEditionId=undefined&SKU="@;
    assert(k.subrange(pk.len() as int, (pk.len() + edition.len()) as int) =~= edition);
    assert(l.subrange(pl.len() as int, (pl.len() + edition.len()) as int) =~= edition);
    assert(text::occurs_at(k, edition, pk.len() as int));
    assert(text::occurs_at(l, edition, pl.len() as int));
}

/// In a link a slash and an ampersand may be written otherwise; they are read as what they stand for.
pub proof fn law_what_is_written_otherwise_in_a_link(a: Seq<char>, b: Seq<char>)
    requires
        text::lacks(a, '\\'),
        text::lacks(b, '\\'),
    ensures
        text::replace(text::replace(a + "\\u0026"@ + b, "\\u0026"@, "&"@), "\\/"@, "/"@) == a + seq!['&']
            + b,
        text::replace(text::replace(a + "\\/"@ + b, "\\u0026"@, "&"@), "\\/"@, "/"@) == a + seq!['/'] + b,
        text::lacks(a + b, '"') ==> link_of("\"Uri\":\""@ + (a + "\\u0026"@ + b + seq!['"'])) == Some(
            a + seq!['&'] + b,
        ),
        text::lacks(a + b, '"') ==> link_of("\"Uri\":\""@ + (a + "\\/"@ + b + seq!['"'])) == Some(
            a + seq!['/'] + b,
        ),
{
    reveal_strlit("\\u0026");
    reveal_strlit("\\/");
    reveal_strlit("&");
    reveal_strlit("/");
    let and = "\\u0026"@;
    let slash = "\\/"@;
    assert("&"@ =~= seq!['&']);
    assert("/"@ =~= seq!['/']);
    assert(and[0] == '\\' && slash[0] == '\\' && and[1] == 'u' && slash[1] == '/');
    lemma_not_before(a, and, b);
    lemma_not_before(a, slash, b);
    lemma_lacks_key(b, and);
    lemma_lacks_key(b, slash);
    text::law_every_occurrence_is_replaced(a, and, "&"@, b);
    text::law_nothing_else_is_replaced(b, and, "&"@);
    let plain = a + "&"@ + b;
    assert forall|i: int| 0 <= i < plain.len() implies #[trigger] plain[i] != '\\' by {
        if i < a.len() {
            assert(plain[i] == a[i]);
        } else if i > a.len() {
            assert(plain[i] == b[i - a.len() - 1]);
        }
    }
    lemma_lacks_key(plain, slash);
    text::law_nothing_else_is_replaced(plain, slash, "/"@);
    let s = a + slash + b;
    if text::contains(s, and) {
        let i = choose|i: int| text::occurs_at(s, and, i);
        assert(s.subrange(i, i + and.len())[0] == s[i] && s.subrange(i, i + and.len())[1] == s[i + 1]);
        if i < a.len() {
            assert(s[i] == a[i]);
        } else if i == a.len() {
            assert(s[i + 1] == slash[1]);
        } else if i == a.len() + 1 {
            assert(s[i] == slash[1]);
        } else {
            assert(s[i] == b[i - a.len() - 2]);
        }
    }
    text::law_nothing_else_is_replaced(s, and, "&"@);
    text::law_every_occurrence_is_replaced(a, slash, "/"@, b);
    text::law_nothing_else_is_replaced(b, slash, "/"@);
    if text::lacks(a + b, '"') {
        lemma_uri(a, and, b);
        lemma_uri(a, slash, b);
    }
}

proof fn lemma_uri(a: Seq<char>, key: Seq<char>, b: Seq<char>)
    requires
        text::lacks(a + b, '"'),
        text::lacks(key, '"'),
    ensures
        link_of("\"Uri\":\""@ + (a + key + b + seq!['"'])) == Some(
            text::replace(text::replace(a + key + b, "\\u0026"@, "&"@), "\\/"@, "/"@),
        ),
{
    reveal_strlit("\"Uri\":\"");
    let uri = "\"Uri\":\""@;
    let none = Seq::<char>::empty();
    let link = a + key + b;
    let rest = link + seq!['"'] + none;
    assert(rest =~= link + seq!['"']);
    assert forall|i: int| 0 <= i < link.len() implies #[trigger] link[i] != '"' by {
        if i < a.len() {
            assert((a + b)[i] == link[i]);
        } else if i < a.len() + key.len() {
            assert(link[i] == key[i - a.len()]);
        } else {
            assert((a + b)[i - key.len()] == link[i]);
        }
    }
    text::law_a_text_is_cut_at_its_separator(none, uri, rest);
    assert(none + uri + rest =~= uri + (link + seq!['"']));
    text::lemma_split_len(rest, uri);
    lemma_first_quoted(rest, link, none);
    assert(text::split_on(uri + (link + seq!['"']), uri)[1] == text::split_on(rest, uri)[0]);
}

proof fn lemma_not_before(a: Seq<char>, key: Seq<char>, b: Seq<char>)
    requires
        text::lacks(a, '\\'),
        key.len() > 0,
        key[0] == '\\',
    ensures
        forall|j: int| 0 <= j < a.len() ==> !text::occurs_at(a + key + b, key, j),
{
    let s = a + key + b;
    assert forall|j: int| 0 <= j < a.len() implies !text::occurs_at(s, key, j) by {
        if text::occurs_at(s, key, j) {
            assert(s.subrange(j, j + key.len())[0] == s[j]);
            assert(s[j] == a[j]);
        }
    }
}

proof fn lemma_lacks_key(s: Seq<char>, key: Seq<char>)
    requires
        text::lacks(s, '\\'),
        key.len() > 0,
        key[0] == '\\',
    ensures
        !text::contains(s, key),
{
    if text::contains(s, key) {
        let i = choose|i: int| text::occurs_at(s, key, i);
        assert(s.subrange(i, i + key.len())[0] == s[i]);
    }
}

} // verus!
