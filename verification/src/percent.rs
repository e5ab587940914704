//! Percent signs in web addresses: writing a name into one, and reading a name out of one.

use vstd::prelude::*;
use vstd::string::*;
use vstd::utf8::*;

use crate::text;

verus! {

// ---- reading --------------------------------------------------------------------------------

pub open spec fn hex_value(b: u8) -> Option<u8> {
    if 48 <= b <= 57 {
        Some((b - 48) as u8)
    } else if 65 <= b <= 70 {
        Some((b - 55) as u8)
    } else if 97 <= b <= 102 {
        Some((b - 87) as u8)
    } else {
        None
    }
}

/// The byte that two characters write in base sixteen; the first may be a plus sign.
pub open spec fn pair_value(a: u8, b: u8) -> Option<u8> {
    match (hex_value(a), hex_value(b)) {
        (Some(x), Some(y)) => Some((16 * x + y) as u8),
        (None, Some(y)) => if a == 43 {
            Some(y)
        } else {
            None
        },
        _ => None,
    }
}

/// The bytes with every percent sign that two digits follow replaced by the byte they write.
pub open spec fn unescape(b: Seq<u8>) -> Seq<u8>
    decreases b.len(),
{
    if b.len() == 0 {
        seq![]
    } else if b[0] == 37 && b.len() > 2 && pair_value(b[1], b[2]) is Some {
        seq![pair_value(b[1], b[2])->0] + unescape(b.skip(3))
    } else {
        seq![b[0]] + unescape(b.drop_first())
    }
}

/// No percent sign is followed by two bytes of which the second is inside a character.
pub open spec fn readable(b: Seq<u8>) -> bool
    decreases b.len(),
{
    if b.len() == 0 {
        true
    } else if b[0] == 37 && b.len() > 2 {
        &&& b.len() == 3 || !is_continuation_byte(b[3])
        &&& if pair_value(b[1], b[2]) is Some {
            readable(b.skip(3))
        } else {
            readable(b.drop_first())
        }
    } else {
        readable(b.drop_first())
    }
}

/// The text that bytes are read as, whatever they are.
pub uninterp spec fn lossy_text(bytes: Seq<u8>) -> Seq<char>;

/// `String::from_utf8_lossy` reads bytes as text, with a replacement character for what is not
/// UTF-8. Its result depends on the bytes alone, and bytes that are UTF-8 give the text that they
/// encode. Which replacements stand for what in other bytes is left unsaid.
#[verifier::external_body]
fn lossy(bytes: &[u8]) -> (r: String)
    ensures
        r@ == lossy_text(bytes@),
        valid_utf8(bytes@) ==> r@ == decode_utf8(bytes@),
{
    String::from_utf8_lossy(bytes).into_owned()
}

fn hex_of(b: u8) -> (r: Option<u8>)
    ensures
        r == hex_value(b),
{
    if 48 <= b && b <= 57 {
        Some(b - 48)
    } else if 65 <= b && b <= 70 {
        Some(b - 55)
    } else if 97 <= b && b <= 102 {
        Some(b - 87)
    } else {
        None
    }
}

fn pair_of(a: u8, b: u8) -> (r: Option<u8>)
    ensures
        r == pair_value(a, b),
{
    match hex_of(b) {
        None => None,
        Some(y) => match hex_of(a) {
            Some(x) => Some(16 * x + y),
            None => if a == 43 {
                Some(y)
            } else {
                None
            },
        },
    }
}

/// Whether [`percent_decode`] can read the text.
pub fn percent_readable(s: &str) -> (r: bool)
    ensures
        r == readable(s.spec_bytes()),
{
    let b: &[u8] = s.as_bytes();
    let mut i: usize = 0;
    assert(b@.skip(0) =~= b@);
    while i < b.len()
        invariant
            i <= b@.len(),
            b@ == s.spec_bytes(),
            readable(b@) == readable(b@.skip(i as int)),
        decreases b@.len() - i,
    {
        assert(b@.skip(i as int).drop_first() =~= b@.skip(i + 1));
        if b[i] == 37 && b.len() - i > 2 {
            assert(b@.skip(i as int).skip(3) =~= b@.skip(i + 3));
            if b.len() - i > 3 && 0x80 <= b[i + 3] && b[i + 3] <= 0xbf {
                return false;
            }
            if pair_of(b[i + 1], b[i + 2]).is_some() {
                i += 3;
                continue;
            }
        }
        i += 1;
    }
    true
}

/// The bytes of a text with its percent signs read.
pub fn unescaped(s: &str) -> (r: Vec<u8>)
    ensures
        r@ == unescape(s.spec_bytes()),
{
    let b: &[u8] = s.as_bytes();
    let mut out: Vec<u8> = Vec::new();
    let mut i: usize = 0;
    assert(b@.skip(0) =~= b@);
    assert(out@ + unescape(b@) =~= unescape(b@));
    while i < b.len()
        invariant
            i <= b@.len(),
            b@ == s.spec_bytes(),
            out@ + unescape(b@.skip(i as int)) == unescape(b@),
        decreases b@.len() - i,
    {
        let ghost before = out@;
        assert(b@.skip(i as int).drop_first() =~= b@.skip(i + 1));
        if b[i] == 37 && b.len() - i > 2 {
            assert(b@.skip(i as int).skip(3) =~= b@.skip(i + 3));
            if let Some(v) = pair_of(b[i + 1], b[i + 2]) {
                out.push(v);
                i += 3;
                assert(out@ + unescape(b@.skip(i as int)) =~= before + (seq![v] + unescape(
                    b@.skip(i as int),
                )));
                continue;
            }
        }
        let v: u8 = b[i];
        out.push(v);
        i += 1;
        assert(out@ + unescape(b@.skip(i as int)) =~= before + (seq![v] + unescape(
            b@.skip(i as int),
        )));
    }
    assert(out@ + unescape(b@.skip(i as int)) =~= out@);
    out
}

/// A name as a web address writes it, with its percent signs read.
pub open spec fn decoded(s: Seq<char>) -> Seq<char> {
    lossy_text(unescape(encode_utf8(s)))
}

pub fn percent_decode(s: &str) -> (r: String)
    requires
        readable(s.spec_bytes()),
    ensures
        r@ == decoded(s@),
        valid_utf8(unescape(s.spec_bytes())) ==> r@ == decode_utf8(unescape(s.spec_bytes())),
{
    lossy(&unescaped(s))
}


// ---- writing --------------------------------------------------------------------------------

/// The characters that stand for themselves in a web address.
pub open spec fn kept(c: char) -> bool {
    ||| '0' <= c && c <= '9'
    ||| 'A' <= c && c <= 'Z'
    ||| 'a' <= c && c <= 'z'
    ||| c == '-' || c == '.' || c == '_' || c == '~' || c == '/'
}

pub open spec fn hex_char(d: int) -> char {
    if d < 10 {
        (48 + d) as char
    } else {
        (55 + d) as char
    }
}

/// A percent sign and the byte in two digits of base sixteen.
pub open spec fn escape_byte(b: u8) -> Seq<char> {
    seq!['%', hex_char(b as int / 16), hex_char(b as int % 16)]
}

pub open spec fn escape_bytes(b: Seq<u8>) -> Seq<char>
    decreases b.len(),
{
    if b.len() == 0 {
        seq![]
    } else {
        escape_bytes(b.drop_last()) + escape_byte(b.last())
    }
}

pub open spec fn escape_char(c: char) -> Seq<char> {
    if kept(c) {
        seq![c]
    } else {
        escape_bytes(encode_utf8(seq![c]))
    }
}

/// A name as a web address writes it.
pub open spec fn escape(s: Seq<char>) -> Seq<char>
    decreases s.len(),
{
    if s.len() == 0 {
        seq![]
    } else {
        escape(s.drop_last()) + escape_char(s.last())
    }
}

fn hex_digit(d: u8) -> (r: char)
    requires
        d < 16,
    ensures
        r == hex_char(d as int),
{
    if d < 10 {
        (48 + d) as char
    } else {
        (55 + d) as char
    }
}

fn keep(c: char) -> (r: bool)
    ensures
        r == kept(c),
{
    ('0' <= c && c <= '9') || ('A' <= c && c <= 'Z') || ('a' <= c && c <= 'z') || c == '-' || c
        == '.' || c == '_' || c == '~' || c == '/'
}

fn push_escaped(out: &mut Vec<char>, c: char)
    ensures
        final(out)@ == old(out)@ + escape_char(c),
{
    let ghost before = out@;
    if keep(c) {
        out.push(c);
        assert(out@ =~= before + seq![c]);
        return;
    }
    let mut one: String = String::new();
    one.push(c);
    assert(one@ =~= seq![c]);
    let b: &[u8] = one.as_str().as_bytes();
    let mut i: usize = 0;
    while i < b.len()
        invariant
            i <= b@.len(),
            out@ =~= before + escape_bytes(b@.take(i as int)),
        decreases b@.len() - i,
    {
        assert(b@.take(i + 1).drop_last() =~= b@.take(i as int));
        out.push('%');
        out.push(hex_digit(b[i] / 16));
        out.push(hex_digit(b[i] % 16));
        i += 1;
    }
    assert(b@.take(i as int) =~= b@);
}

/// A name as a web address writes it: letters, digits and `-._~/` as they are, the bytes of any
/// other character with a percent sign each.
pub fn percent_encode(s: &str) -> (r: String)
    ensures
        r@ == escape(s@),
{
    let s: Vec<char> = text::chars_of(s);
    let mut out: Vec<char> = Vec::new();
    let mut i: usize = 0;
    while i < s.len()
        invariant
            i <= s@.len(),
            out@ =~= escape(s@.take(i as int)),
        decreases s@.len() - i,
    {
        assert(s@.take(i + 1).drop_last() =~= s@.take(i as int));
        push_escaped(&mut out, s[i]);
        i += 1;
    }
    assert(s@.take(i as int) =~= s@);
    text::string_of(&out)
}

// ---- one undoes the other -------------------------------------------------------------------

proof fn lemma_encode_push(s: Seq<char>, c: char)
    ensures
        encode_utf8(s + seq![c]) == encode_utf8(s) + encode_utf8(seq![c]),
    decreases s.len(),
{
    if s.len() == 0 {
        assert(s + seq![c] =~= seq![c]);
        assert(encode_utf8(s) + encode_utf8(seq![c]) =~= encode_utf8(seq![c]));
    } else {
        lemma_encode_push(s.drop_first(), c);
        assert((s + seq![c]).drop_first() =~= s.drop_first() + seq![c]);
        assert(encode_utf8(s + seq![c]) =~= encode_scalar(s[0] as u32) + (encode_utf8(s.drop_first())
            + encode_utf8(seq![c])));
    }
}

proof fn lemma_encode_concat(s: Seq<char>, t: Seq<char>)
    ensures
        encode_utf8(s + t) == encode_utf8(s) + encode_utf8(t),
    decreases t.len(),
{
    if t.len() == 0 {
        assert(s + t =~= s);
        assert(encode_utf8(s) + encode_utf8(t) =~= encode_utf8(s));
    } else {
        lemma_encode_concat(s, t.drop_last());
        lemma_encode_push(s + t.drop_last(), t.last());
        lemma_encode_push(t.drop_last(), t.last());
        assert(s + t =~= (s + t.drop_last()) + seq![t.last()]);
        assert(t.drop_last() + seq![t.last()] =~= t);
        assert(encode_utf8(s) + encode_utf8(t) =~= encode_utf8(s) + encode_utf8(t.drop_last())
            + encode_utf8(seq![t.last()]));
    }
}

proof fn lemma_encode_ascii(c: char)
    requires
        c as u32 <= 0x7f,
    ensures
        encode_utf8(seq![c]) == seq![c as u8],
{
    let n = c as u32;
    assert((n & 0x7F) as u8 == n as u8) by (bit_vector)
        requires
            n <= 0x7f,
    ;
    assert(seq![c].drop_first() =~= seq![]);
    assert(encode_utf8(seq![c].drop_first()) =~= seq![]);
    assert(encode_utf8(seq![c]) =~= seq![c as u8]);
}

/// The bytes of an escaped byte.
spec fn escape_byte_bytes(b: u8) -> Seq<u8> {
    seq![37u8, hex_char(b as int / 16) as u8, hex_char(b as int % 16) as u8]
}

proof fn lemma_escape_byte(b: u8)
    ensures
        encode_utf8(escape_byte(b)) == escape_byte_bytes(b),
        pair_value(escape_byte_bytes(b)[1], escape_byte_bytes(b)[2]) == Some(b),
{
    let h = hex_char(b as int / 16);
    let l = hex_char(b as int % 16);
    lemma_encode_ascii('%');
    lemma_encode_ascii(h);
    lemma_encode_ascii(l);
    lemma_encode_concat(seq!['%'], seq![h]);
    lemma_encode_concat(seq!['%'] + seq![h], seq![l]);
    assert(escape_byte(b) =~= seq!['%'] + seq![h] + seq![l]);
    assert(encode_utf8(escape_byte(b)) =~= escape_byte_bytes(b));
}

/// `front`, read before any `rest` that begins at a character, gives `out` and stays readable.
spec fn reads_as(front: Seq<u8>, out: Seq<u8>) -> bool {
    forall|rest: Seq<u8>| #![trigger unescape(front + rest)]
        starts_fresh(rest) ==> {
            &&& unescape(front + rest) == out + unescape(rest)
            &&& (readable(rest) ==> readable(front + rest))
            &&& starts_fresh(front + rest)
        }
}

spec fn starts_fresh(b: Seq<u8>) -> bool {
    b.len() > 0 ==> !is_continuation_byte(b[0])
}

proof fn lemma_reads_concat(f1: Seq<u8>, o1: Seq<u8>, f2: Seq<u8>, o2: Seq<u8>)
    requires
        reads_as(f1, o1),
        reads_as(f2, o2),
    ensures
        reads_as(f1 + f2, o1 + o2),
{
    assert forall|rest: Seq<u8>| starts_fresh(rest) implies {
        &&& #[trigger] unescape((f1 + f2) + rest) == (o1 + o2) + unescape(rest)
        &&& (readable(rest) ==> readable((f1 + f2) + rest))
        &&& starts_fresh((f1 + f2) + rest)
    } by {
        assert((f1 + f2) + rest =~= f1 + (f2 + rest));
        assert(unescape(f2 + rest) == o2 + unescape(rest));
        assert(unescape(f1 + (f2 + rest)) == o1 + unescape(f2 + rest));
        assert((o1 + o2) + unescape(rest) =~= o1 + (o2 + unescape(rest)));
    }
}

proof fn lemma_reads_byte(b: u8)
    ensures
        reads_as(escape_byte_bytes(b), seq![b]),
{
    lemma_escape_byte(b);
    let f = escape_byte_bytes(b);
    assert forall|rest: Seq<u8>| starts_fresh(rest) implies {
        &&& #[trigger] unescape(f + rest) == seq![b] + unescape(rest)
        &&& (readable(rest) ==> readable(f + rest))
        &&& starts_fresh(f + rest)
    } by {
        assert((f + rest).skip(3) =~= rest);
        assert((f + rest)[1] == f[1] && (f + rest)[2] == f[2]);
    }
}

proof fn lemma_reads_nothing()
    ensures
        reads_as(seq![], seq![]),
{
    let none = Seq::<u8>::empty();
    assert forall|rest: Seq<u8>| starts_fresh(rest) implies {
        &&& #[trigger] unescape(none + rest) == none + unescape(rest)
        &&& (readable(rest) ==> readable(none + rest))
        &&& starts_fresh(none + rest)
    } by {
        assert(none + rest =~= rest);
        assert(none + unescape(rest) =~= unescape(rest));
    }
}

proof fn lemma_reads_bytes(b: Seq<u8>)
    ensures
        reads_as(encode_utf8(escape_bytes(b)), b),
    decreases b.len(),
{
    if b.len() == 0 {
        lemma_reads_nothing();
        assert(encode_utf8(escape_bytes(b)) =~= seq![]);
        assert(b =~= seq![]);
    } else {
        lemma_reads_bytes(b.drop_last());
        lemma_reads_byte(b.last());
        lemma_escape_byte(b.last());
        lemma_encode_concat(escape_bytes(b.drop_last()), escape_byte(b.last()));
        lemma_reads_concat(
            encode_utf8(escape_bytes(b.drop_last())),
            b.drop_last(),
            escape_byte_bytes(b.last()),
            seq![b.last()],
        );
        assert(b.drop_last() + seq![b.last()] =~= b);
    }
}

proof fn lemma_reads_char(c: char)
    ensures
        reads_as(encode_utf8(escape_char(c)), encode_utf8(seq![c])),
{
    if kept(c) {
        lemma_encode_ascii(c);
        let f = seq![c as u8];
        assert forall|rest: Seq<u8>| starts_fresh(rest) implies {
            &&& #[trigger] unescape(f + rest) == f + unescape(rest)
            &&& (readable(rest) ==> readable(f + rest))
            &&& starts_fresh(f + rest)
        } by {
            assert((f + rest).drop_first() =~= rest);
        }
    } else {
        lemma_reads_bytes(encode_utf8(seq![c]));
    }
}

proof fn lemma_reads_text(s: Seq<char>)
    ensures
        reads_as(encode_utf8(escape(s)), encode_utf8(s)),
    decreases s.len(),
{
    if s.len() == 0 {
        lemma_reads_nothing();
        assert(encode_utf8(escape(s)) =~= seq![]);
        assert(encode_utf8(s) =~= seq![]);
    } else {
        lemma_reads_text(s.drop_last());
        lemma_reads_char(s.last());
        lemma_encode_concat(escape(s.drop_last()), escape_char(s.last()));
        lemma_encode_push(s.drop_last(), s.last());
        lemma_reads_concat(
            encode_utf8(escape(s.drop_last())),
            encode_utf8(s.drop_last()),
            encode_utf8(escape_char(s.last())),
            encode_utf8(seq![s.last()]),
        );
        assert(s.drop_last() + seq![s.last()] =~= s);
    }
}

/// A name written into a web address can be read out of it, and what is read is the name: its
/// bytes come back, and they encode it.
pub proof fn law_percent_round_trip(s: Seq<char>)
    ensures
        readable(encode_utf8(escape(s))),
        unescape(encode_utf8(escape(s))) == encode_utf8(s),
        valid_utf8(unescape(encode_utf8(escape(s)))),
        decode_utf8(unescape(encode_utf8(escape(s)))) == s,
{
    lemma_reads_text(s);
    let none = Seq::<u8>::empty();
    let e = encode_utf8(escape(s));
    assert(unescape(e + none) == encode_utf8(s) + unescape(none));
    assert(e + none =~= e);
    assert(encode_utf8(s) + unescape(none) =~= encode_utf8(s));
    encode_utf8_valid_utf8(s);
    encode_utf8_decode_utf8(s);
}

/// The number that a hexadecimal digit, in capitals or not, stands for.
pub open spec fn hex_digit_of(d: int, b: u8) -> bool {
    ||| 0 <= d <= 9 && b == '0' as int + d
    ||| 10 <= d <= 15 && b == 'A' as int + d - 10
    ||| 10 <= d <= 15 && b == 'a' as int + d - 10
}

/// A percent sign and two hexadecimal digits, in capitals or not, are read as the byte that they write;
/// any other byte, and a percent sign that nothing of the kind follows, is read as itself.
pub proof fn law_a_percent_sign_writes_a_byte(x: int, y: int, a: u8, b: u8, c: u8, rest: Seq<u8>)
    requires
        hex_digit_of(x, a),
        hex_digit_of(y, b),
    ensures
        unescape(seq![0x25u8, a, b] + rest) == seq![(16 * x + y) as u8] + unescape(rest),
        c != 0x25 ==> unescape(seq![c] + rest) == seq![c] + unescape(rest),
        rest.len() < 2 ==> unescape(seq![0x25u8] + rest) == seq![0x25u8] + unescape(rest),
        rest.len() >= 2 && !(exists|d: int| #[trigger] hex_digit_of(d, rest[1])) ==> unescape(
            seq![0x25u8] + rest,
        ) == seq![0x25u8] + unescape(rest),
        unescape(Seq::empty()).len() == 0,
{
    let s = seq![0x25u8, a, b] + rest;
    assert(s.skip(3) =~= rest);
    assert(s[0] == 0x25 && s[1] == a && s[2] == b);
    let t = seq![c] + rest;
    assert(t.drop_first() =~= rest);
    let u = seq![0x25u8] + rest;
    assert(u.drop_first() =~= rest);
    if rest.len() >= 2 {
        assert(u[2] == rest[1]);
        if hex_value(rest[1]) is Some {
            assert(hex_digit_of(hex_value(rest[1])->0 as int, rest[1]));
        }
    }
}

/// Letters, digits, dashes, dots, underscores, tildes and slashes stay as they are in an address, and
/// nothing else does: whatever is written holds only these and percent signs.
pub proof fn law_what_an_address_can_hold(s: Seq<char>, c: char)
    ensures
        escape(s.push(c)) == escape(s) + escape_char(c),
        ('0' <= c && c <= '9') || ('A' <= c && c <= 'Z') || ('a' <= c && c <= 'z') || c == '-' || c == '.'
            || c == '_' || c == '~' || c == '/' ==> escape_char(c) == seq![c],
        !(('0' <= c && c <= '9') || ('A' <= c && c <= 'Z') || ('a' <= c && c <= 'z') || c == '-' || c
            == '.' || c == '_' || c == '~' || c == '/') ==> escape_char(c) == escape_bytes(
            encode_utf8(seq![c]),
        ),
{
    assert(s.push(c).drop_last() =~= s);
}

} // verus!
