//! The machine readable side of the output: one object on each line.

use vstd::prelude::*;
use vstd::string::*;

use crate::text;

verus! {

// ---- strings --------------------------------------------------------------------------------

/// The digit of a control character's code.
pub open spec fn code_digit(d: int) -> char {
    if d < 10 {
        (('0' as u32) + d) as char
    } else {
        (('a' as u32) + d - 10) as char
    }
}

/// A character as it stands inside a string.
pub open spec fn escaped_char(c: char) -> Seq<char> {
    if c == '"' {
        seq!['\\', '"']
    } else if c == '\\' {
        seq!['\\', '\\']
    } else if c == '\n' {
        seq!['\\', 'n']
    } else if c == '\r' {
        seq!['\\', 'r']
    } else if c == '\t' {
        seq!['\\', 't']
    } else if (c as u32) < 0x20 {
        seq!['\\', 'u', '0', '0', code_digit(c as int / 16), code_digit(c as int % 16)]
    } else {
        seq![c]
    }
}

pub open spec fn escaped(s: Seq<char>) -> Seq<char>
    decreases s.len(),
{
    if s.len() == 0 {
        seq![]
    } else {
        escaped(s.drop_last()) + escaped_char(s.last())
    }
}

/// A text as a JSON string.
pub open spec fn quoted(s: Seq<char>) -> Seq<char> {
    seq!['"'] + escaped(s) + seq!['"']
}

fn digit_of(d: u32) -> (r: char)
    requires
        d < 16,
    ensures
        r == code_digit(d as int),
{
    if d < 10 {
        (48 + d as u8) as char
    } else {
        (87 + d as u8) as char
    }
}

fn push_escaped(out: &mut String, c: char)
    ensures
        final(out)@ == old(out)@ + escaped_char(c),
{
    let ghost before = out@;
    if c == '"' {
        out.push('\\');
        out.push('"');
    } else if c == '\\' {
        out.push('\\');
        out.push('\\');
    } else if c == '\n' {
        out.push('\\');
        out.push('n');
    } else if c == '\r' {
        out.push('\\');
        out.push('r');
    } else if c == '\t' {
        out.push('\\');
        out.push('t');
    } else if (c as u32) < 0x20 {
        out.push('\\');
        out.push('u');
        out.push('0');
        out.push('0');
        out.push(digit_of(c as u32 / 16));
        out.push(digit_of(c as u32 % 16));
    } else {
        out.push(c);
    }
    assert(out@ =~= before + escaped_char(c));
}

/// A string value.
pub fn s(value: &str) -> (r: String)
    ensures
        r@ == quoted(value@),
{
    let chars: Vec<char> = text::chars_of(value);
    let mut out: String = String::new();
    out.push('"');
    let mut i: usize = 0;
    while i < chars.len()
        invariant
            i <= chars@.len(),
            out@ == seq!['"'] + escaped(chars@.take(i as int)),
        decreases chars@.len() - i,
    {
        push_escaped(&mut out, chars[i]);
        i += 1;
        assert(chars@.take(i as int).drop_last() =~= chars@.take(i - 1));
        assert(out@ =~= seq!['"'] + escaped(chars@.take(i as int)));
    }
    assert(chars@.take(i as int) =~= chars@);
    out.push('"');
    assert(out@ =~= quoted(value@));
    out
}

// ---- other values ---------------------------------------------------------------------------

/// A number.
pub fn n(value: u64) -> (r: String)
    ensures
        r@ == text::decimal(value as nat),
{
    text::number_text(value)
}

/// A number that may be negative.
pub open spec fn signed_text(n: int) -> Seq<char> {
    if n < 0 {
        seq!['-'] + text::decimal((-n) as nat)
    } else {
        text::decimal(n as nat)
    }
}

pub fn i(value: i32) -> (r: String)
    ensures
        r@ == signed_text(value as int),
{
    let wide: i64 = value as i64;
    if wide < 0 {
        let mut out: String = String::new();
        out.push('-');
        assert(out@ =~= seq!['-']);
        out.append(&text::number_text((-wide) as u64));
        out
    } else {
        text::number_text(wide as u64)
    }
}

pub open spec fn truth(b: bool) -> Seq<char> {
    if b {
        "true"@
    } else {
        "false"@
    }
}

/// True or false.
pub fn b(value: bool) -> (r: String)
    ensures
        r@ == truth(value),
{
    if value {
        "true".to_owned()
    } else {
        "false".to_owned()
    }
}

pub open spec fn maybe_quoted(s: Option<Seq<char>>) -> Seq<char> {
    match s {
        Some(t) => quoted(t),
        None => "null"@,
    }
}

/// A string, or null.
pub fn s_or_null(value: &Option<String>) -> (r: String)
    ensures
        r@ == maybe_quoted(text::text_opt(*value)),
{
    match value {
        Some(t) => s(t),
        None => "null".to_owned(),
    }
}

pub open spec fn maybe_number(n: Option<u64>) -> Seq<char> {
    match n {
        Some(x) => text::decimal(x as nat),
        None => "null"@,
    }
}

/// A number, or null.
pub fn n_or_null(value: Option<u64>) -> (r: String)
    ensures
        r@ == maybe_number(value),
{
    match value {
        Some(x) => n(x),
        None => "null".to_owned(),
    }
}

// ---- lists and objects ----------------------------------------------------------------------

/// The items of a list, with commas between them.
pub open spec fn listed(items: Seq<Seq<char>>) -> Seq<char>
    decreases items.len(),
{
    if items.len() == 0 {
        seq![]
    } else if items.len() == 1 {
        items[0]
    } else {
        listed(items.drop_last()) + seq![','] + items.last()
    }
}

pub open spec fn list_text(items: Seq<Seq<char>>) -> Seq<char> {
    seq!['['] + listed(items) + seq![']']
}

/// One field of an object.
pub open spec fn field_text(f: (Seq<char>, Seq<char>)) -> Seq<char> {
    quoted(f.0) + seq![':'] + f.1
}

pub open spec fn fields_text(fields: Seq<(Seq<char>, Seq<char>)>) -> Seq<Seq<char>> {
    fields.map_values(|f: (Seq<char>, Seq<char>)| field_text(f))
}

/// An object with these fields in this order, each value being JSON already.
pub open spec fn object_text(fields: Seq<(Seq<char>, Seq<char>)>) -> Seq<char> {
    seq!['{'] + listed(fields_text(fields)) + seq!['}']
}

/// A field: its name and its value.
pub type Field = (&'static str, String);

pub open spec fn fields_view(v: Seq<Field>) -> Seq<(Seq<char>, Seq<char>)> {
    Seq::new(v.len(), |i: int| (v[i].0@, v[i].1@))
}

proof fn lemma_listed_push(items: Seq<Seq<char>>, x: Seq<char>)
    ensures
        listed(items.push(x)) == if items.len() == 0 {
            x
        } else {
            listed(items) + seq![','] + x
        },
{
    assert(items.push(x).drop_last() =~= items);
}

/// A list of values.
pub fn list(items: &Vec<String>) -> (r: String)
    ensures
        r@ == list_text(text::strings(items@)),
{
    let ghost all = text::strings(items@);
    let mut out: String = String::new();
    out.push('[');
    let mut i: usize = 0;
    while i < items.len()
        invariant
            i <= items@.len(),
            all == text::strings(items@),
            out@ == seq!['['] + listed(all.take(i as int)),
        decreases items@.len() - i,
    {
        proof {
            lemma_listed_push(all.take(i as int), all[i as int]);
            assert(all.take(i + 1) =~= all.take(i as int).push(all[i as int]));
        }
        if i > 0 {
            out.push(',');
        }
        out.append(&items[i]);
        assert(all[i as int] == items@[i as int]@);
        i += 1;
        assert(out@ =~= seq!['['] + listed(all.take(i as int)));
    }
    assert(all.take(i as int) =~= all);
    out.push(']');
    assert(out@ =~= list_text(all));
    out
}

pub open spec fn quoted_all(v: Seq<Seq<char>>) -> Seq<Seq<char>> {
    v.map_values(|t: Seq<char>| quoted(t))
}

/// A list of strings.
pub fn strs(items: &Vec<String>) -> (r: String)
    ensures
        r@ == list_text(quoted_all(text::strings(items@))),
{
    let mut out: Vec<String> = Vec::new();
    let mut i: usize = 0;
    while i < items.len()
        invariant
            i <= items@.len(),
            out@.len() == i,
            forall|j: int| 0 <= j < i ==> #[trigger] out@[j]@ == quoted(items@[j]@),
        decreases items@.len() - i,
    {
        out.push(s(&items[i]));
        i += 1;
    }
    assert(text::strings(out@) =~= quoted_all(text::strings(items@)));
    list(&out)
}

/// An object.
pub fn object(fields: &Vec<Field>) -> (r: String)
    ensures
        r@ == object_text(fields_view(fields@)),
{
    let ghost all = fields_text(fields_view(fields@));
    let mut out: String = String::new();
    out.push('{');
    let mut i: usize = 0;
    while i < fields.len()
        invariant
            i <= fields@.len(),
            all == fields_text(fields_view(fields@)),
            all.len() == fields@.len(),
            out@ == seq!['{'] + listed(all.take(i as int)),
        decreases fields@.len() - i,
    {
        proof {
            lemma_listed_push(all.take(i as int), all[i as int]);
            assert(all.take(i + 1) =~= all.take(i as int).push(all[i as int]));
            assert(fields_view(fields@)[i as int] == (fields@[i as int].0@, fields@[i as int].1@));
        }
        if i > 0 {
            out.push(',');
        }
        out.append(&s(fields[i].0));
        out.push(':');
        out.append(&fields[i].1);
        i += 1;
        assert(out@ =~= seq!['{'] + listed(all.take(i as int)));
    }
    assert(all.take(i as int) =~= all);
    out.push('}');
    assert(out@ =~= object_text(fields_view(fields@)));
    out
}

// ---- laws -----------------------------------------------------------------------------------

/// No character of it would break a line or be lost on the way.
pub open spec fn printable(s: Seq<char>) -> bool {
    forall|i: int| 0 <= i < s.len() ==> (#[trigger] s[i] as u32) >= 0x20
}

/// A string value holds no control character, whatever the text holds, so an event that carries it
/// stays on its one line.
pub proof fn law_a_string_stays_on_its_line(t: Seq<char>)
    ensures
        printable(quoted(t)),
{
    lemma_escaped_printable(t);
}

proof fn lemma_char_printable(c: char)
    ensures
        printable(escaped_char(c)),
{
    assert((c as u32) < 0x20 ==> c as int / 16 < 2 && 0 <= c as int % 16 < 16);
}

proof fn lemma_escaped_printable(t: Seq<char>)
    ensures
        printable(escaped(t)),
    decreases t.len(),
{
    if t.len() > 0 {
        lemma_escaped_printable(t.drop_last());
        lemma_char_printable(t.last());
    }
}

proof fn lemma_listed_printable(items: Seq<Seq<char>>)
    requires
        forall|i: int| 0 <= i < items.len() ==> printable(#[trigger] items[i]),
    ensures
        printable(listed(items)),
    decreases items.len(),
{
    if items.len() > 1 {
        lemma_listed_printable(items.drop_last());
        assert(printable(items.last()));
    } else if items.len() == 1 {
        assert(printable(items[0]));
    }
}

/// An object whose values are on one line is on one line.
pub proof fn law_an_event_is_one_line(fields: Seq<(Seq<char>, Seq<char>)>)
    requires
        forall|i: int| 0 <= i < fields.len() ==> printable((#[trigger] fields[i]).1),
    ensures
        printable(object_text(fields)),
{
    let items = fields_text(fields);
    assert forall|i: int| 0 <= i < items.len() implies printable(#[trigger] items[i]) by {
        law_a_string_stays_on_its_line(fields[i].0);
        assert(printable(fields[i].1));
        assert(items[i] == field_text(fields[i]));
    }
    lemma_listed_printable(items);
}

/// The value of a hexadecimal digit.
pub open spec fn digit_code(c: char) -> int {
    if '0' <= c <= '9' {
        c as int - '0' as int
    } else {
        c as int - 'a' as int + 10
    }
}

/// What an escaped text says: the reading of the escapes from the front.
pub open spec fn unescaped(s: Seq<char>) -> Seq<char>
    decreases s.len(),
{
    if s.len() == 0 {
        seq![]
    } else if s[0] != '\\' {
        seq![s[0]] + unescaped(s.skip(1))
    } else if s.len() >= 2 && s[1] == 'n' {
        seq!['\n'] + unescaped(s.skip(2))
    } else if s.len() >= 2 && s[1] == 'r' {
        seq!['\r'] + unescaped(s.skip(2))
    } else if s.len() >= 2 && s[1] == 't' {
        seq!['\t'] + unescaped(s.skip(2))
    } else if s.len() >= 6 && s[1] == 'u' {
        seq![(digit_code(s[4]) * 16 + digit_code(s[5])) as char] + unescaped(s.skip(6))
    } else if s.len() >= 2 {
        seq![s[1]] + unescaped(s.skip(2))
    } else {
        seq![]
    }
}

proof fn lemma_unescaped_char(c: char, rest: Seq<char>)
    ensures
        unescaped(escaped_char(c) + rest) == seq![c] + unescaped(rest),
{
    let e = escaped_char(c) + rest;
    if (c as u32) < 0x20 && c != '\n' && c != '\r' && c != '\t' {
        assert(e.skip(6) =~= rest);
        assert(digit_code(e[4]) == c as int / 16);
        assert(digit_code(e[5]) == c as int % 16);
    } else if c == '"' || c == '\\' || c == '\n' || c == '\r' || c == '\t' {
        assert(e.skip(2) =~= rest);
    } else {
        assert(e.skip(1) =~= rest);
    }
}

proof fn lemma_unescaped(t: Seq<char>, rest: Seq<char>)
    ensures
        unescaped(escaped(t) + rest) == t + unescaped(rest),
    decreases t.len(),
{
    if t.len() == 0 {
        assert(escaped(t) + rest =~= rest);
        assert(t + unescaped(rest) =~= unescaped(rest));
    } else {
        let c = t.last();
        assert(escaped(t) + rest =~= escaped(t.drop_last()) + (escaped_char(c) + rest));
        lemma_unescaped(t.drop_last(), escaped_char(c) + rest);
        lemma_unescaped_char(c, rest);
        assert(t.drop_last() + (seq![c] + unescaped(rest)) =~= t + unescaped(rest));
    }
}

/// What is written as a string is read back as the same text.
pub proof fn law_a_string_reads_back(t: Seq<char>)
    ensures
        unescaped(escaped(t)) == t,
{
    lemma_unescaped(t, Seq::empty());
    assert(escaped(t) + Seq::<char>::empty() =~= escaped(t));
    assert(t + unescaped(Seq::<char>::empty()) =~= t);
}

proof fn lemma_listed_holds(items: Seq<Seq<char>>, k: int) -> (at: int)
    requires
        0 <= k < items.len(),
    ensures
        text::occurs_at(listed(items), items[k], at),
        k > 0 ==> at > 0 && listed(items)[at - 1] == ',',
        k == 0 ==> at == 0,
        k + 1 < items.len() ==> at + items[k].len() < listed(items).len() && listed(items)[at
            + items[k].len()] == ',',
        k + 1 == items.len() ==> at + items[k].len() == listed(items).len(),
    decreases items.len(),
{
    let all = listed(items);
    if items.len() == 1 {
        assert(all.subrange(0, all.len() as int) =~= all);
        0
    } else if k + 1 == items.len() {
        let at = all.len() - items.last().len();
        assert(all.subrange(at, all.len() as int) =~= items.last());
        at
    } else {
        let w = items.drop_last();
        let before = listed(w);
        let at = lemma_listed_holds(w, k);
        assert(all.subrange(at, at + items[k].len()) =~= before.subrange(at, at + items[k].len()));
        if k + 1 < w.len() {
            assert(all[at + items[k].len()] == before[at + items[k].len()]);
        }
        if at > 0 {
            assert(all[at - 1] == before[at - 1]);
        }
        at
    }
}

/// An object holds each of its fields, the name in quotes, a colon and the value, in their order, with a
/// comma between any two and a brace at each end.
pub proof fn law_an_object_holds_its_fields(fields: Seq<(Seq<char>, Seq<char>)>, k: int)
    requires
        0 <= k < fields.len(),
    ensures
        object_text(fields)[0] == '{' && object_text(fields).last() == '}',
        exists|at: int|
            #[trigger] text::occurs_at(
                object_text(fields),
                quoted(fields[k].0) + seq![':'] + fields[k].1,
                at,
            ) && object_text(fields)[at - 1] == (if k == 0 {
                '{'
            } else {
                ','
            }) && object_text(fields)[at + (quoted(fields[k].0) + seq![':'] + fields[k].1).len()] == (if k
                + 1 == fields.len() {
                '}'
            } else {
                ','
            }),
        object_text(Seq::empty()) == seq!['{', '}'],
{
    let items = fields_text(fields);
    let one = quoted(fields[k].0) + seq![':'] + fields[k].1;
    assert(items[k] == one);
    let l = listed(items);
    let at = lemma_listed_holds(items, k);
    let o = object_text(fields);
    assert(o.subrange(at + 1, at + 1 + one.len()) =~= l.subrange(at, at + one.len()));
    assert(text::occurs_at(o, one, at + 1));
    assert(o[at + 1 - 1] == if at == 0 {
        '{'
    } else {
        l[at - 1]
    });
    assert(o[at + 1 + one.len()] == if at + one.len() == l.len() {
        '}'
    } else {
        l[at + one.len()]
    });
    assert(fields_text(Seq::empty()) =~= Seq::empty());
    assert(object_text(Seq::empty()) =~= seq!['{', '}']);
}

/// A list holds each of its items, in their order, with a comma between any two and a bracket at each end.
pub proof fn law_a_list_holds_its_items(items: Seq<Seq<char>>, k: int)
    requires
        0 <= k < items.len(),
    ensures
        list_text(items)[0] == '[' && list_text(items).last() == ']',
        exists|at: int|
            #[trigger] text::occurs_at(list_text(items), items[k], at) && list_text(items)[at - 1] == (
            if k == 0 {
                '['
            } else {
                ','
            }) && list_text(items)[at + items[k].len()] == (if k + 1 == items.len() {
                ']'
            } else {
                ','
            }),
        list_text(Seq::empty()) == seq!['[', ']'],
{
    let l = listed(items);
    let at = lemma_listed_holds(items, k);
    let o = list_text(items);
    let one = items[k];
    assert(o.subrange(at + 1, at + 1 + one.len()) =~= l.subrange(at, at + one.len()));
    assert(text::occurs_at(o, one, at + 1));
    assert(o[at + 1 - 1] == if at == 0 {
        '['
    } else {
        l[at - 1]
    });
    assert(o[at + 1 + one.len()] == if at + one.len() == l.len() {
        ']'
    } else {
        l[at + one.len()]
    });
    assert(list_text(Seq::empty()) =~= seq!['[', ']']);
}

/// A field of this name and value stands in an object.
pub open spec fn has_field(object: Seq<char>, name: Seq<char>, value: Seq<char>) -> bool {
    text::contains(object, quoted(name) + seq![':'] + value)
}

/// Every field that an object is written from stands in it.
pub proof fn law_a_written_field_is_there(fields: Seq<(Seq<char>, Seq<char>)>, k: int)
    requires
        0 <= k < fields.len(),
    ensures
        has_field(object_text(fields), fields[k].0, fields[k].1),
{
    law_an_object_holds_its_fields(fields, k);
}

} // verus!
