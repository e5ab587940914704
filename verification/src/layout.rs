//! Laying out numbers and columns.

use vstd::prelude::*;
use vstd::string::*;

use crate::text;

verus! {

/// `n` spaces, or none when `n` is negative.
pub open spec fn spaces(n: int) -> Seq<char> {
    Seq::new(
        if n < 0 {
            0
        } else {
            n as nat
        },
        |i: int| ' ',
    )
}

/// The text in a column of `width` characters, at its left edge.
pub open spec fn left(s: Seq<char>, width: int) -> Seq<char> {
    s + spaces(width - s.len())
}

/// The text in a column of `width` characters, at its right edge.
pub open spec fn right(s: Seq<char>, width: int) -> Seq<char> {
    spaces(width - s.len()) + s
}

fn push_spaces(out: &mut String, n: usize)
    ensures
        final(out)@ == old(out)@ + spaces(n as int),
{
    let ghost before = out@;
    let mut i: usize = 0;
    assert(out@ =~= before + spaces(0));
    while i < n
        invariant
            i <= n,
            out@ == before + spaces(i as int),
        decreases n - i,
    {
        out.push(' ');
        i += 1;
        assert(out@ =~= before + spaces(i as int));
    }
}

fn missing(s: &str, width: usize) -> (r: usize)
    ensures
        spaces(r as int) == spaces(width - s@.len()),
{
    let have: usize = text::chars_of(s).len();
    if have < width {
        width - have
    } else {
        assert(spaces(0) =~= spaces(width - have));
        0
    }
}

pub fn at_left(s: &str, width: usize) -> (r: String)
    ensures
        r@ == left(s@, width as int),
{
    let mut out: String = s.to_owned();
    push_spaces(&mut out, missing(s, width));
    out
}

pub fn at_right(s: &str, width: usize) -> (r: String)
    ensures
        r@ == right(s@, width as int),
{
    let mut out: String = String::new();
    push_spaces(&mut out, missing(s, width));
    assert(out@ =~= spaces(width - s@.len()));
    out.append(s);
    out
}

/// The first `n` characters of a text, or all of it.
pub open spec fn first_chars(s: Seq<char>, n: int) -> Seq<char> {
    if s.len() <= n {
        s
    } else {
        s.take(n)
    }
}

pub fn clipped(s: &str, n: usize) -> (r: String)
    ensures
        r@ == first_chars(s@, n as int),
{
    let chars: Vec<char> = text::chars_of(s);
    if chars.len() <= n {
        s.to_owned()
    } else {
        text::string_of(vstd::slice::slice_subrange(&chars, 0, n))
    }
}

// ---- numbers --------------------------------------------------------------------------------

/// Digits in groups of three from the right, with a comma between groups.
pub open spec fn grouped(digits: Seq<char>) -> Seq<char>
    decreases digits.len(),
{
    if digits.len() <= 3 {
        digits
    } else {
        grouped(digits.take(digits.len() - 3)) + seq![','] + digits.skip(digits.len() - 3)
    }
}

/// The first `i` of `digits`, with a comma before each that is followed by a multiple of three.
pub open spec fn grouped_upto(digits: Seq<char>, i: nat) -> Seq<char>
    decreases i,
{
    if i == 0 {
        seq![]
    } else {
        let before = grouped_upto(digits, (i - 1) as nat);
        (if i > 1 && (digits.len() - (i - 1)) % 3 == 0 {
            before.push(',')
        } else {
            before
        }).push(digits[i - 1])
    }
}

proof fn lemma_grouped_shorter(digits: Seq<char>, i: nat)
    requires
        i + 3 <= digits.len(),
    ensures
        grouped_upto(digits, i) == grouped_upto(digits.take(digits.len() - 3), i),
    decreases i,
{
    if i > 0 {
        lemma_grouped_shorter(digits, (i - 1) as nat);
    }
}

proof fn lemma_grouped(digits: Seq<char>)
    ensures
        grouped_upto(digits, digits.len()) == grouped(digits),
    decreases digits.len(),
{
    let n = digits.len();
    reveal_with_fuel(grouped_upto, 4);
    if n <= 3 {
        assert(grouped_upto(digits, n) =~= digits);
    } else {
        let short = digits.take(n - 3);
        lemma_grouped_shorter(digits, (n - 3) as nat);
        lemma_grouped(short);
        assert(grouped_upto(digits, (n - 3) as nat) == grouped(short));
        assert(grouped_upto(digits, n) =~= grouped(short) + seq![','] + digits.skip(n - 3));
    }
}

/// Exact bytes, grouped: the digits of a number in threes from the right, with commas between.
pub open spec fn commas(n: nat) -> Seq<char> {
    grouped(text::decimal(n))
}

pub fn with_commas(n: u64) -> (r: String)
    ensures
        r@ == commas(n as nat),
{
    let digits: Vec<char> = text::digits_of(n);
    let mut out: String = String::new();
    let mut i: usize = 0;
    let len: usize = digits.len();
    while i < len
        invariant
            i <= len == digits@.len(),
            out@ == grouped_upto(digits@, i as nat),
        decreases len - i,
    {
        if i > 0 && (len - i) % 3 == 0 {
            out.push(',');
        }
        out.push(digits[i]);
        i += 1;
    }
    proof {
        lemma_grouped(digits@);
    }
    out
}

/// A text without its commas.
pub open spec fn without_commas(s: Seq<char>) -> Seq<char>
    decreases s.len(),
{
    if s.len() == 0 {
        seq![]
    } else if s.last() == ',' {
        without_commas(s.drop_last())
    } else {
        without_commas(s.drop_last()).push(s.last())
    }
}

proof fn lemma_without_commas_append(a: Seq<char>, b: Seq<char>)
    ensures
        without_commas(a + b) == without_commas(a) + without_commas(b),
    decreases b.len(),
{
    if b.len() == 0 {
        assert(a + b =~= a);
        assert(without_commas(a) + without_commas(b) =~= without_commas(a));
    } else {
        assert((a + b).drop_last() =~= a + b.drop_last());
        lemma_without_commas_append(a, b.drop_last());
        assert(without_commas(a + b) =~= without_commas(a) + without_commas(b));
    }
}

proof fn lemma_no_commas(s: Seq<char>)
    requires
        forall|i: int| 0 <= i < s.len() ==> #[trigger] s[i] != ',',
    ensures
        without_commas(s) == s,
    decreases s.len(),
{
    if s.len() > 0 {
        lemma_no_commas(s.drop_last());
        assert(s.drop_last().push(s.last()) =~= s);
    }
}

proof fn lemma_ungrouped(digits: Seq<char>)
    requires
        forall|i: int| 0 <= i < digits.len() ==> #[trigger] digits[i] != ',',
    ensures
        without_commas(grouped(digits)) == digits,
    decreases digits.len(),
{
    let n = digits.len();
    if n <= 3 {
        lemma_no_commas(digits);
    } else {
        let short = digits.take(n - 3);
        let end = digits.skip(n - 3);
        lemma_ungrouped(short);
        lemma_no_commas(end);
        lemma_without_commas_append(grouped(short) + seq![','], end);
        lemma_without_commas_append(grouped(short), seq![',']);
        assert(seq![','].drop_last() =~= Seq::<char>::empty());
        reveal_with_fuel(without_commas, 2);
        assert(without_commas(seq![',']) =~= Seq::<char>::empty());
        assert(short + end =~= digits);
    }
}

/// The commas are all that is added: without them the digits of the number are left.
pub proof fn law_commas_only_group(n: nat)
    ensures
        without_commas(commas(n)) == text::decimal(n),
{
    text::lemma_decimal(n);
    let d = text::decimal(n);
    assert forall|i: int| 0 <= i < d.len() implies #[trigger] d[i] != ',' by {
        assert(text::is_digit(d[i]));
    }
    lemma_ungrouped(d);
}

/// A number in at least two digits.
pub open spec fn two(n: nat) -> Seq<char> {
    if n < 10 {
        seq!['0'] + text::decimal(n)
    } else {
        text::decimal(n)
    }
}

pub fn two_digits(n: u64) -> (r: String)
    ensures
        r@ == two(n as nat),
{
    if n < 10 {
        let mut out: String = String::new();
        out.push('0');
        assert(out@ =~= seq!['0']);
        out.append(&text::number_text(n));
        out
    } else {
        text::number_text(n)
    }
}

/// A text in a column is as wide as the column, or as itself when it is wider; blanks fill the rest, after
/// it on the left side and before it on the right side.
pub proof fn law_a_column_is_filled_with_blanks(s: Seq<char>, width: int, i: int)
    requires
        width >= 0,
    ensures
        left(s, width).len() == if s.len() < width {
            width
        } else {
            s.len() as int
        },
        right(s, width).len() == left(s, width).len(),
        left(s, width).take(s.len() as int) == s,
        right(s, width).skip(right(s, width).len() - s.len()) == s,
        s.len() <= i < left(s, width).len() ==> left(s, width)[i] == ' ',
        0 <= i < right(s, width).len() - s.len() ==> right(s, width)[i] == ' ',
{
    assert(left(s, width).take(s.len() as int) =~= s);
    assert(right(s, width).skip(right(s, width).len() - s.len()) =~= s);
}

/// A text that is too long is cut, and any other is left as it is.
pub proof fn law_a_long_text_is_cut(s: Seq<char>, n: int)
    requires
        n >= 0,
    ensures
        s.len() <= n ==> first_chars(s, n) == s,
        s.len() > n ==> first_chars(s, n).len() == n && s.take(n) == first_chars(s, n),
{
}

/// A comma stands before every third digit, counted from the end, and nowhere else.
pub proof fn law_commas_stand_by_threes(n: nat, i: int)
    requires
        0 <= i < commas(n).len(),
    ensures
        commas(n)[i] == ',' <==> (commas(n).len() - i) % 4 == 0,
        commas(n)[0] != ',',
{
    text::lemma_decimal(n);
    lemma_threes(text::decimal(n), i);
    lemma_threes(text::decimal(n), 0);
}

proof fn lemma_threes(d: Seq<char>, i: int)
    requires
        d.len() > 0,
        text::all_digits(d),
    ensures
        grouped(d).len() > 0,
        0 <= i < grouped(d).len() ==> (grouped(d)[i] == ',' <==> (grouped(d).len() - i) % 4 == 0),
        grouped(d)[0] == d[0],
    decreases d.len(),
{
    assert(text::is_digit(d[0]));
    if d.len() > 3 {
        let front = d.take(d.len() - 3);
        assert forall|k: int| 0 <= k < front.len() implies text::is_digit(#[trigger] front[k]) by {
            assert(front[k] == d[k]);
        }
        lemma_threes(front, i);
        let g = grouped(front);
        assert(grouped(d).len() == g.len() + 4);
        if 0 <= i < g.len() {
            assert(grouped(d)[i] == g[i]);
        } else if g.len() < i < grouped(d).len() {
            assert(text::is_digit(d[d.len() - 3 + (i - g.len() - 1)]));
            assert(grouped(d)[i] == d[d.len() - 3 + (i - g.len() - 1)]);
        }
    } else if 0 <= i < d.len() {
        assert(text::is_digit(d[i]));
    }
}

/// Two digits at least: a number below ten has a zero before it.
pub proof fn law_two_digits_at_least(n: nat)
    ensures
        two(n).len() >= 2,
        n < 10 ==> two(n) == seq!['0'] + text::decimal(n),
        n >= 10 ==> two(n) == text::decimal(n),
{
    text::lemma_decimal(n);
    if n >= 10 {
        text::lemma_decimal(n / 10);
    }
}

} // verus!
