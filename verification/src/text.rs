//! Small operations on text, stated over its characters.

use vstd::prelude::*;

verus! {

/// `String::from` on a `&str`: the new string has the characters of `s`.
pub assume_specification<'a>[ <String as From<&'a str>>::from ](s: &str) -> (r: String)
    ensures
        r@ == s@,
;

/// Whether `text` begins with `prefix`.
pub open spec fn begins_with(text: Seq<char>, prefix: Seq<char>) -> bool {
    prefix.len() <= text.len() && text.take(prefix.len() as int) == prefix
}

/// Whether `c` has the Unicode property `White_Space`.
pub open spec fn is_white_space(c: char) -> bool {
    let u = c as u32;
    ||| 0x09 <= u <= 0x0D
    ||| u == 0x20
    ||| u == 0x85
    ||| u == 0xA0
    ||| u == 0x1680
    ||| 0x2000 <= u <= 0x200A
    ||| u == 0x2028
    ||| u == 0x2029
    ||| u == 0x202F
    ||| u == 0x205F
    ||| u == 0x3000
}

/// `text` without the white space at its start.
pub open spec fn trimmed_start(text: Seq<char>) -> Seq<char>
    decreases text.len(),
{
    if text.len() > 0 && is_white_space(text.first()) {
        trimmed_start(text.drop_first())
    } else {
        text
    }
}

/// `text` without the white space at its end.
pub open spec fn trimmed_end(text: Seq<char>) -> Seq<char>
    decreases text.len(),
{
    if text.len() > 0 && is_white_space(text.last()) {
        trimmed_end(text.drop_last())
    } else {
        text
    }
}

/// `text` without the white space at its two ends.
pub open spec fn trimmed(text: Seq<char>) -> Seq<char> {
    trimmed_end(trimmed_start(text))
}

/// The character of a decimal digit.
pub open spec fn digit(d: nat) -> char {
    ('0' as u32 + d) as char
}

/// A number in decimal, without leading zeros.
pub open spec fn decimal(n: nat) -> Seq<char>
    decreases n,
{
    if n < 10 {
        seq![digit(n)]
    } else {
        decimal(n / 10).push(digit(n % 10))
    }
}

/// Whether a character is white space.
pub fn white_space(c: char) -> (r: bool)
    ensures
        r == is_white_space(c),
{
    let u: u32 = c as u32;
    (0x09 <= u && u <= 0x0D) || u == 0x20 || u == 0x85 || u == 0xA0 || u == 0x1680 || (0x2000 <= u
        && u <= 0x200A) || u == 0x2028 || u == 0x2029 || u == 0x202F || u == 0x205F || u == 0x3000
}

/// Whether `text` begins with `prefix`.
pub fn starts_with(text: &str, prefix: &str) -> (r: bool)
    ensures
        r == begins_with(text@, prefix@),
{
    let n: usize = prefix.unicode_len();
    if text.unicode_len() < n {
        return false;
    }
    let mut i: usize = 0;
    while i < n
        invariant
            i <= n,
            n == prefix@.len(),
            n <= text@.len(),
            text@.take(i as int) == prefix@.take(i as int),
        decreases n - i,
    {
        if text.get_char(i) != prefix.get_char(i) {
            assert(text@.take(n as int)[i as int] == text@[i as int]);
            return false;
        }
        assert(text@.take(i + 1) =~= text@.take(i as int).push(text@[i as int]));
        assert(prefix@.take(i + 1) =~= prefix@.take(i as int).push(prefix@[i as int]));
        i = i + 1;
    }
    assert(prefix@.take(n as int) =~= prefix@);
    true
}

/// Whether two texts have the same characters.
pub fn same_text(a: &str, b: &str) -> (r: bool)
    ensures
        r == (a@ == b@),
{
    if a.unicode_len() != b.unicode_len() {
        return false;
    }
    assert(a@.take(b@.len() as int) =~= a@);
    starts_with(a, b)
}

/// Whether `text` ends with a space.
pub fn ends_with_space(text: &str) -> (r: bool)
    ensures
        r == (text@.len() > 0 && text@.last() == ' '),
{
    let n: usize = text.unicode_len();
    n > 0 && text.get_char(n - 1) == ' '
}

/// Finding the white space at the start one character at a time.
proof fn lemma_trimmed_start_step(text: Seq<char>, i: int)
    requires
        0 <= i < text.len(),
        is_white_space(text[i]),
    ensures
        trimmed_start(text.skip(i)) == trimmed_start(text.skip(i + 1)),
{
    assert(text.skip(i).first() == text[i]);
    assert(text.skip(i).drop_first() =~= text.skip(i + 1));
}

/// Removes the white space at the two ends of `text`.
pub fn trim(text: &str) -> (r: &str)
    ensures
        r@ == trimmed(text@),
{
    let n: usize = text.unicode_len();
    let mut from: usize = 0;
    assert(text@.skip(0) =~= text@);
    while from < n && white_space(text.get_char(from))
        invariant
            from <= n,
            n == text@.len(),
            trimmed_start(text@.skip(from as int)) == trimmed_start(text@),
        decreases n - from,
    {
        proof {
            lemma_trimmed_start_step(text@, from as int);
        }
        from = from + 1;
    }
    let ghost start = text@.skip(from as int);
    assert(trimmed_start(text@) == start) by {
        if from < n {
            assert(start.first() == text@[from as int]);
        }
    }
    let mut to: usize = n;
    assert(text@.subrange(from as int, n as int) =~= start);
    while to > from && white_space(text.get_char(to - 1))
        invariant
            from <= to <= n,
            n == text@.len(),
            trimmed_end(text@.subrange(from as int, to as int)) == trimmed_end(start),
        decreases to,
    {
        proof {
            let s = text@.subrange(from as int, to as int);
            assert(s.last() == text@[to - 1]);
            assert(s.drop_last() =~= text@.subrange(from as int, to - 1));
        }
        to = to - 1;
    }
    proof {
        let s = text@.subrange(from as int, to as int);
        if from < to {
            assert(s.last() == text@[to - 1]);
        }
    }
    text.substring_char(from, to)
}

/// Trimming takes white space from the two ends and nothing else: what is left
/// is an unbroken part of the text, all around it is white space, and it
/// neither begins nor ends with white space.
pub proof fn lemma_trimmed(text: Seq<char>) -> (bounds: (int, int))
    ensures
        0 <= bounds.0 <= bounds.1 <= text.len(),
        trimmed(text) == text.subrange(bounds.0, bounds.1),
        forall|k: int| 0 <= k < bounds.0 ==> is_white_space(#[trigger] text[k]),
        forall|k: int| bounds.1 <= k < text.len() ==> is_white_space(#[trigger] text[k]),
        trimmed(text).len() > 0 ==> !is_white_space(trimmed(text).first()) && !is_white_space(
            trimmed(text).last(),
        ),
{
    let i = lemma_trimmed_start(text);
    let start = trimmed_start(text);
    let j = lemma_trimmed_end(start);
    assert(start.subrange(0, j) =~= text.subrange(i, i + j));
    if trimmed(text).len() > 0 {
        assert(trimmed(text).first() == start.first());
    }
    assert forall|k: int| i + j <= k < text.len() implies is_white_space(#[trigger] text[k]) by {
        assert(start[k - i] == text[k]);
    }
    (i, i + j)
}

/// Trimming what is trimmed changes nothing.
pub proof fn lemma_trimmed_twice(text: Seq<char>)
    ensures
        trimmed(trimmed(text)) == trimmed(text),
{
    let _ = lemma_trimmed(text);
    assert(trimmed_start(trimmed(text)) == trimmed(text));
    assert(trimmed_end(trimmed(text)) == trimmed(text));
}

/// Where the text without leading white space begins.
proof fn lemma_trimmed_start(text: Seq<char>) -> (i: int)
    ensures
        0 <= i <= text.len(),
        trimmed_start(text) == text.subrange(i, text.len() as int),
        forall|k: int| 0 <= k < i ==> is_white_space(#[trigger] text[k]),
        trimmed_start(text).len() > 0 ==> !is_white_space(trimmed_start(text).first()),
    decreases text.len(),
{
    if text.len() > 0 && is_white_space(text.first()) {
        let rest = text.drop_first();
        let i = lemma_trimmed_start(rest);
        assert(rest.subrange(i, text.len() - 1) =~= text.subrange(i + 1, text.len() as int));
        assert forall|k: int| 0 <= k < i + 1 implies is_white_space(#[trigger] text[k]) by {
            if k > 0 {
                assert(rest[k - 1] == text[k]);
            }
        }
        i + 1
    } else {
        assert(text =~= text.subrange(0, text.len() as int));
        0
    }
}

/// Where the text without trailing white space ends.
proof fn lemma_trimmed_end(text: Seq<char>) -> (j: int)
    ensures
        0 <= j <= text.len(),
        trimmed_end(text) == text.subrange(0, j),
        forall|k: int| j <= k < text.len() ==> is_white_space(#[trigger] text[k]),
        trimmed_end(text).len() > 0 ==> !is_white_space(trimmed_end(text).last()),
    decreases text.len(),
{
    if text.len() > 0 && is_white_space(text.last()) {
        let rest = text.drop_last();
        let j = lemma_trimmed_end(rest);
        assert(rest.subrange(0, j) =~= text.subrange(0, j));
        assert forall|k: int| j <= k < text.len() implies is_white_space(#[trigger] text[k]) by {
            if k < text.len() - 1 {
                assert(rest[k] == text[k]);
            }
        }
        j
    } else {
        assert(text =~= text.subrange(0, text.len() as int));
        text.len() as int
    }
}

/// The text of one decimal digit.
fn digit_text(d: u32) -> (r: &'static str)
    requires
        d < 10,
    ensures
        r@ == seq![digit(d as nat)],
{
    proof {
        reveal_strlit("0");
        reveal_strlit("1");
        reveal_strlit("2");
        reveal_strlit("3");
        reveal_strlit("4");
        reveal_strlit("5");
        reveal_strlit("6");
        reveal_strlit("7");
        reveal_strlit("8");
        reveal_strlit("9");
    }
    let r: &'static str = match d {
        0 => "0",
        1 => "1",
        2 => "2",
        3 => "3",
        4 => "4",
        5 => "5",
        6 => "6",
        7 => "7",
        8 => "8",
        _ => "9",
    };
    assert(r@ =~= seq![digit(d as nat)]);
    r
}

/// Writes a number in decimal.
pub fn decimal_text(n: u32) -> (r: String)
    ensures
        r@ == decimal(n as nat),
    decreases n,
{
    if n < 10 {
        digit_text(n).to_owned()
    } else {
        let mut r: String = decimal_text(n / 10);
        r.append(digit_text(n % 10));
        assert(r@ =~= decimal((n / 10) as nat).push(digit((n % 10) as nat)));
        r
    }
}

/// A text begins with a prefix if and only if it is that prefix with something
/// behind it.
pub proof fn lemma_begins_with(text: Seq<char>, prefix: Seq<char>, rest: Seq<char>)
    ensures
        begins_with(prefix + rest, prefix),
        begins_with(text, prefix) ==> text == prefix + text.skip(prefix.len() as int),
        begins_with(text, prefix) ==> prefix.len() <= text.len(),
{
    assert((prefix + rest).take(prefix.len() as int) =~= prefix);
    if begins_with(text, prefix) {
        assert(text =~= text.take(prefix.len() as int) + text.skip(prefix.len() as int));
    }
}

/// The white space characters are the tab, the line feed, the vertical tab, the
/// form feed, the carriage return, the space, the next line, the no-break space,
/// the Ogham space mark, the eleven spaces of given width, the line and the
/// paragraph separator, the narrow no-break space, the mathematical space and the
/// ideographic space; there are no others.
pub proof fn lemma_white_space(c: char)
    ensures
        is_white_space(c) <==> seq![
            0x9u32,
            0xA,
            0xB,
            0xC,
            0xD,
            0x20,
            0x85,
            0xA0,
            0x1680,
            0x2000,
            0x2001,
            0x2002,
            0x2003,
            0x2004,
            0x2005,
            0x2006,
            0x2007,
            0x2008,
            0x2009,
            0x200A,
            0x2028,
            0x2029,
            0x202F,
            0x205F,
            0x3000,
        ].contains(c as u32),
{
    let all = seq![
        0x9u32,
        0xA,
        0xB,
        0xC,
        0xD,
        0x20,
        0x85,
        0xA0,
        0x1680,
        0x2000,
        0x2001,
        0x2002,
        0x2003,
        0x2004,
        0x2005,
        0x2006,
        0x2007,
        0x2008,
        0x2009,
        0x200A,
        0x2028,
        0x2029,
        0x202F,
        0x205F,
        0x3000,
    ];
    let u = c as u32;
    if is_white_space(c) {
        if u <= 0xD {
            assert(all[u - 0x9] == u);
        } else if u == 0x20 {
            assert(all[5] == u);
        } else if u == 0x85 {
            assert(all[6] == u);
        } else if u == 0xA0 {
            assert(all[7] == u);
        } else if u == 0x1680 {
            assert(all[8] == u);
        } else if u <= 0x200A {
            assert(all[9 + (u - 0x2000)] == u);
        } else if u == 0x2028 {
            assert(all[20] == u);
        } else if u == 0x2029 {
            assert(all[21] == u);
        } else if u == 0x202F {
            assert(all[22] == u);
        } else if u == 0x205F {
            assert(all[23] == u);
        } else {
            assert(all[24] == u);
        }
    }
}

/// Text between white space is what trimming gives, wherever it neither begins nor
/// ends with white space; and text of white space alone is trimmed to nothing.
pub proof fn lemma_trimmed_between(before: Seq<char>, inner: Seq<char>, after: Seq<char>)
    requires
        forall|k: int| 0 <= k < before.len() ==> is_white_space(#[trigger] before[k]),
        forall|k: int| 0 <= k < after.len() ==> is_white_space(#[trigger] after[k]),
        inner.len() > 0 ==> !is_white_space(inner.first()) && !is_white_space(inner.last()),
    ensures
        trimmed(before + inner + after) == inner,
{
    let text = before + inner + after;
    let bounds = lemma_trimmed(text);
    let found = trimmed(text);
    let from = before.len() as int;
    let to = from + inner.len();
    if inner.len() == 0 {
        if found.len() > 0 {
            assert(found.first() == text[bounds.0]);
        }
        assert(found =~= inner);
    } else {
        assert(text[from] == inner.first() && text[to - 1] == inner.last());
        assert(bounds.0 <= from && to <= bounds.1);
        assert(found.first() == text[bounds.0] && found.last() == text[bounds.1 - 1]);
        if bounds.0 < from {
            assert(is_white_space(before[bounds.0]));
        }
        if to < bounds.1 {
            assert(is_white_space(after[bounds.1 - 1 - to]));
        }
        assert(text.subrange(from, to) =~= inner);
    }
}

/// Numbers in decimal: one more digit behind a number makes it ten times as great
/// and adds the digit; a number below ten is one digit.
pub proof fn lemma_decimal(n: nat, d: nat)
    requires
        d < 10,
    ensures
        decimal(d) == seq![(0x30 + d) as char],
        n > 0 ==> decimal(10 * n + d) == decimal(n).push((0x30 + d) as char),
{
    assert('0' as u32 == 0x30);
    assert((10 * n + d) / 10 == n && (10 * n + d) % 10 == d);
}

} // verus!
