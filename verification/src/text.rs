//! Characters and words: white space, lowercase, and where words begin and end.

use vstd::prelude::*;

verus! {

/// Whether `c` is white space: a character with the Unicode property `White_Space`.
pub open spec fn is_whitespace(c: char) -> bool {
    ||| c == ' '
    ||| '\u{9}' <= c <= '\u{d}'
    ||| c == '\u{85}'
    ||| c == '\u{a0}'
    ||| c == '\u{1680}'
    ||| '\u{2000}' <= c <= '\u{200a}'
    ||| c == '\u{2028}'
    ||| c == '\u{2029}'
    ||| c == '\u{202f}'
    ||| c == '\u{205f}'
    ||| c == '\u{3000}'
}

/// Whether every character of `s` is an ASCII character.
pub open spec fn is_ascii_text(s: Seq<char>) -> bool {
    forall|i: int| 0 <= i < s.len() ==> (#[trigger] s[i]) <= '\u{7f}'
}

/// The lowercase letter of an ASCII capital letter; any other character itself.
pub open spec fn ascii_lowercase_char(c: char) -> char {
    if 'A' <= c <= 'Z' {
        ((c as int) + 32) as char
    } else {
        c
    }
}

/// An ASCII text with each capital letter replaced by its lowercase letter.
pub open spec fn ascii_lowercase(s: Seq<char>) -> Seq<char> {
    Seq::new(s.len(), |i: int| ascii_lowercase_char(s[i]))
}

/// What `str::to_lowercase` returns for a text that is not all ASCII.
pub uninterp spec fn unicode_lowercase(s: Seq<char>) -> Seq<char>;

/// The lowercase form of a text. In an ASCII text each capital letter is replaced
/// by its lowercase letter and nothing else changes; any other text is folded by
/// the rules of Unicode.
pub open spec fn lowercase(s: Seq<char>) -> Seq<char> {
    if is_ascii_text(s) {
        ascii_lowercase(s)
    } else {
        unicode_lowercase(s)
    }
}

/// `char::is_whitespace` of std: true exactly for the characters with the Unicode
/// property `White_Space`, which [`is_whitespace`] lists.
#[verifier::external_body]
pub(crate) fn char_is_whitespace(c: char) -> (b: bool)
    ensures
        b == is_whitespace(c),
{
    c.is_whitespace()
}

/// `str::to_lowercase` of std: the lowercase equivalent of `text`. For ASCII text std
/// maps the letters `A` to `Z` to `a` to `z` and leaves every other character as it
/// is; what it returns for other text is only given a name.
#[verifier::external_body]
pub(crate) fn lowercase_text(text: &str) -> (lowered: String)
    ensures
        is_ascii_text(text@) ==> lowered@ == ascii_lowercase(text@),
        !is_ascii_text(text@) ==> lowered@ == unicode_lowercase(text@),
{
    text.to_lowercase()
}

/// `String::from_iter` of std, on the characters of `chars` from `from` up to `to`:
/// the string made of these characters, in order.
#[verifier::external_body]
pub(crate) fn string_of(chars: &Vec<char>, from: usize, to: usize) -> (text: String)
    requires
        from <= to <= chars.len(),
    ensures
        text@ == chars@.subrange(from as int, to as int),
{
    chars[from..to].iter().collect()
}

/// The characters of `s`, in order.
pub fn chars_of(s: &str) -> (v: Vec<char>)
    ensures
        v@ == s@,
{
    let mut v: Vec<char> = Vec::new();
    for c in it: s.chars()
        invariant
            v@ == it.seq().take(it.index() as int),
            it.seq() == s@,
    {
        v.push(c);
    }
    v
}

/// The first position from `from` on that holds no white space; the length of `s`
/// if there is none.
pub open spec fn skip_space(s: Seq<char>, from: int) -> int
    decreases s.len() - from,
{
    if 0 <= from < s.len() && is_whitespace(s[from]) {
        skip_space(s, from + 1)
    } else {
        from
    }
}

/// The first position from `from` on that holds white space; the length of `s` if
/// there is none.
pub open spec fn skip_word(s: Seq<char>, from: int) -> int
    decreases s.len() - from,
{
    if 0 <= from < s.len() && !is_whitespace(s[from]) {
        skip_word(s, from + 1)
    } else {
        from
    }
}

/// The end of the text that is left of the first `up_to` characters of `s` when the
/// white space at their end is taken off.
pub open spec fn trim_end(s: Seq<char>, up_to: int) -> int
    decreases up_to,
{
    if 0 < up_to <= s.len() && is_whitespace(s[up_to - 1]) {
        trim_end(s, up_to - 1)
    } else {
        up_to
    }
}

/// `s` without the white space at its start and at its end.
pub open spec fn trim(s: Seq<char>) -> Seq<char> {
    let start = skip_space(s, 0);
    let end = trim_end(s, s.len() as int);
    if start < end {
        s.subrange(start, end)
    } else {
        Seq::empty()
    }
}

/// Where [`skip_space`] and [`skip_word`] end up.
pub proof fn lemma_skip_bounds(s: Seq<char>, from: int)
    requires
        0 <= from <= s.len(),
    ensures
        from <= skip_space(s, from) <= s.len(),
        from <= skip_word(s, from) <= s.len(),
        skip_space(s, from) < s.len() ==> !is_whitespace(s[skip_space(s, from)]),
        skip_word(s, from) < s.len() ==> is_whitespace(s[skip_word(s, from)]),
        forall|i: int| from <= i < skip_space(s, from) ==> is_whitespace(#[trigger] s[i]),
        forall|i: int| from <= i < skip_word(s, from) ==> !is_whitespace(#[trigger] s[i]),
    decreases s.len() - from,
{
    if from < s.len() {
        lemma_skip_bounds(s, from + 1);
    }
}

/// Where [`trim_end`] ends up.
pub proof fn lemma_trim_end_bounds(s: Seq<char>, up_to: int)
    requires
        0 <= up_to <= s.len(),
    ensures
        0 <= trim_end(s, up_to) <= up_to,
        trim_end(s, up_to) > 0 ==> !is_whitespace(s[trim_end(s, up_to) - 1]),
        forall|i: int| trim_end(s, up_to) <= i < up_to ==> is_whitespace(#[trigger] s[i]),
    decreases up_to,
{
    if up_to > 0 {
        lemma_trim_end_bounds(s, up_to - 1);
    }
}

/// In the text that `chars` holds from `base` up to `to`: the first position at or
/// after `from` that holds no white space; `to` if there is none.
pub fn skip_space_in(chars: &Vec<char>, base: usize, from: usize, to: usize) -> (at: usize)
    requires
        base <= from <= to <= chars.len(),
    ensures
        from <= at <= to,
        at - base == skip_space(chars@.subrange(base as int, to as int), from - base),
{
    let ghost s = chars@.subrange(base as int, to as int);
    let mut at = from;
    while at < to && char_is_whitespace(chars[at])
        invariant
            base <= from <= at <= to <= chars.len(),
            s == chars@.subrange(base as int, to as int),
            skip_space(s, from - base) == skip_space(s, at - base),
        decreases to - at,
    {
        at = at + 1;
    }
    at
}

/// In the text that `chars` holds from `base` up to `to`: the first position at or
/// after `from` that holds white space; `to` if there is none.
pub fn skip_word_in(chars: &Vec<char>, base: usize, from: usize, to: usize) -> (at: usize)
    requires
        base <= from <= to <= chars.len(),
    ensures
        from <= at <= to,
        at - base == skip_word(chars@.subrange(base as int, to as int), from - base),
{
    let ghost s = chars@.subrange(base as int, to as int);
    let mut at = from;
    while at < to && !char_is_whitespace(chars[at])
        invariant
            base <= from <= at <= to <= chars.len(),
            s == chars@.subrange(base as int, to as int),
            skip_word(s, from - base) == skip_word(s, at - base),
        decreases to - at,
    {
        at = at + 1;
    }
    at
}

/// The end of what is left of the characters from `from` up to `to` when the white
/// space at their end is taken off.
pub fn trim_end_in(chars: &Vec<char>, from: usize, to: usize) -> (at: usize)
    requires
        from <= to <= chars.len(),
    ensures
        from <= at <= to,
        at - from == trim_end(chars@.subrange(from as int, to as int), to - from),
{
    let ghost s = chars@.subrange(from as int, to as int);
    let mut at = to;
    while at > from && char_is_whitespace(chars[at - 1])
        invariant
            from <= at <= to <= chars.len(),
            s == chars@.subrange(from as int, to as int),
            trim_end(s, to - from) == trim_end(s, at - from),
        decreases at,
    {
        at = at - 1;
    }
    at
}

} // verus!
