//! Text as sequences of characters: splitting, trimming, matching, numbers.

use vstd::prelude::*;
use vstd::slice::slice_subrange;

verus! {

/// `String::push` appends one character to the end of the string.
pub assume_specification[ String::push ](text: &mut String, c: char)
    ensures
        final(text)@ == old(text)@.push(c),
;

/// The characters of `text`, in order.
pub fn chars_of(text: &str) -> (chars: Vec<char>)
    ensures
        chars@ == text@,
{
    let mut chars: Vec<char> = Vec::new();
    for c in it: text.chars()
        invariant
            chars@ == it.seq().take(it.index()),
            it.seq() == text@,
    {
        assert(it.seq().take(it.index() + 1) == it.seq().take(it.index()).push(c));
        chars.push(c);
    }
    assert(text@.take(text@.len() as int) == text@);
    chars
}

/// The text made of `chars`.
pub fn text_of(chars: &[char]) -> (text: String)
    ensures
        text@ == chars@,
{
    let mut text = String::new();
    let mut i: usize = 0;
    while i < chars.len()
        invariant
            i <= chars@.len(),
            text@ == chars@.take(i as int),
        decreases chars@.len() - i,
    {
        assert(chars@.take(i + 1) == chars@.take(i as int).push(chars@[i as int]));
        text.push(chars[i]);
        i += 1;
    }
    assert(chars@.take(chars@.len() as int) == chars@);
    text
}

/// Whether `chars` and `text` are the same text.
pub fn is_text(chars: &[char], text: &str) -> (same: bool)
    ensures
        same == (chars@ == text@),
{
    let other = chars_of(text);
    is_same(chars, other.as_slice())
}

/// Whether two runs of characters are the same.
pub fn is_same(left: &[char], right: &[char]) -> (same: bool)
    ensures
        same == (left@ == right@),
{
    if left.len() != right.len() {
        return false;
    }
    let mut i: usize = 0;
    while i < left.len()
        invariant
            i <= left@.len(),
            left@.len() == right@.len(),
            left@.take(i as int) == right@.take(i as int),
        decreases left@.len() - i,
    {
        if left[i] != right[i] {
            return false;
        }
        assert(left@.take(i + 1) == left@.take(i as int).push(left@[i as int]));
        assert(right@.take(i + 1) == right@.take(i as int).push(right@[i as int]));
        i += 1;
    }
    assert(left@.take(i as int) == left@);
    assert(right@.take(i as int) == right@);
    true
}

/// Whether two texts are the same.
pub fn same_text(left: &str, right: &str) -> (same: bool)
    ensures
        same == (left@ == right@),
{
    let chars = chars_of(left);
    is_text(chars.as_slice(), right)
}

/// Whether `chars` begins with `prefix`.
pub fn starts_with(chars: &[char], prefix: &str) -> (found: bool)
    ensures
        found == prefix@.is_prefix_of(chars@),
{
    let head = chars_of(prefix);
    if chars.len() < head.len() {
        return false;
    }
    is_same(slice_subrange(chars, 0, head.len()), head.as_slice())
}

/// Whether `chars` ends with `suffix`.
pub fn ends_with(chars: &[char], suffix: &str) -> (found: bool)
    ensures
        found == suffix@.is_suffix_of(chars@),
{
    let tail = chars_of(suffix);
    if chars.len() < tail.len() {
        return false;
    }
    is_same(slice_subrange(chars, chars.len() - tail.len(), chars.len()), tail.as_slice())
}

/// What follows `prefix`, where `chars` begins with it.
pub fn strip_prefix<'a>(chars: &'a [char], prefix: &str) -> (rest: Option<&'a [char]>)
    ensures
        rest is Some <==> prefix@.is_prefix_of(chars@),
        rest matches Some(tail) ==> tail@ == chars@.skip(prefix@.len() as int),
{
    if starts_with(chars, prefix) {
        let head = chars_of(prefix);
        Some(slice_subrange(chars, head.len(), chars.len()))
    } else {
        None
    }
}

/// An ASCII letter in lower case; any other character as it is.
pub open spec fn ascii_lower(c: char) -> char {
    if 'A' <= c <= 'Z' {
        (c as u32 + 32) as char
    } else {
        c
    }
}

/// Every ASCII letter of `text` in lower case.
pub open spec fn lowered(text: Seq<char>) -> Seq<char> {
    text.map_values(|c: char| ascii_lower(c))
}

fn lower_char(c: char) -> (lower: char)
    ensures
        lower == ascii_lower(c),
{
    if 'A' <= c && c <= 'Z' {
        ((c as u8) + 32) as char
    } else {
        c
    }
}

/// Every ASCII letter of `chars` in lower case.
pub fn to_lower(chars: &[char]) -> (lower: Vec<char>)
    ensures
        lower@ == lowered(chars@),
{
    let mut lower: Vec<char> = Vec::new();
    let mut i: usize = 0;
    while i < chars.len()
        invariant
            i <= chars@.len(),
            lower@ == lowered(chars@.take(i as int)),
        decreases chars@.len() - i,
    {
        lower.push(lower_char(chars[i]));
        assert(lower@ =~= lowered(chars@.take(i + 1)));
        i += 1;
    }
    assert(chars@.take(chars@.len() as int) == chars@);
    lower
}

/// Whether two texts are the same but for the case of ASCII letters.
pub fn same_ignoring_case(chars: &[char], text: &str) -> (same: bool)
    ensures
        same == (lowered(chars@) == lowered(text@)),
{
    let other = chars_of(text);
    is_same(to_lower(chars).as_slice(), to_lower(other.as_slice()).as_slice())
}

/// Whether `part` stands somewhere in `text`.
pub open spec fn has_part(text: Seq<char>, part: Seq<char>) -> bool {
    exists|i: int|
        0 <= i <= text.len() - part.len() && #[trigger] text.subrange(i, i + part.len()) == part
}

/// Whether `part` stands somewhere in `chars`.
pub fn contains_text(chars: &[char], part: &str) -> (found: bool)
    ensures
        found == has_part(chars@, part@),
{
    let wanted = chars_of(part);
    if chars.len() < wanted.len() {
        return false;
    }
    let mut i: usize = 0;
    while i <= chars.len() - wanted.len()
        invariant
            wanted@ == part@,
            wanted@.len() <= chars@.len(),
            i <= chars@.len() - wanted@.len() + 1,
            forall|j: int| 0 <= j < i ==> #[trigger] chars@.subrange(j, j + part@.len()) != part@,
        decreases chars@.len() - wanted@.len() + 1 - i,
    {
        if is_same(slice_subrange(chars, i, i + wanted.len()), wanted.as_slice()) {
            return true;
        }
        if i == chars.len() - wanted.len() {
            return false;
        }
        i += 1;
    }
    false
}

/// The characters with the Unicode property `White_Space`.
pub open spec fn is_space(c: char) -> bool {
    let code = c as u32;
    ||| 0x9 <= code <= 0xd
    ||| code == 0x20
    ||| code == 0x85
    ||| code == 0xa0
    ||| code == 0x1680
    ||| 0x2000 <= code <= 0x200a
    ||| code == 0x2028
    ||| code == 0x2029
    ||| code == 0x202f
    ||| code == 0x205f
    ||| code == 0x3000
}

/// Whether `c` has the Unicode property `White_Space`.
pub fn is_whitespace(c: char) -> (space: bool)
    ensures
        space == is_space(c),
{
    let code: u32 = c as u32;
    (0x9 <= code && code <= 0xd) || code == 0x20 || code == 0x85 || code == 0xa0 || code == 0x1680
        || (0x2000 <= code && code <= 0x200a) || code == 0x2028 || code == 0x2029 || code == 0x202f
        || code == 0x205f || code == 0x3000
}

/// `text` without its leading white space.
pub open spec fn trimmed_start(text: Seq<char>) -> Seq<char>
    decreases text.len(),
{
    if text.len() > 0 && is_space(text[0]) {
        trimmed_start(text.skip(1))
    } else {
        text
    }
}

/// `text` without its trailing white space.
pub open spec fn trimmed_end(text: Seq<char>) -> Seq<char>
    decreases text.len(),
{
    if text.len() > 0 && is_space(text.last()) {
        trimmed_end(text.drop_last())
    } else {
        text
    }
}

/// `text` without its leading and its trailing white space.
pub open spec fn trimmed(text: Seq<char>) -> Seq<char> {
    trimmed_end(trimmed_start(text))
}

/// `text` without the run of `c` at its start.
pub open spec fn without_leading(text: Seq<char>, c: char) -> Seq<char>
    decreases text.len(),
{
    if text.len() > 0 && text[0] == c {
        without_leading(text.skip(1), c)
    } else {
        text
    }
}

/// `text` without the run of `c` at its end.
pub open spec fn without_trailing(text: Seq<char>, c: char) -> Seq<char>
    decreases text.len(),
{
    if text.len() > 0 && text.last() == c {
        without_trailing(text.drop_last(), c)
    } else {
        text
    }
}

/// `chars` without its leading white space.
pub fn trim_start(chars: &[char]) -> (rest: &[char])
    ensures
        rest@ == trimmed_start(chars@),
{
    let mut i: usize = 0;
    assert(chars@.skip(0) == chars@);
    while i < chars.len() && is_whitespace(chars[i])
        invariant
            i <= chars@.len(),
            trimmed_start(chars@.skip(i as int)) == trimmed_start(chars@),
        decreases chars@.len() - i,
    {
        assert(chars@.skip(i as int).skip(1) == chars@.skip(i + 1));
        i += 1;
    }
    slice_subrange(chars, i, chars.len())
}

/// `chars` without its trailing white space.
pub fn trim_end(chars: &[char]) -> (rest: &[char])
    ensures
        rest@ == trimmed_end(chars@),
{
    let mut n: usize = chars.len();
    assert(chars@.take(n as int) == chars@);
    while n > 0 && is_whitespace(chars[n - 1])
        invariant
            n <= chars@.len(),
            trimmed_end(chars@.take(n as int)) == trimmed_end(chars@),
        decreases n,
    {
        assert(chars@.take(n as int).drop_last() == chars@.take(n - 1));
        n -= 1;
    }
    slice_subrange(chars, 0, n)
}

/// `chars` without its leading and its trailing white space.
pub fn trim(chars: &[char]) -> (rest: &[char])
    ensures
        rest@ == trimmed(chars@),
{
    trim_end(trim_start(chars))
}

/// `chars` without the run of `c` at its start.
pub fn trim_leading(chars: &[char], c: char) -> (rest: &[char])
    ensures
        rest@ == without_leading(chars@, c),
{
    let mut i: usize = 0;
    assert(chars@.skip(0) == chars@);
    while i < chars.len() && chars[i] == c
        invariant
            i <= chars@.len(),
            without_leading(chars@.skip(i as int), c) == without_leading(chars@, c),
        decreases chars@.len() - i,
    {
        assert(chars@.skip(i as int).skip(1) == chars@.skip(i + 1));
        i += 1;
    }
    slice_subrange(chars, i, chars.len())
}

/// `chars` without the run of `c` at its end.
pub fn trim_trailing(chars: &[char], c: char) -> (rest: &[char])
    ensures
        rest@ == without_trailing(chars@, c),
{
    let mut n: usize = chars.len();
    assert(chars@.take(n as int) == chars@);
    while n > 0 && chars[n - 1] == c
        invariant
            n <= chars@.len(),
            without_trailing(chars@.take(n as int), c) == without_trailing(chars@, c),
        decreases n,
    {
        assert(chars@.take(n as int).drop_last() == chars@.take(n - 1));
        n -= 1;
    }
    slice_subrange(chars, 0, n)
}

/// The parts of `text` between the occurrences of `sep`: one more than there
/// are occurrences.
pub open spec fn parts(text: Seq<char>, sep: char) -> Seq<Seq<char>>
    decreases text.len(),
{
    if text.len() == 0 {
        seq![Seq::empty()]
    } else {
        let before = parts(text.drop_last(), sep);
        if text.last() == sep {
            before.push(Seq::empty())
        } else {
            before.drop_last().push(before.last().push(text.last()))
        }
    }
}

/// `pieces` with `sep` between each two of them.
pub open spec fn joined(pieces: Seq<Seq<char>>, sep: Seq<char>) -> Seq<char>
    decreases pieces.len(),
{
    if pieces.len() == 0 {
        Seq::empty()
    } else if pieces.len() == 1 {
        pieces[0]
    } else {
        joined(pieces.drop_last(), sep) + sep + pieces.last()
    }
}

/// There is always a part.
pub proof fn lemma_parts_not_empty(text: Seq<char>, sep: char)
    ensures
        parts(text, sep).len() > 0,
    decreases text.len(),
{
    if text.len() > 0 {
        lemma_parts_not_empty(text.drop_last(), sep);
    }
}

/// Splitting loses nothing: the parts, joined by the separator, give the text
/// back, and no part holds the separator.
pub proof fn splitting_keeps_the_text(text: Seq<char>, sep: char)
    ensures
        joined(parts(text, sep), seq![sep]) == text,
        forall|i: int| 0 <= i < parts(text, sep).len() ==> !#[trigger] parts(text, sep)[i].contains(sep),
    decreases text.len(),
{
    if text.len() > 0 {
        let before = parts(text.drop_last(), sep);
        splitting_keeps_the_text(text.drop_last(), sep);
        lemma_parts_not_empty(text.drop_last(), sep);
        let now = parts(text, sep);
        assert(text == text.drop_last().push(text.last()));
        if text.last() == sep {
            assert(now.drop_last() == before);
            assert(joined(now, seq![sep]) =~= text);
        } else {
            let last = before.last().push(text.last());
            assert(now == before.drop_last().push(last));
            assert(now.drop_last() == before.drop_last());
            if before.len() == 1 {
                assert(joined(now, seq![sep]) =~= text);
            } else {
                assert(joined(now, seq![sep]) =~= text);
            }
            assert forall|i: int| 0 <= i < now.len() implies !#[trigger] now[i].contains(sep) by {
                if i == now.len() - 1 {
                    assert(!before[before.len() - 1].contains(sep));
                    assert forall|k: int| 0 <= k < last.len() implies last[k] != sep by {
                        if k < before.last().len() {
                            assert(before.last().contains(before.last()[k]));
                        }
                    }
                } else {
                    assert(now[i] == before[i]);
                }
            }
        }
    }
}

/// The texts of a list.
pub open spec fn texts(list: Seq<String>) -> Seq<Seq<char>> {
    list.map_values(|text: String| text@)
}

/// The views of a list of character runs.
pub open spec fn runs(pieces: Seq<Vec<char>>) -> Seq<Seq<char>> {
    pieces.map_values(|piece: Vec<char>| piece@)
}

/// The parts of `chars` between the occurrences of `sep`.
pub fn split(chars: &[char], sep: char) -> (pieces: Vec<Vec<char>>)
    ensures
        runs(pieces@) == parts(chars@, sep),
        pieces@.len() > 0,
{
    let mut done: Vec<Vec<char>> = Vec::new();
    let mut current: Vec<char> = Vec::new();
    let mut i: usize = 0;
    assert(runs(done@).push(current@) =~= seq![Seq::<char>::empty()]);
    assert(chars@.take(0) == Seq::<char>::empty());
    while i < chars.len()
        invariant
            i <= chars@.len(),
            runs(done@).push(current@) == parts(chars@.take(i as int), sep),
        decreases chars@.len() - i,
    {
        let ghost before = runs(done@).push(current@);
        assert(chars@.take(i + 1).drop_last() == chars@.take(i as int));
        if chars[i] == sep {
            done.push(current);
            current = Vec::new();
            assert(runs(done@).push(current@) =~= before.push(Seq::empty()));
        } else {
            current.push(chars[i]);
            assert(before.drop_last() =~= runs(done@));
            assert(runs(done@).push(current@) =~= before.drop_last().push(
                before.last().push(chars@[i as int]),
            ));
        }
        i += 1;
    }
    assert(chars@.take(chars@.len() as int) == chars@);
    let ghost before = runs(done@).push(current@);
    done.push(current);
    assert(runs(done@) =~= before);
    done
}

/// Where `c` stands first in `chars`.
pub fn find(chars: &[char], c: char) -> (found: Option<usize>)
    ensures
        (match found {
            Some(i) => chars@.index_of_first(c) == Some(i as int) && i < chars@.len(),
            None => chars@.index_of_first(c) is None,
        }),
{
    proof {
        chars@.index_of_first_ensures(c);
    }
    let mut i: usize = 0;
    while i < chars.len()
        invariant
            i <= chars@.len(),
            forall|j: int| 0 <= j < i ==> chars@[j] != c,
            (match chars@.index_of_first(c) {
                Some(index) => 0 <= index < chars@.len() && chars@[index] == c && (forall|j: int|
                    0 <= j < index ==> chars@[j] != c),
                None => !chars@.contains(c),
            }),
        decreases chars@.len() - i,
    {
        if chars[i] == c {
            assert(chars@.contains(c));
            return Some(i);
        }
        i += 1;
    }
    None
}

/// Where `c` stands last in `chars`.
pub fn rfind(chars: &[char], c: char) -> (found: Option<usize>)
    ensures
        (match found {
            Some(i) => chars@.index_of_last(c) == Some(i as int) && i < chars@.len(),
            None => chars@.index_of_last(c) is None,
        }),
{
    proof {
        chars@.index_of_last_ensures(c);
    }
    let mut n: usize = chars.len();
    while n > 0
        invariant
            n <= chars@.len(),
            forall|j: int| n <= j < chars@.len() ==> chars@[j] != c,
            (match chars@.index_of_last(c) {
                Some(index) => 0 <= index < chars@.len() && chars@[index] == c && (forall|j: int|
                    index < j < chars@.len() ==> chars@[j] != c),
                None => !chars@.contains(c),
            }),
        decreases n,
    {
        if chars[n - 1] == c {
            assert(chars@.contains(c));
            return Some(n - 1);
        }
        n -= 1;
    }
    None
}

/// Whether two characters are the same letter in either case, or the same
/// character.
pub open spec fn same_letter(a: char, b: char) -> bool {
    ||| a == b
    ||| 'A' <= a <= 'Z' && b as u32 == a as u32 + 32
    ||| 'A' <= b <= 'Z' && a as u32 == b as u32 + 32
}

/// Texts are the same but for the case of their letters where they are as long as
/// each other and have the same letters at the same places.
pub proof fn case_is_ignored_letter_by_letter(a: Seq<char>, b: Seq<char>)
    ensures
        lowered(a) == lowered(b) <==> a.len() == b.len() && forall|i: int|
            0 <= i < a.len() ==> same_letter(#[trigger] a[i], b[i]),
{
    if lowered(a) == lowered(b) {
        assert(lowered(a).len() == a.len() && lowered(b).len() == b.len());
        assert forall|i: int| 0 <= i < a.len() implies same_letter(#[trigger] a[i], b[i]) by {
            assert(lowered(a)[i] == lowered(b)[i]);
            assert(ascii_lower(a[i]) as u32 == ascii_lower(b[i]) as u32);
        }
    }
    if a.len() == b.len() && forall|i: int| 0 <= i < a.len() ==> same_letter(#[trigger] a[i], b[i]) {
        assert forall|i: int| 0 <= i < a.len() implies lowered(a)[i] == lowered(b)[i] by {
            assert(same_letter(a[i], b[i]));
            assert(ascii_lower(a[i]) as u32 == ascii_lower(b[i]) as u32);
        }
        assert(lowered(a) =~= lowered(b));
    }
}

/// Whether two texts are the same but for the case of their letters.
pub open spec fn is_word(text: Seq<char>, word: Seq<char>) -> bool {
    text.len() == word.len() && forall|i: int|
        0 <= i < text.len() ==> same_letter(#[trigger] text[i], word[i])
}

/// The characters that are white space.
pub open spec fn spaces() -> Seq<char> {
    seq![
        '\t', '\n', '\u{b}', '\u{c}', '\r', ' ', '\u{85}', '\u{a0}', '\u{1680}',
        '\u{2000}', '\u{2001}', '\u{2002}', '\u{2003}', '\u{2004}', '\u{2005}', '\u{2006}',
        '\u{2007}', '\u{2008}', '\u{2009}', '\u{200a}', '\u{2028}', '\u{2029}', '\u{202f}',
        '\u{205f}', '\u{3000}',
    ]
}

/// White space is these characters and no others.
pub proof fn white_space_is_listed(c: char)
    ensures
        is_space(c) <==> spaces().contains(c),
{
    let all = spaces();
    if is_space(c) {
        let code = c as u32;
        let at: int = if code <= 0xd {
            code - 9
        } else if code == 0x20 {
            5
        } else if code == 0x85 {
            6
        } else if code == 0xa0 {
            7
        } else if code == 0x1680 {
            8
        } else if code <= 0x200a {
            9 + (code - 0x2000)
        } else if code == 0x2028 {
            20
        } else if code == 0x2029 {
            21
        } else if code == 0x202f {
            22
        } else if code == 0x205f {
            23
        } else {
            24
        };
        assert(all[at] as u32 == code);
        assert(all[at] == c);
    }
}

/// Whether every character of a text is white space.
pub open spec fn is_blank(text: Seq<char>) -> bool {
    forall|i: int| 0 <= i < text.len() ==> is_space(#[trigger] text[i])
}

/// Whether every character of a text is `c`.
pub open spec fn is_run(text: Seq<char>, c: char) -> bool {
    forall|i: int| 0 <= i < text.len() ==> #[trigger] text[i] == c
}

/// Leading white space is taken off, all of it and nothing else.
pub proof fn trimming_the_start(blank: Seq<char>, rest: Seq<char>)
    requires
        is_blank(blank),
        rest.len() > 0 ==> !is_space(rest[0]),
    ensures
        trimmed_start(blank + rest) == rest,
    decreases blank.len(),
{
    if blank.len() == 0 {
        assert(blank + rest =~= rest);
    } else {
        let text = blank + rest;
        assert(text[0] == blank[0]);
        assert(text.skip(1) =~= blank.skip(1) + rest);
        assert forall|i: int| 0 <= i < blank.skip(1).len() implies is_space(
            #[trigger] blank.skip(1)[i],
        ) by {
            assert(blank.skip(1)[i] == blank[i + 1]);
        }
        trimming_the_start(blank.skip(1), rest);
    }
}

/// Trailing white space is taken off, all of it and nothing else.
pub proof fn trimming_the_end(rest: Seq<char>, blank: Seq<char>)
    requires
        is_blank(blank),
        rest.len() > 0 ==> !is_space(rest.last()),
    ensures
        trimmed_end(rest + blank) == rest,
    decreases blank.len(),
{
    if blank.len() == 0 {
        assert(rest + blank =~= rest);
    } else {
        let text = rest + blank;
        assert(text.last() == blank[blank.len() - 1]);
        assert(text.drop_last() =~= rest + blank.drop_last());
        assert forall|i: int| 0 <= i < blank.drop_last().len() implies is_space(
            #[trigger] blank.drop_last()[i],
        ) by {
            assert(blank.drop_last()[i] == blank[i]);
        }
        trimming_the_end(rest, blank.drop_last());
    }
}

/// White space round a text is taken off, all of it and nothing else.
pub proof fn trimming_both_ends(before: Seq<char>, rest: Seq<char>, after: Seq<char>)
    requires
        is_blank(before),
        is_blank(after),
        rest.len() > 0 ==> !is_space(rest[0]) && !is_space(rest.last()),
    ensures
        trimmed(before + rest + after) == rest,
{
    if rest.len() == 0 {
        let all = before + after;
        assert(before + rest + after =~= all + Seq::<char>::empty());
        assert forall|i: int| 0 <= i < all.len() implies is_space(#[trigger] all[i]) by {
            if i < before.len() {
                assert(all[i] == before[i]);
            } else {
                assert(all[i] == after[i - before.len()]);
            }
        }
        trimming_the_start(all, Seq::empty());
        assert(rest =~= Seq::empty());
    } else {
        assert(before + rest + after =~= before + (rest + after));
        trimming_the_start(before, rest + after);
        trimming_the_end(rest, after);
    }
}

/// A run of a character is taken off the start of a text, all of it and nothing
/// else.
pub proof fn taking_a_run_off_the_start(run: Seq<char>, rest: Seq<char>, c: char)
    requires
        is_run(run, c),
        rest.len() > 0 ==> rest[0] != c,
    ensures
        without_leading(run + rest, c) == rest,
    decreases run.len(),
{
    if run.len() == 0 {
        assert(run + rest =~= rest);
    } else {
        let text = run + rest;
        assert(text[0] == run[0]);
        assert(text.skip(1) =~= run.skip(1) + rest);
        assert forall|i: int| 0 <= i < run.skip(1).len() implies #[trigger] run.skip(1)[i] == c by {
            assert(run.skip(1)[i] == run[i + 1]);
        }
        taking_a_run_off_the_start(run.skip(1), rest, c);
    }
}

/// A run of a character is taken off the end of a text, all of it and nothing
/// else.
pub proof fn taking_a_run_off_the_end(rest: Seq<char>, run: Seq<char>, c: char)
    requires
        is_run(run, c),
        rest.len() > 0 ==> rest.last() != c,
    ensures
        without_trailing(rest + run, c) == rest,
    decreases run.len(),
{
    if run.len() == 0 {
        assert(rest + run =~= rest);
    } else {
        let text = rest + run;
        assert(text.last() == run[run.len() - 1]);
        assert(text.drop_last() =~= rest + run.drop_last());
        assert forall|i: int| 0 <= i < run.drop_last().len() implies #[trigger] run.drop_last()[i]
            == c by {
            assert(run.drop_last()[i] == run[i]);
        }
        taking_a_run_off_the_end(rest, run.drop_last(), c);
    }
}

/// A text without the separator is one part.
pub proof fn a_text_without_separators_is_one_part(text: Seq<char>, sep: char)
    requires
        !text.contains(sep),
    ensures
        parts(text, sep) == seq![text],
    decreases text.len(),
{
    if text.len() == 0 {
        assert(text =~= Seq::empty());
    } else {
        let before = text.drop_last();
        assert(!before.contains(sep)) by {
            if before.contains(sep) {
                let k = before.index_of(sep);
                assert(text[k] == sep);
            }
        }
        a_text_without_separators_is_one_part(before, sep);
        assert(text[text.len() - 1] != sep);
        assert(before.push(text.last()) =~= text);
        assert(parts(text, sep) =~= seq![text]);
    }
}

/// The parts of two texts with a separator between them are the parts of the one
/// and those of the other.
pub proof fn parts_of_texts_put_together(left: Seq<char>, right: Seq<char>, sep: char)
    ensures
        parts(left + seq![sep] + right, sep) == parts(left, sep) + parts(right, sep),
    decreases right.len(),
{
    let text = left + seq![sep] + right;
    if right.len() == 0 {
        assert(text.drop_last() =~= left);
        assert(text.last() == sep);
        assert(right =~= Seq::empty());
        assert(parts(text, sep) =~= parts(left, sep) + parts(right, sep));
    } else {
        let shorter = right.drop_last();
        parts_of_texts_put_together(left, shorter, sep);
        lemma_parts_not_empty(shorter, sep);
        assert(text.drop_last() =~= left + seq![sep] + shorter);
        assert(text.last() == right.last());
        let before = parts(left, sep) + parts(shorter, sep);
        assert(before.last() == parts(shorter, sep).last());
        assert(parts(text, sep) =~= parts(left, sep) + parts(right, sep));
    }
}

/// Splitting gives back what was joined, piece by piece, where no piece holds the
/// separator.
pub proof fn splitting_undoes_joining(pieces: Seq<Seq<char>>, sep: char)
    requires
        pieces.len() > 0,
        forall|i: int| 0 <= i < pieces.len() ==> !(#[trigger] pieces[i]).contains(sep),
    ensures
        parts(joined(pieces, seq![sep]), sep) == pieces,
    decreases pieces.len(),
{
    a_text_without_separators_is_one_part(pieces.last(), sep);
    if pieces.len() == 1 {
        assert(pieces =~= seq![pieces[0]]);
    } else {
        let before = pieces.drop_last();
        assert forall|i: int| 0 <= i < before.len() implies !(#[trigger] before[i]).contains(sep) by {
            assert(before[i] == pieces[i]);
        }
        splitting_undoes_joining(before, sep);
        parts_of_texts_put_together(joined(before, seq![sep]), pieces.last(), sep);
        assert(before + seq![pieces.last()] =~= pieces);
    }
}

/// Joining puts the separator between each two pieces and nothing else anywhere.
pub proof fn joining_puts_pieces_together(
    left: Seq<Seq<char>>,
    right: Seq<Seq<char>>,
    piece: Seq<char>,
    sep: Seq<char>,
)
    requires
        left.len() > 0,
        right.len() > 0,
    ensures
        joined(seq![piece], sep) == piece,
        joined(left + right, sep) == joined(left, sep) + sep + joined(right, sep),
    decreases right.len(),
{
    let all = left + right;
    assert(all.drop_last() =~= left + right.drop_last());
    assert(all.last() == right.last());
    if right.len() == 1 {
        assert(left + right.drop_last() =~= left);
        assert(joined(all, sep) =~= joined(left, sep) + sep + joined(right, sep));
    } else {
        joining_puts_pieces_together(left, right.drop_last(), piece, sep);
        assert(joined(all, sep) =~= joined(left, sep) + sep + joined(right, sep));
    }
}

/// A part stands in a text exactly where the text is something, the part, and
/// something else.
pub proof fn a_part_stands_between(text: Seq<char>, part: Seq<char>)
    ensures
        has_part(text, part) <==> exists|before: Seq<char>, after: Seq<char>|
            text == #[trigger] (before + part + after),
{
    if has_part(text, part) {
        let i = choose|i: int|
            0 <= i <= text.len() - part.len() && #[trigger] text.subrange(i, i + part.len())
                == part;
        let before = text.take(i);
        let after = text.skip(i + part.len());
        assert forall|k: int| 0 <= k < text.len() implies text[k] == (before + part + after)[k] by {
            if i <= k < i + part.len() {
                assert(text.subrange(i, i + part.len())[k - i] == part[k - i]);
            }
        }
        assert(text =~= before + part + after);
    }
    if exists|before: Seq<char>, after: Seq<char>| text == #[trigger] (before + part + after) {
        let (before, after) = choose|before: Seq<char>, after: Seq<char>|
            text == #[trigger] (before + part + after);
        let i = before.len() as int;
        assert(text.subrange(i, i + part.len()) =~= part);
    }
}

} // verus!
