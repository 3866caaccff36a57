//! Text: comparison, letter case, white space and joining.

use vstd::prelude::*;

verus! {

/// The texts of a list of strings.
pub open spec fn texts(strings: Seq<String>) -> Seq<Seq<char>> {
    Seq::new(strings.len(), |i: int| strings[i]@)
}

/// A character in lower case, as far as it is an ASCII letter.
pub open spec fn lower_char(ch: char) -> char {
    if 'A' <= ch <= 'Z' {
        (ch as int + 32) as char
    } else {
        ch
    }
}

/// A text with its ASCII letters in lower case.
pub open spec fn lower(text: Seq<char>) -> Seq<char> {
    Seq::new(text.len(), |i: int| lower_char(text[i]))
}

/// The characters with the Unicode property `White_Space`.
pub open spec fn is_white(ch: char) -> bool {
    ||| '\u{9}' <= ch <= '\u{d}'
    ||| ch == ' '
    ||| ch == '\u{85}'
    ||| ch == '\u{a0}'
    ||| ch == '\u{1680}'
    ||| '\u{2000}' <= ch <= '\u{200a}'
    ||| ch == '\u{2028}'
    ||| ch == '\u{2029}'
    ||| ch == '\u{202f}'
    ||| ch == '\u{205f}'
    ||| ch == '\u{3000}'
}

/// A text without the white space it starts with.
pub open spec fn trim_start(text: Seq<char>) -> Seq<char>
    decreases text.len(),
{
    if text.len() > 0 && is_white(text[0]) {
        trim_start(text.drop_first())
    } else {
        text
    }
}

/// A text without the white space it ends with.
pub open spec fn trim_end(text: Seq<char>) -> Seq<char>
    decreases text.len(),
{
    if text.len() > 0 && is_white(text.last()) {
        trim_end(text.drop_last())
    } else {
        text
    }
}

/// A text without the white space around it.
pub open spec fn trimmed(text: Seq<char>) -> Seq<char> {
    trim_end(trim_start(text))
}

/// Texts in a row, with a separator between each two.
pub open spec fn joined(parts: Seq<Seq<char>>, separator: Seq<char>) -> Seq<char>
    decreases parts.len(),
{
    if parts.len() == 0 {
        Seq::empty()
    } else if parts.len() == 1 {
        parts[0]
    } else {
        joined(parts.drop_last(), separator) + separator + parts.last()
    }
}

/// Calls `String::from_iter` on characters: the string holds them in their order.
#[verifier::external_body]
pub(crate) fn string_of(chars: &Vec<char>) -> (string: String)
    ensures
        string@ == chars@,
{
    String::from_iter(chars)
}

/// Whether two texts are equal.
pub fn same_text(left: &str, right: &str) -> (same: bool)
    ensures
        same == (left@ == right@),
{
    left.to_owned() == right.to_owned()
}

/// The characters of a text.
pub fn chars_of(text: &str) -> (chars: Vec<char>)
    ensures
        chars@ == text@,
{
    let mut chars: Vec<char> = Vec::new();
    for ch in iter: text.chars()
        invariant
            chars@.len() == iter.index(),
            iter.seq() == text@,
            forall|i: int| 0 <= i < chars@.len() ==> chars@[i] == text@[i],
    {
        chars.push(ch);
    }
    assert(chars@ =~= text@);
    chars
}

/// A text with its ASCII letters in lower case.
pub fn to_lower(text: &str) -> (string: String)
    ensures
        string@ == lower(text@),
{
    let source = chars_of(text);
    let mut chars: Vec<char> = Vec::new();
    let mut i: usize = 0;
    while i < source.len()
        invariant
            i <= source@.len(),
            source@ == text@,
            chars@.len() == i,
            forall|j: int| 0 <= j < i ==> chars@[j] == lower_char(text@[j]),
        decreases source.len() - i,
    {
        let ch: char = source[i];
        if 'A' <= ch && ch <= 'Z' {
            let code: u8 = ch as u8;
            chars.push((code + 32) as char);
        } else {
            chars.push(ch);
        }
        i = i + 1;
    }
    assert(chars@ =~= lower(text@));
    string_of(&chars)
}

fn white(ch: char) -> (white: bool)
    ensures
        white == is_white(ch),
{
    ('\u{9}' <= ch && ch <= '\u{d}') || ch == ' ' || ch == '\u{85}' || ch == '\u{a0}' || ch
        == '\u{1680}' || ('\u{2000}' <= ch && ch <= '\u{200a}') || ch == '\u{2028}' || ch
        == '\u{2029}' || ch == '\u{202f}' || ch == '\u{205f}' || ch == '\u{3000}'
}

/// A text without the white space around it.
pub fn trim(text: &str) -> (string: String)
    ensures
        string@ == trimmed(text@),
{
    let source = chars_of(text);
    let mut start: usize = 0;
    assert(source@.skip(0) =~= source@);
    while start < source.len() && white(source[start])
        invariant
            start <= source@.len(),
            source@ == text@,
            trim_start(source@.skip(start as int)) == trim_start(text@),
        decreases source.len() - start,
    {
        assert(source@.skip(start as int).drop_first() =~= source@.skip(start + 1));
        start = start + 1;
    }
    let ghost rest = source@.skip(start as int);
    assert(trim_start(text@) == rest);
    let mut end: usize = source.len();
    assert(source@.subrange(start as int, end as int) =~= rest);
    while end > start && white(source[end - 1])
        invariant
            start <= end <= source@.len(),
            source@ == text@,
            trim_end(source@.subrange(start as int, end as int)) == trim_end(rest),
        decreases end,
    {
        assert(source@.subrange(start as int, end as int).drop_last() =~= source@.subrange(
            start as int,
            end - 1,
        ));
        end = end - 1;
    }
    text.substring_char(start, end).to_owned()
}

/// Texts in a row, with a separator between each two.
pub fn join(parts: &Vec<String>, separator: &str) -> (string: String)
    ensures
        string@ == joined(texts(parts@), separator@),
{
    let mut string = String::new();
    let mut i: usize = 0;
    assert(texts(parts@).take(0) =~= Seq::<Seq<char>>::empty());
    while i < parts.len()
        invariant
            i <= parts@.len(),
            string@ == joined(texts(parts@).take(i as int), separator@),
        decreases parts.len() - i,
    {
        let ghost all = texts(parts@);
        if i > 0 {
            string.append(separator);
        }
        string.append(parts[i].as_str());
        proof {
            assert(all.take(i + 1).drop_last() =~= all.take(i as int));
            if i == 0 {
                assert(string@ =~= all[0]);
            }
        }
        i = i + 1;
    }
    assert(texts(parts@).take(i as int) =~= texts(parts@));
    string
}

/// Whether a text occurs in a list.
pub fn lists(strings: &Vec<String>, text: &str) -> (listed: bool)
    ensures
        listed == texts(strings@).contains(text@),
{
    let mut i: usize = 0;
    while i < strings.len()
        invariant
            i <= strings@.len(),
            forall|j: int| 0 <= j < i ==> texts(strings@)[j] != text@,
        decreases strings.len() - i,
    {
        if same_text(strings[i].as_str(), text) {
            assert(texts(strings@)[i as int] == text@);
            return true;
        }
        i = i + 1;
    }
    false
}

/// A list of strings with the same texts.
pub fn copy_texts(strings: &Vec<String>) -> (copy: Vec<String>)
    ensures
        texts(copy@) == texts(strings@),
{
    let mut copy: Vec<String> = Vec::new();
    let mut i: usize = 0;
    while i < strings.len()
        invariant
            i <= strings@.len(),
            copy@.len() == i,
            forall|j: int| 0 <= j < i ==> copy@[j]@ == strings@[j]@,
        decreases strings.len() - i,
    {
        copy.push(strings[i].clone());
        i = i + 1;
    }
    assert(texts(copy@) =~= texts(strings@));
    copy
}

/// Lower case keeps the length and every character but the capital letters from A to Z, which become
/// their small ones; it is the same for texts that differ only in the case of such letters.
pub proof fn law_lower_case(text: Seq<char>)
    ensures
        lower(text).len() == text.len(),
        forall|i: int|
            0 <= i < text.len() ==> {
                &&& 'A' <= text[i] <= 'Z' ==> 'a' <= #[trigger] lower(text)[i] <= 'z' && lower(
                    text,
                )[i] as int - 'a' as int == text[i] as int - 'A' as int
                &&& !('A' <= text[i] <= 'Z') ==> lower(text)[i] == text[i]
            },
        lower(lower(text)) == lower(text),
{
    assert forall|i: int| 0 <= i < text.len() implies {
        &&& 'A' <= text[i] <= 'Z' ==> 'a' <= #[trigger] lower(text)[i] <= 'z' && lower(text)[i] as int
            - 'a' as int == text[i] as int - 'A' as int
        &&& !('A' <= text[i] <= 'Z') ==> lower(text)[i] == text[i]
    } by {}
    assert(lower(lower(text)) =~= lower(text));
}

/// A text is trimmed to what is left between the white space at both of its ends.
pub proof fn law_trimming_leaves_the_middle(left: Seq<char>, middle: Seq<char>, right: Seq<char>)
    requires
        forall|i: int| 0 <= i < left.len() ==> is_white(#[trigger] left[i]),
        forall|i: int| 0 <= i < right.len() ==> is_white(#[trigger] right[i]),
        middle.len() > 0 ==> !is_white(middle[0]) && !is_white(middle.last()),
    ensures
        trimmed(left + middle + right) == middle,
{
    if middle.len() == 0 {
        let all = left + middle + right;
        assert forall|i: int| 0 <= i < all.len() implies is_white(#[trigger] all[i]) by {
            if i < left.len() {
                assert(all[i] == left[i]);
            } else {
                assert(all[i] == right[i - left.len()]);
            }
        }
        lemma_trim_start(all, Seq::empty());
        assert(all + Seq::<char>::empty() =~= all);
        assert(middle =~= Seq::<char>::empty());
    } else {
        let rest = middle + right;
        assert(rest[0] == middle[0]);
        lemma_trim_start(left, rest);
        assert(left + rest =~= left + middle + right);
        lemma_trim_end(middle, right);
    }
}

proof fn lemma_trim_start(left: Seq<char>, rest: Seq<char>)
    requires
        forall|i: int| 0 <= i < left.len() ==> is_white(#[trigger] left[i]),
        rest.len() > 0 ==> !is_white(rest[0]),
    ensures
        trim_start(left + rest) == rest,
    decreases left.len(),
{
    let text = left + rest;
    if left.len() > 0 {
        assert(text[0] == left[0]);
        assert(text.drop_first() =~= left.drop_first() + rest);
        assert forall|i: int| 0 <= i < left.drop_first().len() implies is_white(
            #[trigger] left.drop_first()[i],
        ) by {
            assert(left.drop_first()[i] == left[i + 1]);
        }
        lemma_trim_start(left.drop_first(), rest);
    } else {
        assert(text =~= rest);
    }
}

proof fn lemma_trim_end(rest: Seq<char>, right: Seq<char>)
    requires
        forall|i: int| 0 <= i < right.len() ==> is_white(#[trigger] right[i]),
        rest.len() > 0 ==> !is_white(rest.last()),
    ensures
        trim_end(rest + right) == rest,
    decreases right.len(),
{
    let text = rest + right;
    if right.len() > 0 {
        assert(text.last() == right[right.len() - 1]);
        assert(text.drop_last() =~= rest + right.drop_last());
        assert forall|i: int| 0 <= i < right.drop_last().len() implies is_white(
            #[trigger] right.drop_last()[i],
        ) by {
            assert(right.drop_last()[i] == right[i]);
        }
        lemma_trim_end(rest, right.drop_last());
    } else {
        assert(text =~= rest);
    }
}

/// Joined texts stand in a row, with the separator between each two and nowhere else.
pub proof fn law_joining_separates(parts: Seq<Seq<char>>, last: Seq<char>, separator: Seq<char>)
    ensures
        joined(Seq::empty(), separator) == Seq::<char>::empty(),
        joined(seq![last], separator) == last,
        parts.len() > 0 ==> joined(parts.push(last), separator) == joined(parts, separator)
            + separator + last,
{
    assert(parts.push(last).drop_last() =~= parts);
}

/// Of the ASCII characters the space is white, and so are tab, line feed, vertical tab, form feed and
/// carriage return; letters, digits and signs are not.
pub proof fn law_white_space_of_ascii(ch: char)
    requires
        (ch as u32) < 0x80,
    ensures
        is_white(ch) <==> ch as u32 == 0x20 || ch as u32 == 9 || ch as u32 == 10 || ch as u32 == 11
            || ch as u32 == 12 || ch as u32 == 13,
{
}

/// Beyond ASCII, white space is what Unicode spaces lines and words with.
pub proof fn law_white_space_beyond_ascii(ch: char)
    requires
        ch as u32 >= 0x80,
    ensures
        is_white(ch) <==> seq![
            0x85u32,
            0xa0,
            0x1680,
            0x2000,
            0x2001,
            0x2002,
            0x2003,
            0x2004,
            0x2005,
            0x2006,
            0x2007,
            0x2008,
            0x2009,
            0x200a,
            0x2028,
            0x2029,
            0x202f,
            0x205f,
            0x3000,
        ].contains(ch as u32),
{
    let list = seq![
        0x85u32,
        0xa0,
        0x1680,
        0x2000,
        0x2001,
        0x2002,
        0x2003,
        0x2004,
        0x2005,
        0x2006,
        0x2007,
        0x2008,
        0x2009,
        0x200a,
        0x2028,
        0x2029,
        0x202f,
        0x205f,
        0x3000,
    ];
    assert(list[0] == 0x85 && list[1] == 0xa0 && list[2] == 0x1680 && list[3] == 0x2000 && list[4]
        == 0x2001 && list[5] == 0x2002 && list[6] == 0x2003 && list[7] == 0x2004 && list[8]
        == 0x2005 && list[9] == 0x2006 && list[10] == 0x2007 && list[11] == 0x2008 && list[12]
        == 0x2009 && list[13] == 0x200a && list[14] == 0x2028 && list[15] == 0x2029 && list[16]
        == 0x202f && list[17] == 0x205f && list[18] == 0x3000);
}

} // verus!
