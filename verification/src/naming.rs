//! Identifiers derived from a raw path segment: the lower-case field identifier
//! and the upper-camel-case fragment of a record's type name.

use crate::text::{
    char_to_lower, char_to_upper, lowercase_of, lowercase_text, split, split_on, uppercase_of,
};
use vstd::prelude::*;
use vstd::string::*;

verus! {

/// The text with every `-` replaced by `_`, all else kept.
pub open spec fn dashes_to_underscores(s: Seq<char>) -> Seq<char> {
    Seq::new(
        s.len(),
        |i: int|
            if s[i] == '-' {
                '_'
            } else {
                s[i]
            },
    )
}

/// The field identifier of a segment: the segment in lower case, with `-`
/// replaced by `_`. Nothing else is changed.
pub open spec fn field_identifier(segment: Seq<char>) -> Seq<char> {
    dashes_to_underscores(lowercase_text(segment))
}

/// The lowercase mappings of the characters of `s`, one after another.
pub open spec fn lowercase_each(s: Seq<char>) -> Seq<char>
    decreases s.len(),
{
    if s.len() == 0 {
        Seq::<char>::empty()
    } else {
        lowercase_each(s.drop_last()) + lowercase_of(s.last())
    }
}

/// A word with its first character in upper case and the rest in lower case.
/// The empty word stays empty.
pub open spec fn capitalized(word: Seq<char>) -> Seq<char> {
    if word.len() == 0 {
        Seq::<char>::empty()
    } else {
        uppercase_of(word[0]) + lowercase_each(word.skip(1))
    }
}

/// The capitalized words, one after another, with nothing between them.
pub open spec fn capitalized_words(words: Seq<Seq<char>>) -> Seq<char>
    decreases words.len(),
{
    if words.len() == 0 {
        Seq::<char>::empty()
    } else {
        capitalized_words(words.drop_last()) + capitalized(words.last())
    }
}

/// The type-name fragment of a segment: its `_`-delimited words, each
/// capitalized, concatenated. Empty words contribute nothing.
pub open spec fn type_name_fragment(segment: Seq<char>) -> Seq<char> {
    capitalized_words(split(segment, '_'))
}

/// The type name of the record for a child segment under a record named
/// `parent`.
pub open spec fn child_type_name(parent: Seq<char>, segment: Seq<char>) -> Seq<char> {
    parent + type_name_fragment(segment)
}

/// Replaces every `-` of `s` by `_`.
pub fn replace_dashes(s: &str) -> (out: String)
    ensures
        out@ == dashes_to_underscores(s@),
{
    let mut out = String::new();
    let chars = s.chars();
    for c in it: chars
        invariant
            it.seq() == s@,
            out@ == dashes_to_underscores(s@.take(it.index())),
    {
        if c == '-' {
            out.push('_');
        } else {
            out.push(c);
        }
    }
    out
}

/// The field identifier of `s`.
pub fn to_snake_case(s: &str) -> (out: String)
    ensures
        out@ == field_identifier(s@),
{
    let lowered = s.to_lowercase();
    replace_dashes(lowered.as_str())
}

/// Capitalizes one word: upper case for its first character, lower case for
/// every other.
pub fn capitalize(word: &str) -> (out: String)
    ensures
        out@ == capitalized(word@),
{
    let mut out = String::new();
    let mut first = true;
    let chars = word.chars();
    for c in it: chars
        invariant
            it.seq() == word@,
            first <==> it.index() == 0,
            out@ == capitalized(word@.take(it.index())),
    {
        if first {
            let upper = char_to_upper(c);
            out.append(upper.as_str());
            first = false;
        } else {
            let lower = char_to_lower(c);
            out.append(lower.as_str());
            assert(word@.take(it.index() + 1).skip(1).drop_last() == word@.take(it.index()).skip(
                1,
            ));
        }
    }
    assert(word@.take(word@.len() as int) == word@);
    out
}

/// The type-name fragment of `s`.
pub fn to_pascal_case(s: &str) -> (out: String)
    ensures
        out@ == type_name_fragment(s@),
{
    let words = split_on(s, '_');
    let mut out = String::new();
    let mut i: usize = 0;
    while i < words.len()
        invariant
            i <= words.len(),
            words.deep_view() == split(s@, '_'),
            out@ == capitalized_words(words.deep_view().take(i as int)),
        decreases words.len() - i,
    {
        let word = capitalize(words[i].as_str());
        out.append(word.as_str());
        assert(words.deep_view().take(i + 1).drop_last() == words.deep_view().take(i as int));
        i += 1;
    }
    assert(words.deep_view().take(i as int) == words.deep_view());
    out
}

/// Appends the type-name fragment of `segment` to a parent record's name.
pub fn child_struct_name(parent: &str, segment: &str) -> (out: String)
    ensures
        out@ == child_type_name(parent@, segment@),
{
    let mut out = parent.to_owned();
    let fragment = to_pascal_case(segment);
    out.append(fragment.as_str());
    out
}

} // verus!
