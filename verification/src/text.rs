//! Text primitives: the case mappings of the standard library, and splitting a
//! text on a separator character.

use vstd::prelude::*;

verus! {

/// `String::push` appends the given character at the end of the string and
/// leaves what was there before untouched. Assumed, not proved.
pub assume_specification[ String::push ](s: &mut String, ch: char)
    ensures
        final(s)@ == old(s)@.push(ch),
;

/// The lowercase equivalent of a whole text, as `str::to_lowercase` computes it
/// from the Unicode tables. It is not a character-wise mapping: a capital sigma
/// at the end of a word has a lowercase form of its own.
pub uninterp spec fn lowercase_text(s: Seq<char>) -> Seq<char>;

/// `str::to_lowercase` depends on the characters of its argument only; its
/// result is named [`lowercase_text`]. Assumed, not proved.
pub assume_specification[ str::to_lowercase ](s: &str) -> (out: String)
    ensures
        out@ == lowercase_text(s@),
;

/// The uppercase mapping of one character, as `char::to_uppercase` yields it.
/// One character may map to several.
pub uninterp spec fn uppercase_of(c: char) -> Seq<char>;

/// The lowercase mapping of one character, as `char::to_lowercase` yields it.
pub uninterp spec fn lowercase_of(c: char) -> Seq<char>;

/// Collects what `char::to_uppercase` yields for `c`. The characters depend on
/// `c` only and are named [`uppercase_of`]. Assumed, not proved.
#[verifier::external_body]
pub(crate) fn char_to_upper(c: char) -> (out: String)
    ensures
        out@ == uppercase_of(c),
{
    c.to_uppercase().collect()
}

/// Collects what `char::to_lowercase` yields for `c`. The characters depend on
/// `c` only and are named [`lowercase_of`]. Assumed, not proved.
#[verifier::external_body]
pub(crate) fn char_to_lower(c: char) -> (out: String)
    ensures
        out@ == lowercase_of(c),
{
    c.to_lowercase().collect()
}

/// The pieces of `s` between the occurrences of `sep`, in order. There is one
/// more piece than there are separators, so the empty text has one empty piece.
pub open spec fn split(s: Seq<char>, sep: char) -> Seq<Seq<char>>
    decreases s.len(),
{
    if s.len() == 0 {
        seq![Seq::<char>::empty()]
    } else {
        let before = split(s.drop_last(), sep);
        if s.last() == sep {
            before.push(Seq::<char>::empty())
        } else {
            before.update(before.len() - 1, before.last().push(s.last()))
        }
    }
}

/// The pieces written one after another with `sep` between neighbours.
pub open spec fn join(pieces: Seq<Seq<char>>, sep: char) -> Seq<char>
    decreases pieces.len(),
{
    if pieces.len() == 0 {
        Seq::<char>::empty()
    } else if pieces.len() == 1 {
        pieces[0]
    } else {
        join(pieces.drop_last(), sep).push(sep) + pieces.last()
    }
}

/// No piece holds the separator.
pub open spec fn free_of(pieces: Seq<Seq<char>>, sep: char) -> bool {
    forall|i: int, j: int|
        0 <= i < pieces.len() && 0 <= j < pieces[i].len() ==> #[trigger] pieces[i][j] != sep
}

/// Splitting always yields at least one piece, no piece holds the separator,
/// and joining the pieces gives the text back.
pub proof fn lemma_split_then_join(s: Seq<char>, sep: char)
    ensures
        split(s, sep).len() >= 1,
        free_of(split(s, sep), sep),
        join(split(s, sep), sep) == s,
    decreases s.len(),
{
    if s.len() > 0 {
        lemma_split_then_join(s.drop_last(), sep);
        let before = split(s.drop_last(), sep);
        let pieces = split(s, sep);
        if s.last() == sep {
            assert(pieces.drop_last() == before);
            lemma_join_nonempty(before, sep);
        } else if before.len() > 1 {
            assert(pieces.drop_last() == before.drop_last());
            assert(join(pieces, sep) == join(before, sep).push(s.last()));
        }
    }
}

/// A join of one piece or more is the join of all but the last, and the last.
proof fn lemma_join_nonempty(pieces: Seq<Seq<char>>, sep: char)
    requires
        pieces.len() >= 1,
    ensures
        pieces.len() == 1 ==> join(pieces, sep) == pieces[0],
        pieces.len() > 1 ==> join(pieces, sep) == join(pieces.drop_last(), sep).push(sep)
            + pieces.last(),
{
}

/// Splitting a text that ends in a piece without separator, behind a
/// separator, yields that piece as the last one.
proof fn lemma_split_last_piece(head: Seq<char>, piece: Seq<char>, sep: char)
    requires
        forall|j: int| 0 <= j < piece.len() ==> piece[j] != sep,
    ensures
        split(head.push(sep) + piece, sep) == split(head, sep).push(piece),
    decreases piece.len(),
{
    let whole = head.push(sep) + piece;
    if piece.len() == 0 {
        assert(whole.drop_last() =~= head);
        assert(piece =~= Seq::<char>::empty());
    } else {
        lemma_split_last_piece(head, piece.drop_last(), sep);
        assert(whole.drop_last() =~= head.push(sep) + piece.drop_last());
        assert(piece.drop_last().push(piece.last()) =~= piece);
    }
}

/// A text without separator is its own single piece.
proof fn lemma_split_one_piece(piece: Seq<char>, sep: char)
    requires
        forall|j: int| 0 <= j < piece.len() ==> piece[j] != sep,
    ensures
        split(piece, sep) == seq![piece],
    decreases piece.len(),
{
    if piece.len() == 0 {
        assert(piece =~= Seq::<char>::empty());
    } else {
        lemma_split_one_piece(piece.drop_last(), sep);
        assert(piece.drop_last().push(piece.last()) =~= piece);
    }
}

/// Pieces without separator, one or more, come back when their join is split:
/// `split` is the one way to cut a text into such pieces.
pub proof fn lemma_join_then_split(pieces: Seq<Seq<char>>, sep: char)
    requires
        pieces.len() >= 1,
        free_of(pieces, sep),
    ensures
        split(join(pieces, sep), sep) == pieces,
    decreases pieces.len(),
{
    if pieces.len() == 1 {
        lemma_split_one_piece(pieces[0], sep);
    } else {
        let front = pieces.drop_last();
        lemma_join_then_split(front, sep);
        lemma_split_last_piece(join(front, sep), pieces.last(), sep);
    }
}

/// Two texts with the same pieces are the same text.
pub proof fn lemma_split_injective(a: Seq<char>, b: Seq<char>, sep: char)
    requires
        split(a, sep) == split(b, sep),
    ensures
        a == b,
{
    lemma_split_then_join(a, sep);
    lemma_split_then_join(b, sep);
}

/// Splits `s` at every occurrence of `sep`.
pub fn split_on(s: &str, sep: char) -> (pieces: Vec<String>)
    ensures
        pieces.deep_view() == split(s@, sep),
{
    let mut pieces: Vec<String> = Vec::new();
    let mut current = String::new();
    let chars = s.chars();
    for c in it: chars
        invariant
            it.seq() == s@,
            pieces.deep_view().push(current@) == split(s@.take(it.index()), sep),
    {
        assert(s@.take(it.index() + 1).drop_last() == s@.take(it.index()));
        if c == sep {
            pieces.push(current);
            current = String::new();
        } else {
            current.push(c);
        }
    }
    assert(s@.take(s@.len() as int) == s@);
    pieces.push(current);
    pieces
}

} // verus!
