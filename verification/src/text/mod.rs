//! Character-level helpers for the library's string processing.
pub mod table;

use vstd::prelude::*;

verus! {

/// Calls `String::push`.
#[verifier::external_body]
pub(crate) fn push_char(text: &mut String, character: char)
    ensures
        final(text)@ == old(text)@.push(character),
{
    text.push(character)
}

/// The characters of `text`, in order.
pub fn chars_of(text: &str) -> (characters: Vec<char>)
    ensures
        characters@ == text@,
{
    let mut characters: Vec<char> = Vec::new();
    for character in iter: text.chars()
        invariant
            iter.seq() == text@,
            characters@ == iter.seq().take(iter.index() as int),
    {
        characters.push(character);
    }
    characters
}

/// The string made of `characters[start..end]`.
pub fn string_of(characters: &Vec<char>, start: usize, end: usize) -> (text: String)
    requires
        start <= end <= characters@.len(),
    ensures
        text@ == characters@.subrange(start as int, end as int),
{
    let mut text = String::new();
    let mut k: usize = start;
    while k < end
        invariant
            start <= k <= end <= characters@.len(),
            text@ == characters@.subrange(start as int, k as int),
        decreases end - k,
    {
        push_char(&mut text, characters[k]);
        k = k + 1;
        assert(text@ =~= characters@.subrange(start as int, k as int));
    }
    text
}

/// The characters with the Unicode `White_Space` property, which are those
/// that `char::is_whitespace` accepts.
pub open spec fn is_white_space(character: char) -> bool {
    let code = character as u32;
    ||| 0x09 <= code <= 0x0d
    ||| code == 0x20
    ||| code == 0x85
    ||| code == 0xa0
    ||| code == 0x1680
    ||| 0x2000 <= code <= 0x200a
    ||| code == 0x2028
    ||| code == 0x2029
    ||| code == 0x202f
    ||| code == 0x205f
    ||| code == 0x3000
}

pub fn is_whitespace(character: char) -> (white: bool)
    ensures
        white == is_white_space(character),
{
    let code = character as u32;
    (0x09 <= code && code <= 0x0d) || code == 0x20 || code == 0x85 || code == 0xa0 || code
        == 0x1680 || (0x2000 <= code && code <= 0x200a) || code == 0x2028 || code == 0x2029
        || code == 0x202f || code == 0x205f || code == 0x3000
}

/// The position of the first line break at or after `at`, or the end.
pub open spec fn line_end(source: Seq<char>, at: int) -> int
    decreases source.len() - at,
{
    if at >= source.len() || at < 0 {
        source.len() as int
    } else if source[at] == '\n' {
        at
    } else {
        line_end(source, at + 1)
    }
}

pub proof fn lemma_line_end_bounds(source: Seq<char>, at: int)
    requires
        0 <= at <= source.len(),
    ensures
        at <= line_end(source, at) <= source.len(),
    decreases source.len() - at,
{
    if at < source.len() && source[at] != '\n' {
        lemma_line_end_bounds(source, at + 1);
    }
}

/// `text` split at every occurrence of `separator`: the pieces between the
/// separators, including empty ones, in order.
pub open spec fn split(text: Seq<char>, separator: char) -> Seq<Seq<char>>
    decreases text.len(),
{
    if text.len() == 0 {
        seq![Seq::<char>::empty()]
    } else {
        let pieces = split(text.drop_last(), separator);
        if text.last() == separator {
            pieces.push(Seq::<char>::empty())
        } else {
            pieces.update(pieces.len() - 1, pieces.last().push(text.last()))
        }
    }
}

/// `pieces` joined with `separator` between neighbours.
pub open spec fn join(pieces: Seq<Seq<char>>, separator: char) -> Seq<char>
    decreases pieces.len(),
{
    if pieces.len() == 0 {
        Seq::empty()
    } else if pieces.len() == 1 {
        pieces[0]
    } else {
        join(pieces.drop_last(), separator).push(separator) + pieces.last()
    }
}

pub proof fn lemma_split_not_empty(text: Seq<char>, separator: char)
    ensures
        split(text, separator).len() >= 1,
    decreases text.len(),
{
    if text.len() > 0 {
        lemma_split_not_empty(text.drop_last(), separator);
    }
}

/// Extending the last piece by a character extends the joined text by it.
pub proof fn lemma_join_extend_last(pieces: Seq<Seq<char>>, separator: char, character: char)
    requires
        pieces.len() >= 1,
    ensures
        join(pieces.update(pieces.len() - 1, pieces.last().push(character)), separator) == join(
            pieces,
            separator,
        ).push(character),
{
    let updated = pieces.update(pieces.len() - 1, pieces.last().push(character));
    if pieces.len() > 1 {
        assert(updated.drop_last() =~= pieces.drop_last());
        assert((join(pieces.drop_last(), separator).push(separator) + pieces.last()).push(character)
            =~= join(pieces.drop_last(), separator).push(separator) + pieces.last().push(character));
    }
}

/// Splitting and joining again gives back the text.
pub proof fn law_join_split(text: Seq<char>, separator: char)
    ensures
        join(split(text, separator), separator) == text,
    decreases text.len(),
{
    if text.len() > 0 {
        let prefix = text.drop_last();
        law_join_split(prefix, separator);
        lemma_split_not_empty(prefix, separator);
        let pieces = split(prefix, separator);
        if text.last() == separator {
            let pushed = pieces.push(Seq::<char>::empty());
            assert(pushed.drop_last() =~= pieces);
            assert(join(pushed, separator) =~= prefix.push(separator));
        } else {
            lemma_join_extend_last(pieces, separator, text.last());
        }
        assert(prefix.push(text.last()) =~= text);
    }
}

/// A piece without the separator splits into itself.
pub proof fn lemma_split_plain(piece: Seq<char>, separator: char)
    requires
        !piece.contains(separator),
    ensures
        split(piece, separator) == seq![piece],
    decreases piece.len(),
{
    if piece.len() > 0 {
        let prefix = piece.drop_last();
        assert(!prefix.contains(separator)) by {
            if prefix.contains(separator) {
                let k = choose|k: int| 0 <= k < prefix.len() && prefix[k] == separator;
                assert(piece[k] == separator);
            }
        }
        lemma_split_plain(prefix, separator);
        assert(piece.last() != separator) by {
            assert(piece[piece.len() - 1] == piece.last());
        }
        assert(prefix.push(piece.last()) =~= piece);
        assert(seq![prefix].update(0, prefix.push(piece.last())) =~= seq![piece]);
        assert(split(prefix, separator).last() == prefix);
    } else {
        assert(piece =~= Seq::<char>::empty());
    }
}

/// Splitting `text`, a separator and a piece without separators adds that
/// piece to the pieces of `text`.
pub proof fn lemma_split_append(text: Seq<char>, separator: char, piece: Seq<char>)
    requires
        !piece.contains(separator),
    ensures
        split(text.push(separator) + piece, separator) == split(text, separator).push(piece),
    decreases piece.len(),
{
    if piece.len() == 0 {
        assert(text.push(separator) + piece =~= text.push(separator));
        assert(text.push(separator).drop_last() =~= text);
        assert(piece =~= Seq::<char>::empty());
    } else {
        let prefix = piece.drop_last();
        assert(!prefix.contains(separator)) by {
            if prefix.contains(separator) {
                let k = choose|k: int| 0 <= k < prefix.len() && prefix[k] == separator;
                assert(piece[k] == separator);
            }
        }
        lemma_split_append(text, separator, prefix);
        let whole = text.push(separator) + piece;
        assert(whole.drop_last() =~= text.push(separator) + prefix);
        assert(piece.last() != separator) by {
            assert(piece[piece.len() - 1] == piece.last());
        }
        assert(whole.last() == piece.last());
        assert(prefix.push(piece.last()) =~= piece);
        assert(split(text, separator).push(prefix).update(
            split(text, separator).len() as int,
            prefix.push(piece.last()),
        ) =~= split(text, separator).push(piece));
        assert(split(text, separator).push(prefix).last() == prefix);
    }
}

/// Joining pieces that contain no separator and splitting again gives back
/// the pieces.
pub proof fn law_split_join(pieces: Seq<Seq<char>>, separator: char)
    requires
        pieces.len() >= 1,
        forall|k: int| 0 <= k < pieces.len() ==> !(#[trigger] pieces[k]).contains(separator),
    ensures
        split(join(pieces, separator), separator) == pieces,
    decreases pieces.len(),
{
    if pieces.len() == 1 {
        lemma_split_plain(pieces[0], separator);
        assert(seq![pieces[0]] =~= pieces);
    } else {
        let prefix = pieces.drop_last();
        assert forall|k: int| 0 <= k < prefix.len() implies !(#[trigger] prefix[k]).contains(
            separator,
        ) by {
            assert(prefix[k] == pieces[k]);
        }
        law_split_join(prefix, separator);
        assert(!pieces.last().contains(separator)) by {
            assert(pieces[pieces.len() - 1] == pieces.last());
        }
        lemma_split_append(join(prefix, separator), separator, pieces.last());
        assert(prefix.push(pieces.last()) =~= pieces);
    }
}

} // verus!
