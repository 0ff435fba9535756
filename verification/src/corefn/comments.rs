//! The comments that precede a module's header.
use vstd::prelude::*;

use super::model::Comment;
use crate::text::{chars_of, is_white_space, is_whitespace, lemma_line_end_bounds, line_end, string_of};

verus! {

/// The text of a comment and its kind.
pub enum CommentView {
    Line(Seq<char>),
    Block(Seq<char>),
}

impl View for Comment {
    type V = CommentView;

    open spec fn view(&self) -> CommentView {
        match self {
            Comment::LineComment(text) => CommentView::Line(text@),
            Comment::BlockComment(text) => CommentView::Block(text@),
        }
    }
}

/// `source` holds the two characters `first second` at position `at`.
pub open spec fn starts_with(source: Seq<char>, at: int, first: char, second: char) -> bool {
    &&& 0 <= at
    &&& at + 1 < source.len()
    &&& source[at] == first
    &&& source[at + 1] == second
}

/// Scans a block comment body from `at`, inside `level` nested `{-`
/// openings: returns where the scan stops (just after the closing `-}` that
/// brings the level to zero, or the end of `source`) and the level there.
pub open spec fn block_end(source: Seq<char>, at: int, level: nat) -> (int, nat)
    decreases source.len() - at,
{
    if at >= source.len() || at < 0 || level == 0 {
        (at, level)
    } else if starts_with(source, at, '{', '-') {
        block_end(source, at + 2, level + 1)
    } else if starts_with(source, at, '-', '}') {
        block_end(source, at + 2, (level - 1) as nat)
    } else {
        block_end(source, at + 1, level)
    }
}

/// The comments in `source` from position `at` on, up to the first character
/// that is neither whitespace nor part of a comment. A line comment runs to
/// the end of its line; a block comment may nest, and an unterminated one
/// runs to the end of the source.
pub open spec fn comments_from(source: Seq<char>, at: int) -> Seq<CommentView>
    decreases source.len() - at,
{
    if at < 0 || at >= source.len() {
        Seq::empty()
    } else if starts_with(source, at, '-', '-') {
        let end = line_end(source, at + 2);
        proof {
            lemma_line_end_bounds(source, at + 2);
        }
        seq![CommentView::Line(source.subrange(at + 2, end))] + comments_from(source, end)
    } else if starts_with(source, at, '{', '-') {
        let (stop, level) = block_end(source, at + 2, 1);
        proof {
            lemma_block_end_bounds(source, at + 2, 1);
        }
        let content_end = if level == 0 {
            stop - 2
        } else {
            source.len() as int
        };
        seq![CommentView::Block(source.subrange(at + 2, content_end))] + comments_from(source, stop)
    } else if is_white_space(source[at]) {
        comments_from(source, at + 1)
    } else {
        Seq::empty()
    }
}

/// The comments before a module's header.
pub open spec fn leading_comments_of(source: Seq<char>) -> Seq<CommentView> {
    comments_from(source, 0)
}

pub proof fn lemma_block_end_bounds(source: Seq<char>, at: int, level: nat)
    requires
        0 <= at <= source.len(),
        level > 0,
    ensures
        at <= block_end(source, at, level).0 <= source.len(),
        block_end(source, at, level).1 == 0 ==> at + 2 <= block_end(source, at, level).0,
    decreases source.len() - at,
{
    if at < source.len() {
        if starts_with(source, at, '{', '-') {
            lemma_block_end_bounds(source, at + 2, level + 1);
        } else if starts_with(source, at, '-', '}') {
            if level > 1 {
                lemma_block_end_bounds(source, at + 2, (level - 1) as nat);
            }
        } else {
            lemma_block_end_bounds(source, at + 1, level);
        }
    }
}

/// Whether `characters` holds `first second` at `at`.
fn has_pair(characters: &Vec<char>, at: usize, first: char, second: char) -> (found: bool)
    requires
        at <= characters@.len(),
    ensures
        found == starts_with(characters@, at as int, first, second),
{
    at < characters.len() && characters.len() - at > 1 && characters[at] == first && characters[at
        + 1] == second
}

/// Collects the comments that precede the module header of `source`: line
/// comments (`-- ...`) and nested block comments (`{- ... -}`), separated by
/// whitespace, up to the first other character.
pub fn leading_comments(source: &str) -> (comments: Vec<Comment>)
    ensures
        comments@.map_values(|comment: Comment| comment@) == leading_comments_of(source@),
{
    let characters = chars_of(source);
    let ghost text = source@;
    let mut comments: Vec<Comment> = Vec::new();
    let mut offset: usize = 0;
    let mut done = false;
    while offset < characters.len() && !done
        invariant
            characters@ == text,
            offset <= text.len(),
            done ==> comments_from(text, offset as int) == Seq::<CommentView>::empty(),
            comments@.map_values(|comment: Comment| comment@) + comments_from(text, offset as int)
                == comments_from(text, 0),
        decreases text.len() - offset, if done {
            0int
        } else {
            1int
        },
    {
        let ghost before = comments@.map_values(|comment: Comment| comment@);
        if has_pair(&characters, offset, '-', '-') {
            let content_start = offset + 2;
            let mut content_end = content_start;
            while content_end < characters.len() && characters[content_end] != '\n'
                invariant
                    characters@ == text,
                    content_start <= content_end <= text.len(),
                    line_end(text, content_start as int) == line_end(text, content_end as int),
                decreases text.len() - content_end,
            {
                content_end = content_end + 1;
            }
            comments.push(Comment::LineComment(string_of(&characters, content_start, content_end)));
            proof {
                assert(comments@.map_values(|comment: Comment| comment@) =~= before.push(
                    CommentView::Line(text.subrange(content_start as int, content_end as int)),
                ));
                assert(before.push(CommentView::Line(text.subrange(content_start as int, content_end as int)))
                    + comments_from(text, content_end as int) =~= before + (seq![CommentView::Line(text.subrange(content_start as int, content_end as int))]
                    + comments_from(text, content_end as int)));
            }
            offset = content_end;
            continue;
        }
        if has_pair(&characters, offset, '{', '-') {
            let content_start = offset + 2;
            let mut level: usize = 1;
            offset = content_start;
            while offset < characters.len() && level > 0
                invariant
                    characters@ == text,
                    content_start <= offset <= text.len(),
                    level <= offset,
                    block_end(text, content_start as int, 1) == block_end(text, offset as int, level as nat),
                    level == 0 ==> content_start + 2 <= offset,
                decreases text.len() - offset,
            {
                if has_pair(&characters, offset, '{', '-') {
                    level = level + 1;
                    offset = offset + 2;
                } else if has_pair(&characters, offset, '-', '}') {
                    level = level - 1;
                    offset = offset + 2;
                } else {
                    offset = offset + 1;
                }
            }
            let content_end = if level == 0 {
                offset - 2
            } else {
                characters.len()
            };
            comments.push(Comment::BlockComment(string_of(&characters, content_start, content_end)));
            proof {
                let block = CommentView::Block(text.subrange(content_start as int, content_end as int));
                assert(comments@.map_values(|comment: Comment| comment@) =~= before.push(block));
                assert(before.push(block) + comments_from(text, offset as int) =~= before + (seq![block]
                    + comments_from(text, offset as int)));
            }
            continue;
        }
        let character = characters[offset];
        if is_whitespace(character) {
            offset = offset + 1;
        } else {
            done = true;
        }
    }
    proof {
        if offset >= characters.len() {
            assert(comments_from(text, offset as int) =~= Seq::<CommentView>::empty());
        }
        assert(comments@.map_values(|comment: Comment| comment@) + comments_from(text, offset as int)
            == comments_from(text, 0));
    }
    comments
}

/// Looking for the end of a line in a text with a prefix finds the same
/// place, shifted by the prefix.
proof fn lemma_line_end_shift(prefix: Seq<char>, source: Seq<char>, at: int)
    requires
        0 <= at <= source.len(),
    ensures
        line_end(prefix + source, prefix.len() + at) == prefix.len() + line_end(source, at),
    decreases source.len() - at,
{
    if at < source.len() {
        assert((prefix + source)[prefix.len() + at] == source[at]);
        if source[at] != '\n' {
            lemma_line_end_shift(prefix, source, at + 1);
        }
    }
}

/// Two characters found at a place of a text are found at the shifted place
/// behind a prefix.
proof fn lemma_starts_with_shift(prefix: Seq<char>, source: Seq<char>, at: int, first: char, second: char)
    requires
        0 <= at,
    ensures
        starts_with(prefix + source, prefix.len() + at, first, second) == starts_with(source, at, first, second),
{
    if at + 1 < source.len() {
        assert((prefix + source)[prefix.len() + at] == source[at]);
        assert((prefix + source)[prefix.len() + at + 1] == source[at + 1]);
    }
}

/// Scanning a block comment behind a prefix stops at the shifted place, at
/// the same level.
proof fn lemma_block_end_shift(prefix: Seq<char>, source: Seq<char>, at: int, level: nat)
    requires
        0 <= at <= source.len(),
    ensures
        block_end(prefix + source, prefix.len() + at, level) == (
            prefix.len() + block_end(source, at, level).0,
            block_end(source, at, level).1,
        ),
    decreases source.len() - at,
{
    if at < source.len() && level > 0 {
        lemma_starts_with_shift(prefix, source, at, '{', '-');
        lemma_starts_with_shift(prefix, source, at, '-', '}');
        if starts_with(source, at, '{', '-') {
            lemma_block_end_shift(prefix, source, at + 2, level + 1);
        } else if starts_with(source, at, '-', '}') {
            lemma_block_end_shift(prefix, source, at + 2, (level - 1) as nat);
        } else {
            lemma_block_end_shift(prefix, source, at + 1, level);
        }
    }
}

/// The comments from a place behind a prefix are those from the same place
/// of the text without it.
proof fn lemma_comments_shift(prefix: Seq<char>, source: Seq<char>, at: int)
    requires
        0 <= at <= source.len(),
    ensures
        comments_from(prefix + source, prefix.len() + at) == comments_from(source, at),
    decreases source.len() - at,
{
    let whole = prefix + source;
    let shifted = prefix.len() + at;
    if at < source.len() {
        assert(whole[shifted] == source[at]);
        lemma_starts_with_shift(prefix, source, at, '-', '-');
        lemma_starts_with_shift(prefix, source, at, '{', '-');
        if starts_with(source, at, '-', '-') {
            lemma_line_end_bounds(source, at + 2);
            lemma_line_end_shift(prefix, source, at + 2);
            let end = line_end(source, at + 2);
            assert(whole.subrange(shifted + 2, prefix.len() + end) =~= source.subrange(at + 2, end));
            lemma_comments_shift(prefix, source, end);
        } else if starts_with(source, at, '{', '-') {
            lemma_block_end_bounds(source, at + 2, 1);
            lemma_block_end_shift(prefix, source, at + 2, 1);
            let (stop, level) = block_end(source, at + 2, 1);
            let content_end = if level == 0 {
                stop - 2
            } else {
                source.len() as int
            };
            assert(whole.subrange(shifted + 2, prefix.len() + content_end) =~= source.subrange(at + 2, content_end));
            lemma_comments_shift(prefix, source, stop);
        } else if is_white_space(source[at]) {
            lemma_comments_shift(prefix, source, at + 1);
        }
    } else {
        assert(shifted >= whole.len());
    }
}

/// Whitespace before the comments never ends the scan: a whitespace
/// character in front of a text leaves its leading comments as they are,
/// so blank lines between comments keep all of them.
pub proof fn law_whitespace_is_skipped(white: char, source: Seq<char>)
    requires
        is_white_space(white),
    ensures
        leading_comments_of(seq![white] + source) == leading_comments_of(source),
{
    lemma_comments_shift(seq![white], source, 0);
    assert((seq![white] + source)[0] == white);
}

/// A line comment in front of a text, ended by a line break, comes first,
/// with the text after `--` up to the line break, followed by the leading
/// comments of the rest.
pub proof fn law_line_comment_then_rest(text: Seq<char>, source: Seq<char>)
    requires
        !text.contains('\n'),
    ensures
        leading_comments_of(seq!['-', '-'] + text + seq!['\n'] + source) == seq![CommentView::Line(text)]
            + leading_comments_of(source),
{
    let head = seq!['-', '-'] + text + seq!['\n'];
    let whole = head + source;
    assert(whole == seq!['-', '-'] + text + seq!['\n'] + source);
    assert(starts_with(whole, 0, '-', '-'));
    assert forall|i: int| 2 <= i < (2 + text.len()) as int implies whole[i] != '\n' by {
        assert(whole[i] == text[i - 2]);
        assert(text.contains(text[i - 2]));
    }
    lemma_line_end_at(whole, 2, (2 + text.len()) as int);
    assert(whole.subrange(2, (2 + text.len()) as int) =~= text);
    assert(whole[(2 + text.len()) as int] == '\n');
    assert(is_white_space('\n'));
    lemma_comments_shift(head, source, 0);
    assert(comments_from(whole, (2 + text.len()) as int) == comments_from(whole, (3 + text.len()) as int));
}

/// The end of the line from `at` is `end` when `end` holds the first line
/// break from `at` on.
proof fn lemma_line_end_at(source: Seq<char>, at: int, end: int)
    requires
        0 <= at <= end < source.len(),
        source[end] == '\n',
        forall|i: int| at <= i < end ==> source[i] != '\n',
    ensures
        line_end(source, at) == end,
    decreases end - at,
{
    if at < end {
        lemma_line_end_at(source, at + 1, end);
    }
}

/// A block comment whose text holds neither `-` nor `{` in front of a text
/// comes first, with that text, followed by the leading comments of the
/// rest.
pub proof fn law_block_comment_then_rest(text: Seq<char>, source: Seq<char>)
    requires
        !text.contains('-'),
        !text.contains('{'),
    ensures
        leading_comments_of(seq!['{', '-'] + text + seq!['-', '}'] + source) == seq![CommentView::Block(text)]
            + leading_comments_of(source),
{
    let head = seq!['{', '-'] + text + seq!['-', '}'];
    let whole = head + source;
    assert(whole == seq!['{', '-'] + text + seq!['-', '}'] + source);
    assert(starts_with(whole, 0, '{', '-'));
    assert(!starts_with(whole, 0, '-', '-'));
    lemma_block_end_plain(whole, 2, (2 + text.len()) as int);
    assert(whole.subrange(2, (2 + text.len()) as int) =~= text);
    lemma_comments_shift(head, source, 0);
}

/// Scanning a block comment at level one from `at` over characters that
/// are neither `-` nor `{` up to a closing `-}` at `end` stops just after it.
proof fn lemma_block_end_plain(source: Seq<char>, at: int, end: int)
    requires
        0 <= at <= end,
        end + 1 < source.len(),
        source[end] == '-',
        source[end + 1] == '}',
        forall|i: int| at <= i < end ==> source[i] != '-' && source[i] != '{',
    ensures
        block_end(source, at, 1) == (end + 2, 0nat),
    decreases end - at,
{
    if at < end {
        assert(source[at] != '-' && source[at] != '{');
        lemma_block_end_plain(source, at + 1, end);
    } else {
        assert(starts_with(source, at, '-', '}'));
        assert(!starts_with(source, at, '{', '-'));
        assert(block_end(source, at + 2, 0) == (at + 2, 0nat));
    }
}

/// The scan stops at the first character that is neither whitespace nor the
/// start of a comment.
pub proof fn law_other_character_stops(first: char, source: Seq<char>)
    requires
        !is_white_space(first),
        first != '-',
        first != '{',
    ensures
        leading_comments_of(seq![first] + source) == Seq::<CommentView>::empty(),
{
    assert((seq![first] + source)[0] == first);
}

} // verus!
