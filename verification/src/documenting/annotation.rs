//! Extracting documentation from `-- |` annotation comments.
use vstd::prelude::*;

use crate::text::{chars_of, is_white_space, is_whitespace, join, lemma_line_end_bounds, line_end, push_char, string_of};

verus! {

/// The number of leading characters of `text` that satisfy `accepted`.
pub open spec fn leading(text: Seq<char>, accepted: spec_fn(char) -> bool) -> nat
    decreases text.len(),
{
    if text.len() > 0 && accepted(text[0]) {
        1 + leading(text.skip(1), accepted)
    } else {
        0
    }
}

/// The number of trailing characters of `text` that satisfy `accepted`.
pub open spec fn trailing(text: Seq<char>, accepted: spec_fn(char) -> bool) -> nat
    decreases text.len(),
{
    if text.len() > 0 && accepted(text.last()) {
        1 + trailing(text.drop_last(), accepted)
    } else {
        0
    }
}

pub open spec fn white() -> spec_fn(char) -> bool {
    |character: char| is_white_space(character)
}

pub open spec fn space() -> spec_fn(char) -> bool {
    |character: char| character == ' '
}

/// The documentation carried by one line of an annotation: the line must
/// start, after whitespace, with `--`, then any spaces and a `|`; one space
/// after the `|` is dropped, and so is the trailing whitespace.
pub open spec fn line_content(line: Seq<char>) -> Option<Seq<char>> {
    let trimmed = line.skip(leading(line, white()) as int);
    if !(trimmed.len() >= 2 && trimmed[0] == '-' && trimmed[1] == '-') {
        None
    } else {
        let after_dashes = trimmed.skip(2);
        let spaced = after_dashes.skip(leading(after_dashes, space()) as int);
        if !(spaced.len() >= 1 && spaced[0] == '|') {
            None
        } else {
            let after_bar = spaced.skip(1);
            let content = if after_bar.len() >= 1 && after_bar[0] == ' ' {
                after_bar.skip(1)
            } else {
                after_bar
            };
            Some(content.take(content.len() - trailing(content, white())))
        }
    }
}

/// The lines of `text` from position `at` on: each line runs up to the next
/// line feed, which ends it, together with a carriage return just before
/// it; a final line feed starts no further line.
pub open spec fn lines_from(text: Seq<char>, at: int) -> Seq<Seq<char>>
    decreases text.len() - at,
{
    if at < 0 || at >= text.len() {
        Seq::empty()
    } else {
        let end = line_end(text, at);
        proof {
            lemma_line_end_bounds(text, at);
        }
        let line = if end < text.len() && end > at && text[end - 1] == '\r' {
            text.subrange(at, end - 1)
        } else {
            text.subrange(at, end)
        };
        if end >= text.len() {
            seq![line]
        } else {
            seq![line] + lines_from(text, end + 1)
        }
    }
}

/// The lines of `text`, as `str::lines` yields them.
pub open spec fn lines(text: Seq<char>) -> Seq<Seq<char>> {
    lines_from(text, 0)
}

/// The documentation of each documentation line among `lines`, in order.
pub open spec fn documentation_lines(lines: Seq<Seq<char>>) -> Seq<Seq<char>>
    decreases lines.len(),
{
    if lines.len() == 0 {
        Seq::empty()
    } else {
        let rest = documentation_lines(lines.drop_last());
        match line_content(lines.last()) {
            Some(content) => rest.push(content),
            None => rest,
        }
    }
}

/// The documentation of an annotation comment: its documentation lines
/// joined by line feeds, or nothing when it has none.
pub open spec fn annotation_of(text: Seq<char>) -> Option<Seq<char>> {
    let documentation = documentation_lines(lines(text));
    if documentation.len() == 0 {
        None
    } else {
        Some(join(documentation, '\n'))
    }
}

proof fn lemma_leading_bound(text: Seq<char>, accepted: spec_fn(char) -> bool)
    ensures
        leading(text, accepted) <= text.len(),
    decreases text.len(),
{
    if text.len() > 0 && accepted(text[0]) {
        lemma_leading_bound(text.skip(1), accepted);
    }
}

proof fn lemma_trailing_bound(text: Seq<char>, accepted: spec_fn(char) -> bool)
    ensures
        trailing(text, accepted) <= text.len(),
    decreases text.len(),
{
    if text.len() > 0 && accepted(text.last()) {
        lemma_trailing_bound(text.drop_last(), accepted);
    }
}

fn accepts(character: char, spaces_only: bool) -> (accepted: bool)
    ensures
        accepted == (if spaces_only {
            space()
        } else {
            white()
        })(character),
{
    if spaces_only {
        character == ' '
    } else {
        is_whitespace(character)
    }
}

/// Skips the characters of `characters[start..end]` that satisfy the
/// predicate, from the front.
fn skip_leading(characters: &Vec<char>, start: usize, end: usize, spaces_only: bool) -> (position: usize)
    requires
        start <= end <= characters@.len(),
    ensures
        start <= position <= end,
        position - start == leading(
            characters@.subrange(start as int, end as int),
            if spaces_only {
                space()
            } else {
                white()
            },
        ),
{
    let ghost accepted = if spaces_only {
        space()
    } else {
        white()
    };
    let mut position = start;
    while position < end && accepts(characters[position], spaces_only)
        invariant
            start <= position <= end <= characters@.len(),
            accepted == (if spaces_only {
                space()
            } else {
                white()
            }),
            leading(characters@.subrange(start as int, end as int), accepted) == (position - start)
                + leading(characters@.subrange(position as int, end as int), accepted),
        decreases end - position,
    {
        proof {
            let rest = characters@.subrange(position as int, end as int);
            assert(rest.skip(1) =~= characters@.subrange(position + 1, end as int));
            assert(rest[0] == characters@[position as int]);
        }
        position = position + 1;
    }
    proof {
        let rest = characters@.subrange(position as int, end as int);
        if position < end {
            assert(rest[0] == characters@[position as int]);
        }
    }
    position
}

/// Skips the whitespace at the end of `characters[start..end]`.
fn skip_trailing_white(characters: &Vec<char>, start: usize, end: usize) -> (position: usize)
    requires
        start <= end <= characters@.len(),
    ensures
        start <= position <= end,
        end - position == trailing(characters@.subrange(start as int, end as int), white()),
{
    let mut position = end;
    while position > start && is_whitespace(characters[position - 1])
        invariant
            start <= position <= end <= characters@.len(),
            trailing(characters@.subrange(start as int, end as int), white()) == (end - position)
                + trailing(characters@.subrange(start as int, position as int), white()),
        decreases position - start,
    {
        proof {
            let rest = characters@.subrange(start as int, position as int);
            assert(rest.drop_last() =~= characters@.subrange(start as int, position - 1));
            assert(rest.last() == characters@[position - 1]);
        }
        position = position - 1;
    }
    proof {
        let rest = characters@.subrange(start as int, position as int);
        if position > start {
            assert(rest.last() == characters@[position - 1]);
        }
    }
    position
}

/// The range of the documentation within the line `characters[start..end]`.
fn line_content_range(characters: &Vec<char>, start: usize, end: usize) -> (range: Option<(usize, usize)>)
    requires
        start <= end <= characters@.len(),
    ensures
        match range {
            Some((from, to)) => from <= to <= characters@.len() && line_content(
                characters@.subrange(start as int, end as int),
            ) == Some(characters@.subrange(from as int, to as int)),
            None => line_content(characters@.subrange(start as int, end as int)) is None,
        },
{
    let ghost line = characters@.subrange(start as int, end as int);
    let trimmed = skip_leading(characters, start, end, false);
    proof {
        assert(line.skip(leading(line, white()) as int) =~= characters@.subrange(trimmed as int, end as int));
    }
    if !(end - trimmed >= 2 && characters[trimmed] == '-' && characters[trimmed + 1] == '-') {
        return None;
    }
    let after_dashes = trimmed + 2;
    let spaced = skip_leading(characters, after_dashes, end, true);
    proof {
        let t = characters@.subrange(trimmed as int, end as int);
        assert(t.skip(2) =~= characters@.subrange(after_dashes as int, end as int));
        let a = t.skip(2);
        assert(a.skip(leading(a, space()) as int) =~= characters@.subrange(spaced as int, end as int));
    }
    if !(spaced < end && characters[spaced] == '|') {
        return None;
    }
    let mut from = spaced + 1;
    if from < end && characters[from] == ' ' {
        from = from + 1;
    }
    let to = skip_trailing_white(characters, from, end);
    proof {
        let t = characters@.subrange(trimmed as int, end as int);
        let a = t.skip(2);
        let sp = a.skip(leading(a, space()) as int);
        assert(sp.skip(1) =~= characters@.subrange(spaced + 1, end as int));
        let content = characters@.subrange(from as int, end as int);
        assert(content.take(content.len() - trailing(content, white())) =~= characters@.subrange(
            from as int,
            to as int,
        ));
        if spaced + 1 < end && characters@[spaced + 1] == ' ' {
            assert(sp.skip(1).skip(1) =~= content);
        } else {
            assert(sp.skip(1) =~= content);
        }
    }
    Some((from, to))
}

/// The documentation carried by one line of an annotation comment, if it is
/// a documentation line.
pub fn documentation_line_content(line: &str) -> (content: Option<String>)
    ensures
        match content {
            Some(content) => line_content(line@) == Some(content@),
            None => line_content(line@) is None,
        },
{
    let characters = chars_of(line);
    proof {
        assert(characters@.subrange(0, characters@.len() as int) =~= line@);
    }
    match line_content_range(&characters, 0, characters.len()) {
        Some((from, to)) => Some(string_of(&characters, from, to)),
        None => None,
    }
}

/// The documentation of an annotation comment: its documentation lines,
/// joined by line feeds; `None` when no line is a documentation line.
pub fn extract_annotation(text: &str) -> (annotation: Option<String>)
    ensures
        match annotation {
            Some(annotation) => annotation_of(text@) == Some(annotation@),
            None => annotation_of(text@) is None,
        },
{
    let characters = chars_of(text);
    let ghost whole = text@;
    let mut annotation = String::new();
    let ghost mut processed: Seq<Seq<char>> = Seq::empty();
    let ghost mut documentation: Seq<Seq<char>> = Seq::empty();
    let mut found = false;
    let mut start: usize = 0;
    while start < characters.len()
        invariant
            characters@ == whole,
            start <= whole.len(),
            lines_from(whole, 0) == processed + lines_from(whole, start as int),
            documentation == documentation_lines(processed),
            annotation@ == join(documentation, '\n'),
            found == (documentation.len() > 0),
        decreases whole.len() - start,
    {
        let mut end = start;
        while end < characters.len() && characters[end] != '\n'
            invariant
                characters@ == whole,
                start <= end <= whole.len(),
                line_end(whole, start as int) == line_end(whole, end as int),
            decreases whole.len() - end,
        {
            end = end + 1;
        }
        proof {
            lemma_line_end_bounds(whole, start as int);
        }
        let line_stop = if end < characters.len() && end > start && characters[end - 1] == '\r' {
            end - 1
        } else {
            end
        };
        let ghost line = whole.subrange(start as int, line_stop as int);
        let next = if end < characters.len() {
            end + 1
        } else {
            characters.len()
        };
        proof {
            assert(lines_from(whole, start as int) == seq![line] + lines_from(whole, next as int)) by {
                if end >= whole.len() {
                    assert(lines_from(whole, next as int) =~= Seq::<Seq<char>>::empty());
                    assert(seq![line] + lines_from(whole, next as int) =~= seq![line]);
                }
            }
            assert(processed + (seq![line] + lines_from(whole, next as int)) =~= processed.push(line)
                + lines_from(whole, next as int));
            assert(processed.push(line).drop_last() =~= processed);
        }
        match line_content_range(&characters, start, line_stop) {
            Some((from, to)) => {
                let ghost content = whole.subrange(from as int, to as int);
                if found {
                    push_char(&mut annotation, '\n');
                }
                let mut k = from;
                let ghost prefix = annotation@;
                while k < to
                    invariant
                        characters@ == whole,
                        from <= k <= to <= whole.len(),
                        annotation@ == prefix + whole.subrange(from as int, k as int),
                    decreases to - k,
                {
                    push_char(&mut annotation, characters[k]);
                    k = k + 1;
                    assert(annotation@ =~= prefix + whole.subrange(from as int, k as int));
                }
                proof {
                    let pushed = documentation.push(content);
                    assert(pushed.drop_last() =~= documentation);
                    if documentation.len() == 0 {
                        assert(annotation@ =~= content);
                    } else {
                        assert(annotation@ =~= join(documentation, '\n').push('\n') + content);
                    }
                    documentation = pushed;
                }
                found = true;
            },
            None => {},
        }
        proof {
            processed = processed.push(line);
        }
        start = next;
    }
    proof {
        assert(lines_from(whole, start as int) =~= Seq::<Seq<char>>::empty());
        assert(processed + Seq::<Seq<char>>::empty() =~= processed);
    }
    if found {
        Some(annotation)
    } else {
        None
    }
}

/// The documentation of a declaration with a signature and equations: the
/// signature's when it has any, else the equation's, else none.
pub open spec fn preferred_documentation(signature: Option<Seq<char>>, equation: Option<Seq<char>>) -> Seq<char> {
    match signature {
        Some(text) if text.len() > 0 => text,
        _ => match equation {
            Some(text) => text,
            None => Seq::empty(),
        },
    }
}

/// Chooses the documentation of a declaration from that of its signature
/// and that of its equation, each present when the declaration has one.
pub fn signature_equation_documentation(signature: Option<&str>, equation: Option<&str>) -> (documentation:
    String)
    ensures
        documentation@ == preferred_documentation(
            match signature {
                Some(text) => Some(text@),
                None => None,
            },
            match equation {
                Some(text) => Some(text@),
                None => None,
            },
        ),
{
    if let Some(text) = signature {
        if !text.is_empty() {
            return text.to_owned();
        }
    }
    if let Some(text) = equation {
        return text.to_owned();
    }
    String::new()
}

/// Whitespace in front of a documentation line does not change what it
/// documents.
pub proof fn law_line_indentation_ignored(white_character: char, line: Seq<char>)
    requires
        is_white_space(white_character),
    ensures
        line_content(seq![white_character] + line) == line_content(line),
{
    let indented = seq![white_character] + line;
    assert(indented[0] == white_character);
    assert(indented.skip(1) =~= line);
    let count = leading(line, white());
    lemma_leading_bound(line, white());
    assert(leading(indented, white()) == 1 + count);
    assert(indented.skip((1 + count) as int) =~= line.skip(count as int));
}

/// A line `--| ` followed by text that does not end in whitespace
/// documents exactly that text.
pub proof fn law_documentation_line_content(text: Seq<char>)
    requires
        text.len() == 0 || !is_white_space(text.last()),
    ensures
        line_content(seq!['-', '-', '|', ' '] + text) == Some(text),
{
    let line = seq!['-', '-', '|', ' '] + text;
    assert(line[0] == '-');
    assert(leading(line, white()) == 0);
    assert(line.skip(0) =~= line);
    let after_dashes = line.skip(2);
    assert(after_dashes =~= seq!['|', ' '] + text);
    assert(after_dashes[0] == '|');
    assert(leading(after_dashes, space()) == 0);
    assert(after_dashes.skip(0) =~= after_dashes);
    let after_bar = after_dashes.skip(1);
    assert(after_bar =~= seq![' '] + text);
    assert(after_bar[0] == ' ');
    assert(after_bar.skip(1) =~= text);
    if text.len() > 0 {
        assert(trailing(text, white()) == 0);
    }
    assert(text.take(text.len() as int) =~= text);
}

} // verus!
