//! Texts made of directive lines: each line is read as it would be alone,
//! and the text has one directive for each of its lines.

use crate::ssh_config::parser::{
    argument_at, arguments_at, directive_at, directives_from, keyword_at, keyword_named,
    lemma_argument_at, lemma_directive_at, lemma_more_arguments_at, lemma_quoted_argument,
    more_arguments_at, parse, separator_at, DirectiveView,
};
use crate::text::{
    is_alpha, is_line_break, is_space, lemma_run_end, lemma_run_end_is, lowercase, run_end,
    CharClass,
};
use vstd::prelude::*;

verus! {

/// The directive that a line holds, if the line is a directive with nothing
/// but whitespace before and after it.
pub open spec fn directive_of_line(line: Seq<char>) -> Option<DirectiveView> {
    match directive_at(line, run_end(line, 0, CharClass::Space)) {
        Some((directive, end)) => if run_end(line, end, CharClass::Space) >= line.len() {
            Some(directive)
        } else {
            None
        },
        None => None,
    }
}

/// A directive line: a line, so without a line feed, that holds a directive.
pub open spec fn is_directive_line(line: Seq<char>) -> bool {
    !line.contains('\n') && directive_of_line(line) is Some
}

/// The text made of `lines`, each followed by a line feed.
pub open spec fn unlines(lines: Seq<Seq<char>>) -> Seq<char>
    decreases lines.len(),
{
    if lines.len() == 0 {
        Seq::empty()
    } else {
        lines.first() + seq!['\n'] + unlines(lines.drop_first())
    }
}

/// The directives of `lines`, line by line.
pub open spec fn directives_of_lines(lines: Seq<Seq<char>>) -> Seq<DirectiveView> {
    Seq::new(lines.len(), |i: int| directive_of_line(lines[i])->0)
}

/// `part` stands in `whole` from position `shift` on, and is followed there
/// by a line feed or by the end of `whole`.
spec fn stands_in(part: Seq<char>, whole: Seq<char>, shift: int) -> bool {
    &&& 0 <= shift
    &&& part.len() + shift <= whole.len()
    &&& forall|i: int| 0 <= i < part.len() ==> whole[i + shift] == #[trigger] part[i]
    &&& (part.len() + shift < whole.len() ==> whole[part.len() + shift] == '\n')
}

/// A run of `part` is the same run in `whole`, if it stops before the end of
/// `part`, or if what follows `part` in `whole` stops it too.
proof fn lemma_run_stands(
    part: Seq<char>,
    whole: Seq<char>,
    shift: int,
    start: int,
    class: CharClass,
)
    requires
        stands_in(part, whole, shift),
        0 <= start <= part.len(),
        run_end(part, start, class) < part.len() || part.len() + shift == whole.len()
            || !class.holds('\n'),
    ensures
        run_end(whole, start + shift, class) == run_end(part, start, class) + shift,
{
    let end = run_end(part, start, class);
    lemma_run_end(part, start, class);
    assert forall|i: int| start + shift <= i < end + shift implies class.holds(
        #[trigger] whole[i],
    ) by {
        assert(whole[i] == part[i - shift]);
    }
    if end < part.len() {
        assert(whole[end + shift] == part[end]);
    }
    lemma_run_end_is(whole, start + shift, class, end + shift);
}

/// A keyword of `part` is the same keyword in `whole`.
proof fn lemma_keyword_stands(part: Seq<char>, whole: Seq<char>, shift: int, start: int)
    requires
        stands_in(part, whole, shift),
        0 <= start <= part.len(),
        keyword_at(part, start) is Some,
    ensures
        keyword_at(whole, start + shift) == Some(
            ((keyword_at(part, start)->0).0, (keyword_at(part, start)->0).1 + shift),
        ),
{
    let end = run_end(part, start, CharClass::Alpha);
    lemma_run_end(part, start, CharClass::Alpha);
    lemma_run_stands(part, whole, shift, start, CharClass::Alpha);
    assert(part.subrange(start, end) =~= whole.subrange(start + shift, end + shift));
}

/// A separator of `part` is the same separator in `whole`.
proof fn lemma_separator_stands(part: Seq<char>, whole: Seq<char>, shift: int, start: int)
    requires
        stands_in(part, whole, shift),
        0 <= start <= part.len(),
        separator_at(part, start) is Some,
    ensures
        separator_at(whole, start + shift) == Some(separator_at(part, start)->0 + shift),
{
    let sign = run_end(part, start, CharClass::Blank);
    lemma_run_end(part, start, CharClass::Blank);
    lemma_run_stands(part, whole, shift, start, CharClass::Blank);
    if sign < part.len() {
        assert(whole[sign + shift] == part[sign]);
        if part[sign] == '=' {
            lemma_run_stands(part, whole, shift, sign + 1, CharClass::Blank);
        }
    }
}

/// An argument of `part` is the same argument in `whole`.
proof fn lemma_argument_stands(part: Seq<char>, whole: Seq<char>, shift: int, start: int)
    requires
        stands_in(part, whole, shift),
        0 <= start <= part.len(),
        argument_at(part, start) is Some,
    ensures
        argument_at(whole, start + shift) == Some(
            ((argument_at(part, start)->0).0, (argument_at(part, start)->0).1 + shift),
        ),
{
    lemma_argument_at(part, start);
    assert(whole[start + shift] == part[start]);
    if part[start] == '"' {
        let close = run_end(part, start + 1, CharClass::Unquoted);
        lemma_run_end(part, start + 1, CharClass::Unquoted);
        lemma_run_stands(part, whole, shift, start + 1, CharClass::Unquoted);
        if close > start + 1 {
            assert(part.subrange(start + 1, close) =~= whole.subrange(
                start + 1 + shift,
                close + shift,
            ));
        }
    }
    let end = run_end(part, start, CharClass::Visible);
    lemma_run_end(part, start, CharClass::Visible);
    lemma_run_stands(part, whole, shift, start, CharClass::Visible);
    assert(part.subrange(start, end) =~= whole.subrange(start + shift, end + shift));
}

/// Where `part` has no argument because it is at its end or at a line break,
/// `whole` has none either.
proof fn lemma_no_argument_stands(part: Seq<char>, whole: Seq<char>, shift: int, start: int)
    requires
        stands_in(part, whole, shift),
        0 <= start <= part.len(),
        start == part.len() || is_line_break(part[start]),
    ensures
        argument_at(whole, start + shift) is None,
{
    if start < part.len() {
        assert(whole[start + shift] == part[start]);
    }
}

/// The further arguments of a directive of `part`, whose last argument is
/// followed by blanks up to a line break or the end, are the same in `whole`.
proof fn lemma_more_arguments_stand(part: Seq<char>, whole: Seq<char>, shift: int, start: int)
    requires
        stands_in(part, whole, shift),
        0 <= start <= part.len(),
        ({
            let end = run_end(part, more_arguments_at(part, start).1, CharClass::Blank);
            end >= part.len() || is_line_break(part[end])
        }),
    ensures
        more_arguments_at(whole, start + shift) == (
            more_arguments_at(part, start).0,
            more_arguments_at(part, start).1 + shift,
        ),
    decreases part.len() - start,
{
    let next = run_end(part, start, CharClass::Blank);
    lemma_run_end(part, start, CharClass::Blank);
    lemma_run_stands(part, whole, shift, start, CharClass::Blank);
    if next > start {
        lemma_argument_at(part, next);
        match argument_at(part, next) {
            Some((_, end)) => {
                lemma_argument_stands(part, whole, shift, next);
                lemma_more_arguments_stand(part, whole, shift, end);
            },
            None => {
                lemma_no_argument_stands(part, whole, shift, next);
            },
        }
    }
}

/// A directive of `part` is the same directive in `whole`.
proof fn lemma_directive_stands(part: Seq<char>, whole: Seq<char>, shift: int, start: int)
    requires
        stands_in(part, whole, shift),
        0 <= start <= part.len(),
        directive_at(part, start) is Some,
    ensures
        directive_at(whole, start + shift) == Some(
            ((directive_at(part, start)->0).0, (directive_at(part, start)->0).1 + shift),
        ),
{
    lemma_run_end(part, start, CharClass::Alpha);
    lemma_keyword_stands(part, whole, shift, start);
    let after_keyword = (keyword_at(part, start)->0).1;
    lemma_run_end(part, after_keyword, CharClass::Blank);
    let sign = run_end(part, after_keyword, CharClass::Blank);
    if sign < part.len() {
        lemma_run_end(part, sign + 1, CharClass::Blank);
    }
    lemma_separator_stands(part, whole, shift, after_keyword);
    let after_separator = separator_at(part, after_keyword)->0;
    lemma_argument_at(part, after_separator);
    lemma_argument_stands(part, whole, shift, after_separator);
    let after_first = (argument_at(part, after_separator)->0).1;
    lemma_more_arguments_at(part, after_first);
    lemma_more_arguments_stand(part, whole, shift, after_first);
    let after_arguments = more_arguments_at(part, after_first).1;
    lemma_run_end(part, after_arguments, CharClass::Blank);
    lemma_run_stands(part, whole, shift, after_arguments, CharClass::Blank);
    let end = run_end(part, after_arguments, CharClass::Blank);
    if end < part.len() {
        assert(whole[end + shift] == part[end]);
    }
}

/// The directives of a text `part` that parses to its end are the
/// directives of `whole` from where `part` begins in it, if `whole` ends
/// where `part` does.
proof fn lemma_directives_stand(part: Seq<char>, whole: Seq<char>, shift: int, start: int)
    requires
        stands_in(part, whole, shift),
        part.len() + shift == whole.len(),
        0 <= start <= part.len(),
        directives_from(part, start) is Ok,
    ensures
        directives_from(whole, start + shift) == directives_from(part, start),
    decreases part.len() - start,
{
    let at = run_end(part, start, CharClass::Space);
    lemma_run_end(part, start, CharClass::Space);
    lemma_run_stands(part, whole, shift, start, CharClass::Space);
    if at < part.len() {
        lemma_directive_at(part, at);
        lemma_directive_stands(part, whole, shift, at);
        lemma_directives_stand(part, whole, shift, (directive_at(part, at)->0).1);
    }
}

/// Whitespace before the directives changes nothing: from two positions with
/// only whitespace between them, the same directives are read.
proof fn lemma_directives_after_space(s: Seq<char>, from: int, to: int)
    requires
        0 <= from <= to <= s.len(),
        forall|i: int| from <= i < to ==> CharClass::Space.holds(#[trigger] s[i]),
    ensures
        directives_from(s, from) == directives_from(s, to),
{
    lemma_run_end(s, to, CharClass::Space);
    lemma_run_end_is(s, from, CharClass::Space, run_end(s, to, CharClass::Space));
}

/// A directive line alone is a text with one directive.
pub proof fn lemma_line_alone(line: Seq<char>)
    requires
        is_directive_line(line),
    ensures
        parse(line) == Ok::<_, int>(seq![directive_of_line(line)->0]),
{
    let start = run_end(line, 0, CharClass::Space);
    let end = (directive_at(line, start)->0).1;
    lemma_run_end(line, 0, CharClass::Space);
    lemma_directive_at(line, start);
    assert(directives_from(line, end) == Ok::<_, int>(Seq::<DirectiveView>::empty()));
    assert(seq![directive_of_line(line)->0] + Seq::<DirectiveView>::empty()
        =~= seq![directive_of_line(line)->0]);
}

/// A directive line before a text that parses gives a text that parses: to
/// the directive of the line, followed by the directives of the text.
pub proof fn lemma_line_before_text(line: Seq<char>, tail: Seq<char>)
    requires
        is_directive_line(line),
        parse(tail) is Ok,
    ensures
        parse(line + seq!['\n'] + tail) == Ok::<_, int>(
            seq![directive_of_line(line)->0] + parse(tail)->Ok_0,
        ),
{
    let text = line + seq!['\n'] + tail;
    let start = run_end(line, 0, CharClass::Space);
    let (directive, end) = directive_at(line, start)->0;
    lemma_run_end(line, 0, CharClass::Space);
    lemma_directive_at(line, start);
    lemma_run_end(line, end, CharClass::Space);

    assert(stands_in(line, text, 0));
    lemma_run_stands(line, text, 0, 0, CharClass::Space);
    lemma_directive_stands(line, text, 0, start);
    assert(directive_at(text, start) == Some((directive, end)));

    let next = line.len() as int + 1;
    assert forall|i: int| end <= i < next implies CharClass::Space.holds(#[trigger] text[i]) by {
        if i < line.len() {
            assert(text[i] == line[i]);
        }
    }
    lemma_directives_after_space(text, end, next);

    assert(stands_in(tail, text, next)) by {
        assert forall|i: int| 0 <= i < tail.len() implies text[i + next] == #[trigger] tail[i] by {}
    }
    lemma_directives_stand(tail, text, next, 0);
}

/// A line of nothing but whitespace before a text changes nothing.
pub proof fn lemma_blank_line_before_text(line: Seq<char>, tail: Seq<char>)
    requires
        forall|i: int| 0 <= i < line.len() ==> is_space(#[trigger] line[i]),
        parse(tail) is Ok,
    ensures
        parse(line + seq!['\n'] + tail) == parse(tail),
{
    let text = line + seq!['\n'] + tail;
    let next = line.len() as int + 1;
    assert forall|i: int| 0 <= i < next implies CharClass::Space.holds(#[trigger] text[i]) by {
        if i < line.len() {
            assert(text[i] == line[i]);
        }
    }
    lemma_directives_after_space(text, 0, next);
    assert(stands_in(tail, text, next)) by {
        assert forall|i: int| 0 <= i < tail.len() implies text[i + next] == #[trigger] tail[i] by {}
    }
    lemma_directives_stand(tail, text, next, 0);
}

/// An argument written in double quotes.
pub open spec fn quoted(argument: Seq<char>) -> Seq<char> {
    seq!['"'] + argument + seq!['"']
}

/// Arguments written in double quotes, with a space between each two.
pub open spec fn quoted_arguments(arguments: Seq<Seq<char>>) -> Seq<char>
    decreases arguments.len(),
{
    if arguments.len() == 0 {
        Seq::empty()
    } else if arguments.len() == 1 {
        quoted(arguments.first())
    } else {
        quoted(arguments.first()) + seq![' '] + quoted_arguments(arguments.drop_first())
    }
}

/// A directive written as its keyword, a space, and its arguments in double
/// quotes.
pub open spec fn quoted_directive(word: Seq<char>, arguments: Seq<Seq<char>>) -> Seq<char> {
    word + seq![' '] + quoted_arguments(arguments)
}

/// An argument can stand in double quotes if it is not empty and holds no
/// double quote.
pub open spec fn can_be_quoted(argument: Seq<char>) -> bool {
    argument.len() > 0 && !argument.contains('"')
}

/// Arguments written in double quotes are read back as they were before they
/// were written.
proof fn lemma_quoted_arguments(arguments: Seq<Seq<char>>)
    requires
        arguments.len() > 0,
        forall|i: int| 0 <= i < arguments.len() ==> can_be_quoted(#[trigger] arguments[i]),
    ensures
        arguments_at(quoted_arguments(arguments), 0) == Some(
            (arguments, quoted_arguments(arguments).len() as int),
        ),
    decreases arguments.len(),
{
    let text = quoted_arguments(arguments);
    let first = arguments.first();
    let after_first = first.len() as int + 2;
    assert(can_be_quoted(arguments[0]));
    if arguments.len() == 1 {
        lemma_quoted_argument(first, Seq::empty());
        assert(text =~= seq!['"'] + first + seq!['"'] + Seq::<char>::empty());
        assert(seq![first] + Seq::<Seq<char>>::empty() =~= arguments);
    } else {
        let others = arguments.drop_first();
        let tail = quoted_arguments(others);
        assert forall|i: int| 0 <= i < others.len() implies can_be_quoted(#[trigger] others[i]) by {
            assert(others[i] == arguments[i + 1]);
        }
        lemma_quoted_arguments(others);
        lemma_quoted_argument(first, seq![' '] + tail);
        assert(text =~= seq!['"'] + first + seq!['"'] + (seq![' '] + tail));

        let next = after_first + 1;
        assert(text[after_first] == ' ');
        assert(text[next] == tail[0]);
        assert(tail[0] == '"');
        lemma_run_end_is(text, after_first, CharClass::Blank, next);
        assert(stands_in(tail, text, next)) by {
            assert forall|i: int| 0 <= i < tail.len() implies text[i + next] == #[trigger] tail[i] by {}
        }
        lemma_argument_at(tail, 0);
        lemma_argument_stands(tail, text, next, 0);
        let second_end = (argument_at(tail, 0)->0).1;
        lemma_more_arguments_at(tail, second_end);
        lemma_run_end(tail, tail.len() as int, CharClass::Blank);
        lemma_more_arguments_stand(tail, text, next, second_end);
        assert(seq![first] + (seq![others.first()] + more_arguments_at(tail, second_end).0)
            =~= arguments);
    }
}

/// Arguments written in double quotes hold a line feed only if one of the
/// arguments does.
proof fn lemma_quoted_arguments_on_one_line(arguments: Seq<Seq<char>>)
    requires
        forall|i: int| 0 <= i < arguments.len() ==> !(#[trigger] arguments[i]).contains('\n'),
    ensures
        !quoted_arguments(arguments).contains('\n'),
    decreases arguments.len(),
{
    let text = quoted_arguments(arguments);
    if arguments.len() > 0 {
        let first = arguments.first();
        let others = arguments.drop_first();
        assert forall|i: int| 0 <= i < others.len() implies !(#[trigger] others[i]).contains(
            '\n',
        ) by {
            assert(others[i] == arguments[i + 1]);
        }
        lemma_quoted_arguments_on_one_line(others);
        assert(!arguments[0].contains('\n'));
        assert forall|k: int| 0 <= k < text.len() implies text[k] != '\n' by {
            if 1 <= k <= first.len() {
                assert(text[k] == first[k - 1]);
                assert(first.contains(first[k - 1]));
            } else if k > first.len() + 2 {
                let tail = quoted_arguments(others);
                assert(text[k] == tail[k - first.len() - 3]);
                assert(tail.contains(tail[k - first.len() - 3]));
            }
        }
    }
}

/// A directive written with its arguments in double quotes is read back as
/// it was before it was written: the keyword that the word stands for, and
/// the arguments with their blanks and without their quotes. If no argument
/// holds a line feed, what was written is a directive line.
pub proof fn lemma_quoted_directive(word: Seq<char>, arguments: Seq<Seq<char>>)
    requires
        word.len() > 0,
        forall|i: int| 0 <= i < word.len() ==> is_alpha(#[trigger] word[i]),
        arguments.len() > 0,
        forall|i: int| 0 <= i < arguments.len() ==> can_be_quoted(#[trigger] arguments[i]),
    ensures
        directive_of_line(quoted_directive(word, arguments)) == Some(
            DirectiveView { keyword: keyword_named(lowercase(word)), arguments },
        ),
        parse(quoted_directive(word, arguments)) == Ok::<_, int>(
            seq![DirectiveView { keyword: keyword_named(lowercase(word)), arguments }],
        ),
        (forall|i: int| 0 <= i < arguments.len() ==> !(#[trigger] arguments[i]).contains('\n'))
            ==> is_directive_line(quoted_directive(word, arguments)),
{
    if forall|i: int| 0 <= i < arguments.len() ==> !(#[trigger] arguments[i]).contains('\n') {
        lemma_quoted_arguments_on_one_line(arguments);
        let written = quoted_directive(word, arguments);
        let list = quoted_arguments(arguments);
        assert forall|k: int| 0 <= k < written.len() implies written[k] != '\n' by {
            if k < word.len() {
                assert(written[k] == word[k]);
                assert(is_alpha(word[k]));
            } else if k > word.len() {
                assert(written[k] == list[k - word.len() - 1]);
                assert(list.contains(list[k - word.len() - 1]));
            }
        }
    }

    let list = quoted_arguments(arguments);
    let line = quoted_directive(word, arguments);
    let after_keyword = word.len() as int;
    let after_separator = after_keyword + 1;
    lemma_quoted_arguments(arguments);
    assert(can_be_quoted(arguments[0]));
    assert(list[0] == '"');

    assert(line[0] == word[0]);
    lemma_run_end_is(line, 0, CharClass::Space, 0);
    assert forall|i: int| 0 <= i < after_keyword implies CharClass::Alpha.holds(#[trigger] line[i]) by {
        assert(line[i] == word[i]);
    }
    assert(line[after_keyword] == ' ');
    lemma_run_end_is(line, 0, CharClass::Alpha, after_keyword);
    assert(line.subrange(0, after_keyword) =~= word);
    assert(line[after_separator] == list[0]);
    lemma_run_end_is(line, after_keyword, CharClass::Blank, after_separator);

    assert(stands_in(list, line, after_separator)) by {
        assert forall|i: int| 0 <= i < list.len() implies line[i + after_separator] == #[trigger] list[i] by {}
    }
    lemma_argument_at(list, 0);
    lemma_argument_stands(list, line, after_separator, 0);
    let first_end = (argument_at(list, 0)->0).1;
    lemma_more_arguments_at(list, first_end);
    lemma_run_end(list, list.len() as int, CharClass::Blank);
    lemma_more_arguments_stand(list, line, after_separator, first_end);
    lemma_run_end(line, line.len() as int, CharClass::Blank);
    lemma_run_end(line, line.len() as int, CharClass::Space);
    assert(directive_at(line, 0) == Some(
        (DirectiveView { keyword: keyword_named(lowercase(word)), arguments }, line.len() as int),
    ));
    assert(directives_from(line, line.len() as int) == Ok::<_, int>(
        Seq::<DirectiveView>::empty(),
    ));
    assert(seq![DirectiveView { keyword: keyword_named(lowercase(word)), arguments }]
        + Seq::<DirectiveView>::empty()
        =~= seq![DirectiveView { keyword: keyword_named(lowercase(word)), arguments }]);
}

/// The text made of `lines` with a line feed between each two of them, and
/// none after the last.
pub open spec fn join_lines(lines: Seq<Seq<char>>) -> Seq<char>
    decreases lines.len(),
{
    if lines.len() == 0 {
        Seq::empty()
    } else if lines.len() == 1 {
        lines.first()
    } else {
        lines.first() + seq!['\n'] + join_lines(lines.drop_first())
    }
}

/// `directives_of_lines` goes line by line.
proof fn lemma_directives_of_lines(lines: Seq<Seq<char>>)
    requires
        lines.len() > 0,
    ensures
        directives_of_lines(lines) == seq![directive_of_line(lines.first())->0]
            + directives_of_lines(lines.drop_first()),
{
    let rest = lines.drop_first();
    assert forall|i: int| 0 < i < lines.len() implies directives_of_lines(lines)[i]
        == directives_of_lines(rest)[i - 1] by {
        assert(rest[i - 1] == lines[i]);
    }
    assert(directives_of_lines(lines) =~= seq![directive_of_line(lines.first())->0]
        + directives_of_lines(rest));
}

/// A text made of directive lines, each ended by a line feed, parses, and has
/// one directive for each of its lines: the directive that the line holds.
pub proof fn lemma_directive_lines_parse(lines: Seq<Seq<char>>)
    requires
        forall|i: int| 0 <= i < lines.len() ==> is_directive_line(#[trigger] lines[i]),
    ensures
        parse(unlines(lines)) == Ok::<_, int>(directives_of_lines(lines)),
        directives_of_lines(lines).len() == lines.len(),
    decreases lines.len(),
{
    if lines.len() == 0 {
        assert(directives_of_lines(lines) =~= Seq::empty());
    } else {
        let rest = lines.drop_first();
        assert(is_directive_line(lines[0]));
        assert forall|i: int| 0 <= i < rest.len() implies is_directive_line(#[trigger] rest[i]) by {
            assert(rest[i] == lines[i + 1]);
        }
        lemma_directive_lines_parse(rest);
        lemma_line_before_text(lines.first(), unlines(rest));
        lemma_directives_of_lines(lines);
    }
}

/// A text made of directive lines with line feeds between them, the last
/// line ending the text, parses in the same way.
pub proof fn lemma_joined_lines_parse(lines: Seq<Seq<char>>)
    requires
        forall|i: int| 0 <= i < lines.len() ==> is_directive_line(#[trigger] lines[i]),
    ensures
        parse(join_lines(lines)) == Ok::<_, int>(directives_of_lines(lines)),
        directives_of_lines(lines).len() == lines.len(),
    decreases lines.len(),
{
    if lines.len() == 0 {
        assert(directives_of_lines(lines) =~= Seq::empty());
    } else {
        let rest = lines.drop_first();
        assert(is_directive_line(lines[0]));
        lemma_directives_of_lines(lines);
        if lines.len() == 1 {
            lemma_line_alone(lines.first());
            assert(directives_of_lines(rest) =~= Seq::empty());
            assert(seq![directive_of_line(lines.first())->0] + Seq::<DirectiveView>::empty()
                =~= seq![directive_of_line(lines.first())->0]);
        } else {
            assert forall|i: int| 0 <= i < rest.len() implies is_directive_line(
                #[trigger] rest[i],
            ) by {
                assert(rest[i] == lines[i + 1]);
            }
            lemma_joined_lines_parse(rest);
            lemma_line_before_text(lines.first(), join_lines(rest));
        }
    }
}

} // verus!
