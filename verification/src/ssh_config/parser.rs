//! The grammar of the configuration file, and the parser that follows it.
//!
//! A file is a sequence of directives, one to a line, with any amount of
//! whitespace before each of them. A directive is a keyword, a separator and
//! one or more arguments:
//!
//! ```text
//! file       = { space } { directive { space } }
//! directive  = keyword separator argument { blank { blank } argument } { blank }
//! keyword    = letter { letter }
//! separator  = { blank } "=" { blank }  |  blank { blank }
//! argument   = '"' unquoted { unquoted } '"'  |  visible { visible }
//! ```
//!
//! A letter is an ASCII letter, a blank is a space or a tab, a space is a
//! blank or a line break, a visible character is any other, and an unquoted
//! character is any but the double quote. Every rule takes the longest match,
//! and a directive must be followed by a line break or by the end of the
//! text. A double quote at the start of an argument must be closed further
//! on, or the argument, and with it the text, is refused; where two double
//! quotes follow each other, they are the first characters of an argument
//! without quotes.
//!
//! A keyword is `Host` or `Hostname` if it is that word, in any case of its
//! letters, and any other keyword is kept in lower case.
//!
//! The grammar is stated as spec functions from a position in the text to
//! what is read there and where it ends; each executable function returns
//! exactly what its spec function gives.

use crate::text::{
    is_line_break, is_space, lemma_precedes_irreflexive, lemma_run_end, lemma_run_end_is,
    lemma_texts_push, lowercase, lowercase_of, rank, run_end, scan, string_of, texts, to_chars,
    CharClass, Rank,
};
use vstd::prelude::*;
use vstd::string::StringExecFns;

verus! {

/// The keyword of a directive.
#[derive(Debug, PartialEq, Eq)]
pub enum Keyword {
    /// `host`, in any case of its letters: opens the section of a host.
    Host,
    /// `hostname`, in any case of its letters: the address of the host.
    Hostname,
    /// Any other keyword, in lower case.
    Other(String),
}

/// The mathematical value of a `Keyword`.
pub enum KeywordView {
    Host,
    Hostname,
    Other(Seq<char>),
}

impl KeywordView {
    /// The name under which the directive is filed among the options of an
    /// entry: the keyword in lower case.
    pub open spec fn name(self) -> Seq<char> {
        match self {
            KeywordView::Host => "host"@,
            KeywordView::Hostname => "hostname"@,
            KeywordView::Other(name) => name,
        }
    }
}

impl View for Keyword {
    type V = KeywordView;

    open spec fn view(&self) -> KeywordView {
        match self {
            Keyword::Host => KeywordView::Host,
            Keyword::Hostname => KeywordView::Hostname,
            Keyword::Other(name) => KeywordView::Other(name@),
        }
    }
}

impl Clone for Keyword {
    fn clone(&self) -> (copy: Self)
        ensures
            copy@ == self@,
    {
        match self {
            Keyword::Host => Keyword::Host,
            Keyword::Hostname => Keyword::Hostname,
            Keyword::Other(name) => Keyword::Other(name.clone()),
        }
    }
}

impl Keyword {
    /// The keyword that a word in lower case stands for.
    pub fn named(name: String) -> (keyword: Keyword)
        ensures
            keyword@ == keyword_named(name@),
    {
        proof {
            lemma_precedes_irreflexive(name@);
        }
        if let Rank::Same = rank(name.as_str(), "host") {
            Keyword::Host
        } else if let Rank::Same = rank(name.as_str(), "hostname") {
            Keyword::Hostname
        } else {
            Keyword::Other(name)
        }
    }

    /// The name under which the directive is filed: `host`, `hostname`, or
    /// the keyword itself.
    pub fn name(self) -> (name: String)
        ensures
            name@ == self@.name(),
    {
        match self {
            Keyword::Host => "host".to_owned(),
            Keyword::Hostname => "hostname".to_owned(),
            Keyword::Other(name) => name,
        }
    }
}

impl From<Keyword> for String {
    /// The name under which the directive is filed, as `Keyword::name` gives
    /// it.
    fn from(keyword: Keyword) -> (name: String)
        ensures
            name@ == keyword@.name(),
    {
        keyword.name()
    }
}

impl vstd::std_specs::convert::FromSpecImpl<Keyword> for String {
    /// The conversion is stated by the view of its result, in the contract of
    /// `from`; no string is singled out here.
    open spec fn obeys_from_spec() -> bool {
        false
    }

    open spec fn from_spec(keyword: Keyword) -> String {
        choose|name: String| name@ == keyword@.name()
    }
}

/// One line of the file: a keyword and its arguments.
#[derive(Debug, PartialEq, Eq)]
pub struct Directive {
    pub keyword: Keyword,
    pub arguments: Vec<String>,
}

/// The mathematical value of a `Directive`.
pub struct DirectiveView {
    pub keyword: KeywordView,
    pub arguments: Seq<Seq<char>>,
}

impl View for Directive {
    type V = DirectiveView;

    open spec fn view(&self) -> DirectiveView {
        DirectiveView { keyword: self.keyword@, arguments: texts(self.arguments@) }
    }
}

/// The values of a sequence of directives.
pub open spec fn directive_views(directives: Seq<Directive>) -> Seq<DirectiveView> {
    directives.map_values(|d: Directive| d@)
}

/// The text is not a sequence of directives.
#[derive(Debug, PartialEq, Eq)]
pub struct ParseError {
    /// How many characters of the text were read as directives and
    /// whitespace before the text stopped following the grammar.
    pub offset: usize,
    /// The text from `offset` on: what was not consumed.
    pub remaining: String,
}

impl ParseError {
    /// The error in words, with the text that was left.
    pub fn message(&self) -> (message: String)
        ensures
            message@ == "not a directive: "@ + self.remaining@,
    {
        "not a directive: ".to_owned().concat(self.remaining.as_str())
    }
}

/// The keyword that a word in lower case stands for.
pub open spec fn keyword_named(name: Seq<char>) -> KeywordView {
    if name == "host"@ {
        KeywordView::Host
    } else if name == "hostname"@ {
        KeywordView::Hostname
    } else {
        KeywordView::Other(name)
    }
}

/// The keyword at `start` and where it ends: the longest run of letters, which
/// must not be empty, read without regard to case.
pub open spec fn keyword_at(s: Seq<char>, start: int) -> Option<(KeywordView, int)> {
    let end = run_end(s, start, CharClass::Alpha);
    if end > start {
        Some((keyword_named(lowercase(s.subrange(start, end))), end))
    } else {
        None
    }
}

/// Where the separator between keyword and arguments at `start` ends: an
/// equals sign with any blanks around it, or else at least one blank.
pub open spec fn separator_at(s: Seq<char>, start: int) -> Option<int> {
    let sign = run_end(s, start, CharClass::Blank);
    if 0 <= sign < s.len() && s[sign] == '=' {
        Some(run_end(s, sign + 1, CharClass::Blank))
    } else if sign > start {
        Some(sign)
    } else {
        None
    }
}

/// The bare argument at `start` and where it ends: the longest run of
/// visible characters, which must not be empty.
pub open spec fn bare_argument_at(s: Seq<char>, start: int) -> Option<(Seq<char>, int)> {
    let end = run_end(s, start, CharClass::Visible);
    if end > start {
        Some((s.subrange(start, end), end))
    } else {
        None
    }
}

/// The argument at `start` and where it ends. After a double quote it is all
/// that stands before the next double quote, which must be there; the quotes
/// are consumed and left out. Two double quotes with nothing between them
/// quote nothing and begin a bare argument, as every other visible character
/// does.
pub open spec fn argument_at(s: Seq<char>, start: int) -> Option<(Seq<char>, int)> {
    if 0 <= start < s.len() && s[start] == '"' {
        let close = run_end(s, start + 1, CharClass::Unquoted);
        if close >= s.len() {
            None
        } else if close > start + 1 {
            Some((s.subrange(start + 1, close), close + 1))
        } else {
            bare_argument_at(s, start)
        }
    } else {
        bare_argument_at(s, start)
    }
}

/// The arguments that follow one that ended at `start`, each after at least
/// one blank, and where the last of them ends. Blanks that no argument
/// follows are not consumed.
pub open spec fn more_arguments_at(s: Seq<char>, start: int) -> (Seq<Seq<char>>, int)
    decreases s.len() - start,
    via more_arguments_at_decreases
{
    let next = run_end(s, start, CharClass::Blank);
    if next > start {
        match argument_at(s, next) {
            Some((argument, end)) => {
                let (rest, last) = more_arguments_at(s, end);
                (seq![argument] + rest, last)
            },
            None => (Seq::empty(), start),
        }
    } else {
        (Seq::empty(), start)
    }
}

#[via_fn]
proof fn more_arguments_at_decreases(s: Seq<char>, start: int) {
    if 0 <= start <= s.len() {
        lemma_run_end(s, start, CharClass::Blank);
        lemma_argument_at(s, run_end(s, start, CharClass::Blank));
    }
}

/// The arguments at `start`, one or more with blanks between them, and where
/// the last of them ends.
pub open spec fn arguments_at(s: Seq<char>, start: int) -> Option<(Seq<Seq<char>>, int)> {
    match argument_at(s, start) {
        Some((first, end)) => {
            let (rest, last) = more_arguments_at(s, end);
            Some((seq![first] + rest, last))
        },
        None => None,
    }
}

/// The directive at `start` and where it ends: keyword, separator, arguments
/// and the blanks after them, which must reach a line break or the end of the
/// text.
pub open spec fn directive_at(s: Seq<char>, start: int) -> Option<(DirectiveView, int)> {
    match keyword_at(s, start) {
        Some((keyword, after_keyword)) => match separator_at(s, after_keyword) {
            Some(after_separator) => match arguments_at(s, after_separator) {
                Some((arguments, after_arguments)) => {
                    let end = run_end(s, after_arguments, CharClass::Blank);
                    if end >= s.len() || is_line_break(s[end]) {
                        Some((DirectiveView { keyword, arguments }, end))
                    } else {
                        None
                    }
                },
                None => None,
            },
            None => None,
        },
        None => None,
    }
}

/// The directives from `start` to the end of the text, or the position of
/// the first thing after whitespace that is not a directive.
pub open spec fn directives_from(s: Seq<char>, start: int) -> Result<Seq<DirectiveView>, int>
    decreases s.len() - start,
    via directives_from_decreases
{
    let at = run_end(s, start, CharClass::Space);
    if at >= s.len() {
        Ok(Seq::empty())
    } else {
        match directive_at(s, at) {
            Some((directive, end)) => match directives_from(s, end) {
                Ok(rest) => Ok(seq![directive] + rest),
                Err(position) => Err(position),
            },
            None => Err(at),
        }
    }
}

#[via_fn]
proof fn directives_from_decreases(s: Seq<char>, start: int) {
    if 0 <= start <= s.len() {
        lemma_run_end(s, start, CharClass::Space);
        lemma_directive_at(s, run_end(s, start, CharClass::Space));
    }
}

/// What the whole text holds: its directives in order, or the position at
/// which it stops being a sequence of directives.
pub open spec fn parse(s: Seq<char>) -> Result<Seq<DirectiveView>, int> {
    directives_from(s, 0)
}

/// An argument is not empty, and ends after where it starts, within the
/// text.
pub proof fn lemma_argument_at(s: Seq<char>, start: int)
    ensures
        argument_at(s, start) matches Some((argument, end)) ==> 0 <= start < end <= s.len()
            && argument.len() > 0,
{
    if 0 <= start < s.len() {
        lemma_run_end(s, start + 1, CharClass::Unquoted);
        lemma_run_end(s, start, CharClass::Visible);
    }
}

/// A quoted argument is read back as it was written: the quotes go, and
/// what stood between them stays as it is, blanks and line breaks too.
pub proof fn lemma_quoted_argument(content: Seq<char>, rest: Seq<char>)
    requires
        content.len() > 0,
        !content.contains('"'),
    ensures
        argument_at(seq!['"'] + content + seq!['"'] + rest, 0) == Some(
            (content, content.len() as int + 2),
        ),
{
    let s = seq!['"'] + content + seq!['"'] + rest;
    let close = content.len() as int + 1;
    assert forall|i: int| 1 <= i < close implies CharClass::Unquoted.holds(#[trigger] s[i]) by {
        assert(s[i] == content[i - 1]);
        assert(content.contains(content[i - 1]));
    }
    assert(s[close] == '"');
    lemma_run_end_is(s, 1, CharClass::Unquoted, close);
    assert(s.subrange(1, close) =~= content);
}

/// A bare argument is read back as it was written, up to the whitespace or
/// the end of the text that follows it.
pub proof fn lemma_bare_argument(word: Seq<char>, rest: Seq<char>)
    requires
        word.len() > 0,
        word[0] != '"',
        forall|i: int| 0 <= i < word.len() ==> !is_space(#[trigger] word[i]),
        rest.len() > 0 ==> is_space(rest[0]),
    ensures
        argument_at(word + rest, 0) == Some((word, word.len() as int)),
{
    let s = word + rest;
    assert forall|i: int| 0 <= i < word.len() implies CharClass::Visible.holds(#[trigger] s[i]) by {
        assert(s[i] == word[i]);
    }
    if rest.len() > 0 {
        assert(s[word.len() as int] == rest[0]);
    }
    lemma_run_end_is(s, 0, CharClass::Visible, word.len() as int);
    assert(s.subrange(0, word.len() as int) =~= word);
}

/// The arguments after the first end within the text, at or after `start`,
/// and none of them is empty.
pub proof fn lemma_more_arguments_at(s: Seq<char>, start: int)
    requires
        0 <= start <= s.len(),
    ensures
        start <= more_arguments_at(s, start).1 <= s.len(),
        forall|i: int|
            0 <= i < more_arguments_at(s, start).0.len() ==> (#[trigger] more_arguments_at(
                s,
                start,
            ).0[i]).len() > 0,
    decreases s.len() - start,
{
    let next = run_end(s, start, CharClass::Blank);
    lemma_run_end(s, start, CharClass::Blank);
    if next > start {
        lemma_argument_at(s, next);
        match argument_at(s, next) {
            Some((_, end)) => {
                lemma_more_arguments_at(s, end);
            },
            None => {},
        }
    }
}

/// No argument of `directive` is empty, and there is at least one.
pub open spec fn has_arguments(directive: DirectiveView) -> bool {
    &&& directive.arguments.len() >= 1
    &&& forall|i: int| 0 <= i < directive.arguments.len() ==> (#[trigger] directive.arguments[i]).len() > 0
}

/// A directive ends after where it starts, within the text, and has at
/// least one argument, none of them empty.
pub proof fn lemma_directive_at(s: Seq<char>, start: int)
    ensures
        directive_at(s, start) matches Some((directive, end)) ==> 0 <= start < end <= s.len()
            && has_arguments(directive),
{
    if 0 <= start <= s.len() {
        lemma_run_end(s, start, CharClass::Alpha);
        if let Some((_, after_keyword)) = keyword_at(s, start) {
            lemma_run_end(s, after_keyword, CharClass::Blank);
            let sign = run_end(s, after_keyword, CharClass::Blank);
            if sign < s.len() {
                lemma_run_end(s, sign + 1, CharClass::Blank);
            }
            if let Some(after_separator) = separator_at(s, after_keyword) {
                lemma_argument_at(s, after_separator);
                if let Some((_, end)) = argument_at(s, after_separator) {
                    lemma_more_arguments_at(s, end);
                    lemma_run_end(s, more_arguments_at(s, end).1, CharClass::Blank);
                }
            }
        }
    }
}

/// Every directive that `directives_from` gives has at least one argument,
/// and no empty one.
pub proof fn lemma_directives_from_arguments(s: Seq<char>, start: int)
    requires
        0 <= start <= s.len(),
    ensures
        directives_from(s, start) matches Ok(directives) ==> forall|i: int|
            0 <= i < directives.len() ==> has_arguments(#[trigger] directives[i]),
    decreases s.len() - start,
{
    let at = run_end(s, start, CharClass::Space);
    lemma_run_end(s, start, CharClass::Space);
    if at < s.len() {
        lemma_directive_at(s, at);
        if let Some((_, end)) = directive_at(s, at) {
            lemma_directives_from_arguments(s, end);
        }
    }
}

/// Every directive of a text that parses has at least one argument, and no
/// empty one.
pub proof fn lemma_parsed_arguments(s: Seq<char>)
    ensures
        parse(s) matches Ok(directives) ==> forall|i: int|
            0 <= i < directives.len() ==> has_arguments(#[trigger] directives[i]),
{
    lemma_directives_from_arguments(s, 0);
}

/// `directive_views` of a sequence with one more directive.
pub proof fn lemma_directive_views_push(directives: Seq<Directive>, last: Directive)
    ensures
        directive_views(directives.push(last)) == directive_views(directives).push(last@),
{
    assert(directive_views(directives.push(last)) =~= directive_views(directives).push(last@));
}

/// Reads the keyword at `start`.
pub fn keyword_string(input: &[char], start: usize) -> (found: Option<(Keyword, usize)>)
    ensures
        match found {
            Some((keyword, end)) => keyword_at(input@, start as int) == Some(
                (keyword@, end as int),
            ),
            None => keyword_at(input@, start as int) is None,
        },
{
    let end = scan(input, start, CharClass::Alpha);
    if end > start {
        let keyword = Keyword::named(lowercase_of(input, start, end));
        Some((keyword, end))
    } else {
        None
    }
}

/// Reads the separator between keyword and arguments at `start`.
pub fn key_value_separator(input: &[char], start: usize) -> (found: Option<usize>)
    ensures
        match found {
            Some(end) => separator_at(input@, start as int) == Some(end as int),
            None => separator_at(input@, start as int) is None,
        },
{
    let sign = scan(input, start, CharClass::Blank);
    if sign < input.len() && input[sign] == '=' {
        Some(scan(input, sign + 1, CharClass::Blank))
    } else if sign > start {
        Some(sign)
    } else {
        None
    }
}

/// Reads the argument at `start`.
pub fn argument(input: &[char], start: usize) -> (found: Option<(String, usize)>)
    ensures
        match found {
            Some((text, end)) => argument_at(input@, start as int) == Some((text@, end as int)),
            None => argument_at(input@, start as int) is None,
        },
{
    if start < input.len() && input[start] == '"' {
        let close = scan(input, start + 1, CharClass::Unquoted);
        if close >= input.len() {
            return None;
        }
        if close > start + 1 {
            return Some((string_of(input, start + 1, close), close + 1));
        }
    }
    let end = scan(input, start, CharClass::Visible);
    if end > start {
        Some((string_of(input, start, end), end))
    } else {
        None
    }
}

/// Reads the arguments at `start`: one or more, with blanks between them.
pub fn arguments(input: &[char], start: usize) -> (found: Option<(Vec<String>, usize)>)
    ensures
        match found {
            Some((list, end)) => arguments_at(input@, start as int) == Some(
                (texts(list@), end as int),
            ),
            None => arguments_at(input@, start as int) is None,
        },
{
    let (first, first_end) = match argument(input, start) {
        Some(read) => read,
        None => {
            return None;
        },
    };
    proof {
        lemma_argument_at(input@, start as int);
    }
    let mut list: Vec<String> = Vec::new();
    list.push(first);
    let mut end: usize = first_end;
    assert(texts(list@) =~= seq![first@]);
    loop
        invariant
            end <= input@.len(),
            arguments_at(input@, start as int) == Some(
                (
                    texts(list@) + more_arguments_at(input@, end as int).0,
                    more_arguments_at(input@, end as int).1,
                ),
            ),
        ensures
            arguments_at(input@, start as int) == Some((texts(list@), end as int)),
        decreases input@.len() - end,
    {
        let next = scan(input, end, CharClass::Blank);
        if next == end {
            break;
        }
        match argument(input, next) {
            Some((text, text_end)) => {
                proof {
                    lemma_argument_at(input@, next as int);
                    lemma_texts_push(list@, text);
                    let rest = more_arguments_at(input@, text_end as int).0;
                    assert(texts(list@) + (seq![text@] + rest) =~= texts(list@).push(text@)
                        + rest);
                }
                list.push(text);
                end = text_end;
            },
            None => {
                break;
            },
        }
    }
    Some((list, end))
}

/// Reads the directive at `start`.
pub fn key_value(input: &[char], start: usize) -> (found: Option<(Directive, usize)>)
    ensures
        match found {
            Some((directive, end)) => directive_at(input@, start as int) == Some(
                (directive@, end as int),
            ),
            None => directive_at(input@, start as int) is None,
        },
{
    let (keyword, after_keyword) = match keyword_string(input, start) {
        Some(read) => read,
        None => {
            return None;
        },
    };
    let after_separator = match key_value_separator(input, after_keyword) {
        Some(end) => end,
        None => {
            return None;
        },
    };
    let (list, after_arguments) = match arguments(input, after_separator) {
        Some(read) => read,
        None => {
            return None;
        },
    };
    let end = scan(input, after_arguments, CharClass::Blank);
    if end >= input.len() || input[end] == '\n' || input[end] == '\r' {
        Some((Directive { keyword, arguments: list }, end))
    } else {
        None
    }
}

/// Reads the directives of `input` from `start` to its end.
pub fn directives(input: &[char], start: usize) -> (outcome: Result<Vec<Directive>, usize>)
    ensures
        match outcome {
            Ok(list) => directives_from(input@, start as int) == Ok::<_, int>(
                directive_views(list@),
            ),
            Err(position) => directives_from(input@, start as int) == Err::<Seq<DirectiveView>, _>(
                position as int,
            ) && position < input@.len(),
        },
{
    let mut list: Vec<Directive> = Vec::new();
    let mut end: usize = start;
    assert(directive_views(list@) =~= Seq::empty());
    loop
        invariant
            directives_from(input@, start as int) == match directives_from(input@, end as int) {
                Ok(rest) => Ok::<_, int>(directive_views(list@) + rest),
                Err(position) => Err(position),
            },
        decreases input@.len() - end,
    {
        let at = scan(input, end, CharClass::Space);
        if at >= input.len() {
            assert(directive_views(list@) + Seq::empty() =~= directive_views(list@));
            return Ok(list);
        }
        match key_value(input, at) {
            Some((directive, directive_end)) => {
                proof {
                    lemma_directive_at(input@, at as int);
                    lemma_directive_views_push(list@, directive);
                    if let Ok(rest) = directives_from(input@, directive_end as int) {
                        assert(directive_views(list@) + (seq![directive@] + rest)
                            =~= directive_views(list@).push(directive@) + rest);
                    }
                }
                list.push(directive);
                end = directive_end;
            },
            None => {
                return Err(at);
            },
        }
    }
}

/// Parses the whole text of a configuration file. The text is accepted only
/// if all of it is directives and whitespace; otherwise the error holds what
/// was left when the parser met something else.
pub fn ssh_config_value_parser(input: &str) -> (outcome: Result<Vec<Directive>, ParseError>)
    ensures
        match outcome {
            Ok(list) => parse(input@) == Ok::<_, int>(directive_views(list@)),
            Err(error) => parse(input@) == Err::<Seq<DirectiveView>, _>(error.offset as int)
                && error.offset < input@.len() && error.remaining@ == input@.subrange(
                error.offset as int,
                input@.len() as int,
            ),
        },
{
    let chars = to_chars(input);
    match directives(chars.as_slice(), 0) {
        Ok(list) => Ok(list),
        Err(offset) => Err(
            ParseError { offset, remaining: string_of(chars.as_slice(), offset, chars.len()) },
        ),
    }
}

} // verus!
