//! Characters and character sequences: the character classes of the
//! configuration grammar, maximal runs of a class, the code-point order of
//! strings, and the conversions between `str`, `String` and `[char]`.

use vstd::prelude::*;
use vstd::std_specs::iter::IteratorSpec;

verus! {

/// `String::push` of the standard library: the string afterwards is the
/// string before with the character appended.
pub assume_specification[ String::push ](s: &mut String, c: char)
    ensures
        final(s)@ == old(s)@.push(c),
;

/// `String::pop` of the standard library: it removes the last character of
/// the string and returns it; from an empty string it removes nothing and
/// returns `None`.
pub assume_specification[ String::pop ](s: &mut String) -> (last: Option<char>)
    ensures
        old(s)@.len() == 0 ==> last is None && final(s)@ == old(s)@,
        old(s)@.len() > 0 ==> last == Some(old(s)@.last()) && final(s)@ == old(s)@.drop_last(),
;

/// An ASCII letter.
pub open spec fn is_alpha(c: char) -> bool {
    ('a' <= c && c <= 'z') || ('A' <= c && c <= 'Z')
}

/// A space or a tab: whitespace that stays on the line.
pub open spec fn is_blank(c: char) -> bool {
    c == ' ' || c == '\t'
}

/// A line feed or a carriage return.
pub open spec fn is_line_break(c: char) -> bool {
    c == '\n' || c == '\r'
}

/// Any whitespace of the grammar: blank or line break.
pub open spec fn is_space(c: char) -> bool {
    is_blank(c) || is_line_break(c)
}

/// The lower-case form of an ASCII capital; every other character is itself.
pub open spec fn lower(c: char) -> char {
    if 'A' <= c && c <= 'Z' {
        ((c as u8) + 32) as char
    } else {
        c
    }
}

/// `lower` applied to each character.
pub open spec fn lowercase(s: Seq<char>) -> Seq<char> {
    Seq::new(s.len(), |i: int| lower(s[i]))
}

/// The sets of characters that the grammar scans runs of.
#[derive(Clone, Copy, Debug, PartialEq, Eq)]
pub enum CharClass {
    /// ASCII letters.
    Alpha,
    /// Space and tab.
    Blank,
    /// Space, tab, carriage return and line feed.
    Space,
    /// Everything that is not in `Space`.
    Visible,
    /// Everything but the double quote.
    Unquoted,
}

impl CharClass {
    /// Whether `c` belongs to the class.
    pub open spec fn holds(self, c: char) -> bool {
        match self {
            CharClass::Alpha => is_alpha(c),
            CharClass::Blank => is_blank(c),
            CharClass::Space => is_space(c),
            CharClass::Visible => !is_space(c),
            CharClass::Unquoted => c != '"',
        }
    }

    /// Decides `holds`.
    pub fn accepts(self, c: char) -> (r: bool)
        ensures
            r == self.holds(c),
    {
        match self {
            CharClass::Alpha => ('a' <= c && c <= 'z') || ('A' <= c && c <= 'Z'),
            CharClass::Blank => c == ' ' || c == '\t',
            CharClass::Space => c == ' ' || c == '\t' || c == '\n' || c == '\r',
            CharClass::Visible => !(c == ' ' || c == '\t' || c == '\n' || c == '\r'),
            CharClass::Unquoted => c != '"',
        }
    }
}

/// Where the longest run of `class` characters that begins at `start` ends:
/// the first position from `start` on that is past the end of `s` or holds a
/// character outside the class.
pub open spec fn run_end(s: Seq<char>, start: int, class: CharClass) -> int
    decreases s.len() - start,
{
    if 0 <= start < s.len() && class.holds(s[start]) {
        run_end(s, start + 1, class)
    } else {
        start
    }
}

/// `run_end` stays within the sequence, everything before it belongs to the
/// class, and the character at it, if there is one, does not.
pub proof fn lemma_run_end(s: Seq<char>, start: int, class: CharClass)
    requires
        0 <= start <= s.len(),
    ensures
        start <= run_end(s, start, class) <= s.len(),
        forall|i: int| start <= i < run_end(s, start, class) ==> class.holds(#[trigger] s[i]),
        run_end(s, start, class) < s.len() ==> !class.holds(s[run_end(s, start, class)]),
    decreases s.len() - start,
{
    if start < s.len() && class.holds(s[start]) {
        lemma_run_end(s, start + 1, class);
    }
}

/// Any position that has only class characters between `start` and itself and
/// stops at the end or at a character outside the class is `run_end`.
pub proof fn lemma_run_end_is(s: Seq<char>, start: int, class: CharClass, end: int)
    requires
        0 <= start <= end <= s.len(),
        forall|i: int| start <= i < end ==> class.holds(#[trigger] s[i]),
        end < s.len() ==> !class.holds(s[end]),
    ensures
        run_end(s, start, class) == end,
    decreases end - start,
{
    if start < end {
        lemma_run_end_is(s, start + 1, class, end);
    }
}

/// Scans the longest run of `class` characters from `start`.
pub fn scan(input: &[char], start: usize, class: CharClass) -> (end: usize)
    ensures
        end == run_end(input@, start as int, class),
        start <= end,
        start <= input@.len() ==> end <= input@.len(),
{
    let mut end: usize = start;
    while end < input.len() && class.accepts(input[end])
        invariant
            start <= end,
            start <= input@.len() ==> end <= input@.len(),
            run_end(input@, start as int, class) == run_end(input@, end as int, class),
        decreases input@.len() - end,
    {
        end += 1;
    }
    end
}

/// The character sequences of a sequence of strings.
pub open spec fn texts(strings: Seq<String>) -> Seq<Seq<char>> {
    strings.map_values(|s: String| s@)
}

/// `texts` of a sequence with one more string.
pub proof fn lemma_texts_push(strings: Seq<String>, last: String)
    ensures
        texts(strings.push(last)) == texts(strings).push(last@),
{
    assert(texts(strings.push(last)) =~= texts(strings).push(last@));
}

/// The characters of a string slice, in order.
pub fn to_chars(text: &str) -> (chars: Vec<char>)
    ensures
        chars@ == text@,
{
    let mut chars: Vec<char> = Vec::new();
    for c in it: text.chars()
        invariant
            chars@ == it.seq().take(it.index()),
            it.seq() == text@,
    {
        chars.push(c);
    }
    chars
}

/// The string made of `input[from..to]`.
pub fn string_of(input: &[char], from: usize, to: usize) -> (s: String)
    requires
        from <= to <= input@.len(),
    ensures
        s@ == input@.subrange(from as int, to as int),
{
    let mut s = String::new();
    let mut i: usize = from;
    while i < to
        invariant
            from <= i <= to <= input@.len(),
            s@ == input@.subrange(from as int, i as int),
        decreases to - i,
    {
        s.push(input[i]);
        i += 1;
    }
    s
}

/// The string made of `input[from..to]` with ASCII capitals in lower case.
pub fn lowercase_of(input: &[char], from: usize, to: usize) -> (s: String)
    requires
        from <= to <= input@.len(),
    ensures
        s@ == lowercase(input@.subrange(from as int, to as int)),
{
    let mut s = String::new();
    let mut i: usize = from;
    while i < to
        invariant
            from <= i <= to <= input@.len(),
            s@ == lowercase(input@.subrange(from as int, i as int)),
        decreases to - i,
    {
        let c = input[i];
        let l = if 'A' <= c && c <= 'Z' {
            ((c as u8) + 32) as char
        } else {
            c
        };
        s.push(l);
        i += 1;
        assert(s@ =~= lowercase(input@.subrange(from as int, i as int)));
    }
    s
}

/// `a` and `b` agree before position `at`, and there `a` ends while `b` goes
/// on, or `a` holds the smaller code point.
pub open spec fn precedes_at(a: Seq<char>, b: Seq<char>, at: int) -> bool {
    &&& 0 <= at <= a.len()
    &&& at < b.len()
    &&& forall|i: int| 0 <= i < at ==> a[i] == b[i]
    &&& (at < a.len() ==> a[at] < b[at])
}

/// The strict lexicographic order of strings by code point, which is the
/// order of `str` and `String`.
pub open spec fn precedes(a: Seq<char>, b: Seq<char>) -> bool {
    exists|at: int| precedes_at(a, b, at)
}

/// No string precedes itself.
pub proof fn lemma_precedes_irreflexive(a: Seq<char>)
    ensures
        !precedes(a, a),
{
}

/// `precedes` is transitive.
pub proof fn lemma_precedes_transitive(a: Seq<char>, b: Seq<char>, c: Seq<char>)
    requires
        precedes(a, b),
        precedes(b, c),
    ensures
        precedes(a, c),
{
    let p = choose|at: int| precedes_at(a, b, at);
    let q = choose|at: int| precedes_at(b, c, at);
    let r = if p <= q {
        p
    } else {
        q
    };
    assert(precedes_at(a, c, r));
}

/// Of two strings, neither precedes the other only if they are the same.
pub proof fn lemma_precedes_total(a: Seq<char>, b: Seq<char>)
    ensures
        a == b || precedes(a, b) || precedes(b, a),
{
    lemma_first_difference(a, b, 0);
}

/// Two strings that agree on their first `n` characters are the same, or one
/// precedes the other.
proof fn lemma_first_difference(a: Seq<char>, b: Seq<char>, n: int)
    requires
        0 <= n <= a.len(),
        n <= b.len(),
        forall|i: int| 0 <= i < n ==> a[i] == b[i],
    ensures
        a == b || precedes(a, b) || precedes(b, a),
    decreases a.len() - n,
{
    if n == a.len() {
        if n == b.len() {
            assert(a =~= b);
        } else {
            assert(precedes_at(a, b, n));
        }
    } else if n == b.len() {
        assert(precedes_at(b, a, n));
    } else if a[n] < b[n] {
        assert(precedes_at(a, b, n));
    } else if b[n] < a[n] {
        assert(precedes_at(b, a, n));
    } else {
        lemma_first_difference(a, b, n + 1);
    }
}

/// If one string precedes another, the other does not precede it.
pub proof fn lemma_precedes_asymmetric(a: Seq<char>, b: Seq<char>)
    requires
        precedes(a, b),
    ensures
        !precedes(b, a),
{
    if precedes(b, a) {
        lemma_precedes_transitive(a, b, a);
        lemma_precedes_irreflexive(a);
    }
}

/// How one string stands to another in the order of `precedes`.
#[derive(Clone, Copy, Debug, PartialEq, Eq)]
pub enum Rank {
    /// The first string precedes the second.
    Before,
    /// The two strings hold the same characters.
    Same,
    /// The second string precedes the first.
    After,
}

/// How `a` stands to `b`.
pub open spec fn rank_of(a: Seq<char>, b: Seq<char>) -> Rank {
    if precedes(a, b) {
        Rank::Before
    } else if a == b {
        Rank::Same
    } else {
        Rank::After
    }
}

/// Compares two strings by code point.
pub fn rank(a: &str, b: &str) -> (r: Rank)
    ensures
        r == rank_of(a@, b@),
{
    proof {
        lemma_precedes_irreflexive(a@);
        if precedes(a@, b@) {
            lemma_precedes_asymmetric(a@, b@);
        }
        if precedes(b@, a@) {
            lemma_precedes_asymmetric(b@, a@);
        }
    }
    let mut left = a.chars();
    let mut right = b.chars();
    let ghost mut n: int = 0;
    loop
        invariant
            0 <= n <= a@.len(),
            n <= b@.len(),
            left.remaining() == a@.skip(n),
            right.remaining() == b@.skip(n),
            forall|i: int| 0 <= i < n ==> a@[i] == b@[i],
        decreases a@.len() - n,
    {
        let x = left.next();
        let y = right.next();
        match (x, y) {
            (None, None) => {
                assert(a@ =~= b@);
                return Rank::Same;
            },
            (None, Some(_)) => {
                assert(precedes_at(a@, b@, n));
                return Rank::Before;
            },
            (Some(_), None) => {
                assert(precedes_at(b@, a@, n));
                return Rank::After;
            },
            (Some(p), Some(q)) => {
                if p < q {
                    assert(precedes_at(a@, b@, n));
                    return Rank::Before;
                }
                if q < p {
                    assert(precedes_at(b@, a@, n));
                    return Rank::After;
                }
            },
        }
        proof {
            assert(a@.skip(n).drop_first() =~= a@.skip(n + 1));
            assert(b@.skip(n).drop_first() =~= b@.skip(n + 1));
            n = n + 1;
        }
    }
}

/// The characters of `hay` from position `at` on are those of `needle`.
pub open spec fn occurs_at(needle: Seq<char>, hay: Seq<char>, at: int) -> bool {
    &&& 0 <= at
    &&& at + needle.len() <= hay.len()
    &&& forall|i: int| 0 <= i < needle.len() ==> hay[at + i] == #[trigger] needle[i]
}

/// `needle` occurs somewhere in `hay`. The empty string occurs in every
/// string.
pub open spec fn is_substring(needle: Seq<char>, hay: Seq<char>) -> bool {
    exists|at: int| occurs_at(needle, hay, at)
}

/// `str::contains` of the standard library, with a string slice for the
/// pattern: whether `needle` matches a sub-slice of `hay`, that is, whether
/// its characters stand somewhere in `hay` one after the other. The contract
/// is taken on trust from the documentation of the standard library.
#[verifier::external_body]
pub(crate) fn str_contains(hay: &str, needle: &str) -> (found: bool)
    ensures
        found == is_substring(needle@, hay@),
{
    hay.contains(needle)
}

} // verus!
