//! The grammar, over sequences of characters.
//!
//! Each definition says what one parser makes of a text: what it reads,
//! what it leaves, and which mismatch it reports. The definitions of lists
//! and of the whole build description call themselves on what is left, so
//! each comes with the fact that what is left is shorter.
use vstd::prelude::*;
use crate::error::{Context, Expected, Trace};
use crate::types::{Assignment, MakefileView, RuleView, VariableView};

verus! {

/// A sequence of characters: what a piece of text holds.
pub type Text = Seq<char>;

/// What a parser makes of a text: what is left of the text and what was
/// read, or the chain of expectations that failed.
pub type Parsed<T> = Result<(Text, T), Trace>;

/// A set of characters that a run of text is made of.
#[derive(Debug, PartialEq, Eq, Clone, Copy)]
pub enum CharClass {
    /// A space or a tab.
    Blank,
    /// What may stand in the name of a variable.
    VariableName,
    /// What may stand in the name of a target or of a prerequisite.
    Target,
    /// Anything but a carriage return or a line feed.
    Line,
}

/// A space or a tab.
pub open spec fn is_blank(c: char) -> bool {
    c == ' ' || c == '\t'
}

/// A carriage return or a line feed.
pub open spec fn is_line_break(c: char) -> bool {
    c == '\r' || c == '\n'
}

/// Whether `c` may stand in the name of a variable: anything but
/// `:`, `#`, `=`, `!`, `?`, a blank or a line break.
pub open spec fn variable_name_char(c: char) -> bool {
    !(c == ':' || c == '#' || c == '=' || c == '!' || c == '?' || is_blank(c) || is_line_break(c))
}

/// Whether `c` may stand in the name of a target: anything but
/// `#`, `%`, `:`, `|`, `"`, `<`, `>`, a blank or a line break.
pub open spec fn target_char(c: char) -> bool {
    !(c == '#' || c == '%' || c == ':' || c == '|' || c == '"' || c == '<' || c == '>'
        || is_blank(c) || is_line_break(c))
}

impl CharClass {
    /// Whether `c` belongs to the class.
    pub open spec fn has(self, c: char) -> bool {
        match self {
            CharClass::Blank => is_blank(c),
            CharClass::VariableName => variable_name_char(c),
            CharClass::Target => target_char(c),
            CharClass::Line => !is_line_break(c),
        }
    }
}

/// The length of the longest prefix of `s` made of characters of `class`.
pub open spec fn span(s: Text, class: CharClass) -> nat
    decreases s.len(),
{
    if s.len() > 0 && class.has(s[0]) {
        1 + span(s.drop_first(), class)
    } else {
        0
    }
}

/// Whether every character of `s` belongs to `class`.
pub open spec fn all_of(s: Text, class: CharClass) -> bool {
    forall|j: int| 0 <= j < s.len() ==> class.has(#[trigger] s[j])
}

/// Whether `s` is empty or starts with a character outside `class`.
pub open spec fn stops(s: Text, class: CharClass) -> bool {
    s.len() > 0 ==> !class.has(s[0])
}

/// `span` is the one length up to which every character belongs to the
/// class and at which the text ends or a character outside the class stands.
pub proof fn lemma_span_is(s: Text, class: CharClass, n: int)
    requires
        0 <= n <= s.len(),
        forall|j: int| 0 <= j < n ==> class.has(#[trigger] s[j]),
        n < s.len() ==> !class.has(s[n]),
    ensures
        span(s, class) == n,
    decreases s.len(),
{
    if n > 0 {
        let t = s.drop_first();
        assert forall|j: int| 0 <= j < n - 1 implies class.has(#[trigger] t[j]) by {
            assert(t[j] == s[j + 1]);
        }
        lemma_span_is(t, class, n - 1);
    }
}

/// What `span` returns: see `lemma_span_is`. It cuts the text into a run
/// of characters of the class and a text that does not go on with one.
pub proof fn lemma_span(s: Text, class: CharClass)
    ensures
        span(s, class) <= s.len(),
        forall|j: int| 0 <= j < span(s, class) ==> class.has(#[trigger] s[j]),
        span(s, class) < s.len() ==> !class.has(s[span(s, class) as int]),
        all_of(s.take(span(s, class) as int), class),
        stops(s.skip(span(s, class) as int), class),
        s.take(span(s, class) as int) + s.skip(span(s, class) as int) == s,
    decreases s.len(),
{
    let n = span(s, class) as int;
    if s.len() > 0 && class.has(s[0]) {
        let t = s.drop_first();
        lemma_span(t, class);
        assert forall|j: int| 0 <= j < span(s, class) implies class.has(#[trigger] s[j]) by {
            if j > 0 {
                assert(s[j] == t[j - 1]);
            }
        }
        if span(s, class) < s.len() {
            assert(s[span(s, class) as int] == t[span(t, class) as int]);
        }
    }
    assert(n <= s.len());
    assert(s.take(n) + s.skip(n) =~= s);
}

/// `r` with `before` in front of the items that it read.
pub open spec fn prepend<T>(before: Seq<T>, r: Parsed<Seq<T>>) -> Parsed<Seq<T>> {
    match r {
        Err(e) => Err(e),
        Ok((rest, items)) => Ok((rest, before + items)),
    }
}

/// The failure of one expectation at `s`.
pub open spec fn mismatch(s: Text, expected: Expected) -> Trace {
    seq![(s, expected)]
}

/// `s` without the blanks it starts with.
pub open spec fn after_blanks(s: Text) -> Text {
    s.skip(span(s, CharClass::Blank) as int)
}

/// The fixed text `t` at the start of `s`.
pub open spec fn tag(s: Text, t: Text) -> Parsed<Text> {
    if t.is_prefix_of(s) {
        Ok((s.skip(t.len() as int), t))
    } else {
        Err(mismatch(s, Expected::Tag))
    }
}

/// A text starts with the one character `c` where `c` is its first.
pub proof fn lemma_tag_char(s: Text, c: char)
    ensures
        seq![c].is_prefix_of(s) <==> s.len() > 0 && s[0] == c,
{
    if s.len() > 0 && s[0] == c {
        assert(seq![c] =~= s.subrange(0, 1));
    }
    if seq![c].is_prefix_of(s) {
        assert(s.subrange(0, 1)[0] == c);
    }
}

/// The length of the line ending that `s` starts with: 1 for a line feed,
/// 2 for a carriage return and a line feed, 0 where `s` starts with neither.
pub open spec fn line_break_len(s: Text) -> nat {
    if s.len() >= 1 && s[0] == '\n' {
        1
    } else if s.len() >= 2 && s[0] == '\r' && s[1] == '\n' {
        2
    } else {
        0
    }
}

/// A text starts with a line feed, or with a carriage return and a line
/// feed, exactly where `line_break_len` says so.
pub proof fn lemma_tag_line_ending(s: Text)
    ensures
        seq!['\n'].is_prefix_of(s) <==> line_break_len(s) == 1,
        !seq!['\n'].is_prefix_of(s) ==> (seq!['\r', '\n'].is_prefix_of(s) <==> line_break_len(s)
            == 2),
        line_break_len(s) == 1 ==> s.take(1) == seq!['\n'],
        line_break_len(s) == 2 ==> s.take(2) == seq!['\r', '\n'],
{
    lemma_tag_char(s, '\n');
    if line_break_len(s) == 1 {
        assert(s.take(1) =~= seq!['\n']);
    }
    if s.len() >= 2 && s[0] == '\r' && s[1] == '\n' {
        assert(seq!['\r', '\n'] =~= s.subrange(0, 2));
        assert(s.take(2) =~= seq!['\r', '\n']);
    }
    if seq!['\r', '\n'].is_prefix_of(s) {
        assert(s.subrange(0, 2)[0] == '\r');
        assert(s.subrange(0, 2)[1] == '\n');
    }
}

/// One line ending at the start of `s`.
pub open spec fn line_ending(s: Text) -> Parsed<Text> {
    let n = line_break_len(s) as int;
    if n > 0 {
        Ok((s.skip(n), s.take(n)))
    } else {
        Err(mismatch(s, Expected::CrLf))
    }
}

/// The rest of the line that `s` starts with, up to its line ending or to
/// the end of the text. A carriage return that no line feed follows is
/// not accepted.
pub open spec fn not_line_ending(s: Text) -> Parsed<Text> {
    let n = span(s, CharClass::Line) as int;
    if n < s.len() && s[n] == '\r' && line_break_len(s.skip(n)) == 0 {
        Err(mismatch(s, Expected::Tag))
    } else {
        Ok((s.skip(n), s.take(n)))
    }
}

/// `s` without the line endings it starts with.
pub open spec fn after_line_endings(s: Text) -> Text
    decreases s.len(),
{
    if line_break_len(s) > 0 {
        after_line_endings(s.skip(line_break_len(s) as int))
    } else {
        s
    }
}

/// An assignment operator at the start of `s`: `=`, `+=`, `?=`, `!=`, `:=`
/// or `::=`. None of them starts with another, so at most one matches.
pub open spec fn assignment_op(s: Text) -> Parsed<Assignment> {
    if seq!['='].is_prefix_of(s) {
        Ok((s.skip(1), Assignment::Recursive))
    } else if seq!['+', '='].is_prefix_of(s) {
        Ok((s.skip(2), Assignment::Append))
    } else if seq!['?', '='].is_prefix_of(s) {
        Ok((s.skip(2), Assignment::Conditional))
    } else if seq!['!', '='].is_prefix_of(s) {
        Ok((s.skip(2), Assignment::Shell))
    } else if seq![':', '='].is_prefix_of(s) {
        Ok((s.skip(2), Assignment::Simple))
    } else if seq![':', ':', '='].is_prefix_of(s) {
        Ok((s.skip(3), Assignment::Simple))
    } else {
        Err(mismatch(s, Expected::Tag).push((s, Expected::Alt)))
    }
}

/// Whether a line is continued on the next one.
pub open spec fn is_continued(line: Text) -> bool {
    line.len() > 0 && line.last() == '\\'
}

/// The lines that continue a value whose last line so far is `prev`. Where
/// `prev` is continued, a line ending must follow; the blanks that the
/// next line starts with are dropped and the rest of it is the next
/// fragment.
pub open spec fn continuation_lines(s: Text, prev: Text) -> Parsed<Seq<Text>>
    decreases s.len(),
    via continuation_lines_decreases
{
    if !is_continued(prev) {
        Ok((s, seq![]))
    } else if line_break_len(s) == 0 {
        Err(mismatch(s, Expected::CrLf))
    } else {
        match not_line_ending(after_blanks(s.skip(line_break_len(s) as int))) {
            Err(e) => Err(e),
            Ok((s1, line)) => match continuation_lines(s1, line) {
                Err(e) => Err(e),
                Ok((rest, more)) => Ok((rest, seq![line] + more)),
            },
        }
    }
}

#[via_fn]
proof fn continuation_lines_decreases(s: Text, prev: Text) {
    if is_continued(prev) && line_break_len(s) > 0 {
        let s0 = s.skip(line_break_len(s) as int);
        lemma_span(s0, CharClass::Blank);
        lemma_span(after_blanks(s0), CharClass::Line);
    }
}

/// `after_line_endings` drops a prefix.
pub proof fn lemma_after_line_endings_len(s: Text)
    ensures
        after_line_endings(s).len() <= s.len(),
        line_break_len(after_line_endings(s)) == 0,
    decreases s.len(),
{
    if line_break_len(s) > 0 {
        lemma_after_line_endings_len(s.skip(line_break_len(s) as int));
    }
}

/// What `not_line_ending` leaves is no longer than what it was given, and
/// what it reads holds no line break.
pub proof fn lemma_not_line_ending_len(s: Text)
    ensures
        match not_line_ending(s) {
            Ok((rest, line)) => {
                &&& rest.len() + line.len() == s.len()
                &&& line + rest == s
                &&& all_of(line, CharClass::Line)
            },
            Err(_) => true,
        },
{
    lemma_span(s, CharClass::Line);
    let n = span(s, CharClass::Line) as int;
    assert(s.take(n) + s.skip(n) =~= s);
}

/// `continuation_lines` drops a prefix.
pub proof fn lemma_continuation_lines_len(s: Text, prev: Text)
    ensures
        match continuation_lines(s, prev) {
            Ok((rest, _)) => rest.len() <= s.len(),
            Err(_) => true,
        },
    decreases s.len(),
{
    if is_continued(prev) && line_break_len(s) > 0 {
        let s0 = s.skip(line_break_len(s) as int);
        lemma_span(s0, CharClass::Blank);
        lemma_not_line_ending_len(after_blanks(s0));
        match not_line_ending(after_blanks(s0)) {
            Ok((s1, line)) => {
                lemma_continuation_lines_len(s1, line);
            },
            Err(_) => {},
        }
    }
}

/// A variable assignment: a name, an assignment operator with blanks
/// around it, and the value. The value runs to the end of the line and,
/// as long as a line is continued, over the next line too. The line endings
/// that follow are dropped.
pub open spec fn variable(s: Text) -> Parsed<VariableView> {
    let n = span(s, CharClass::VariableName) as int;
    match assignment_op(after_blanks(s.skip(n))) {
        Err(e) => Err(e),
        Ok((s1, kind)) => match not_line_ending(after_blanks(s1)) {
            Err(e) => Err(e),
            Ok((s2, first)) => match continuation_lines(s2, first) {
                Err(e) => Err(e),
                Ok((s3, more)) => Ok(
                    (
                        after_line_endings(s3),
                        VariableView {
                            name: s.take(n),
                            assignment: kind,
                            value: seq![first] + more,
                        },
                    ),
                ),
            },
        },
    }
}

/// A variable assignment takes at least its operator from the text.
pub proof fn lemma_variable_consumes(s: Text)
    ensures
        match variable(s) {
            Ok((rest, v)) => rest.len() < s.len() && v.value.len() >= 1,
            Err(_) => true,
        },
{
    let n = span(s, CharClass::VariableName) as int;
    lemma_span(s, CharClass::VariableName);
    lemma_span(s.skip(n), CharClass::Blank);
    match assignment_op(after_blanks(s.skip(n))) {
        Err(e) => {},
        Ok((s1, kind)) => {
            lemma_span(s1, CharClass::Blank);
            lemma_not_line_ending_len(after_blanks(s1));
            match not_line_ending(after_blanks(s1)) {
                Err(e) => {},
                Ok((s2, first)) => {
                    lemma_continuation_lines_len(s2, first);
                    match continuation_lines(s2, first) {
                        Err(e) => {},
                        Ok((s3, more)) => {
                            lemma_after_line_endings_len(s3);
                        },
                    }
                },
            }
        },
    }
}

/// One line of a comment: a `#`, the rest of the line, and the line endings
/// that follow. Returns what is left.
pub open spec fn comment_line(s: Text) -> Result<Text, Trace> {
    if s.len() > 0 && s[0] == '#' {
        match not_line_ending(s.skip(1)) {
            Err(e) => Err(e),
            Ok((rest, _)) => Ok(after_line_endings(rest)),
        }
    } else {
        Err(mismatch(s, Expected::Tag))
    }
}

/// A line of a comment takes at least its `#` from the text.
pub proof fn lemma_comment_line_consumes(s: Text)
    ensures
        match comment_line(s) {
            Ok(rest) => rest.len() < s.len(),
            Err(_) => true,
        },
{
    if s.len() > 0 && s[0] == '#' {
        lemma_not_line_ending_len(s.skip(1));
        match not_line_ending(s.skip(1)) {
            Err(e) => {},
            Ok((rest, _)) => {
                lemma_after_line_endings_len(rest);
            },
        }
    }
}

/// `s` without the comment lines it starts with.
pub open spec fn after_comment_lines(s: Text) -> Text
    decreases s.len(),
    via after_comment_lines_decreases
{
    match comment_line(s) {
        Ok(rest) => after_comment_lines(rest),
        Err(_) => s,
    }
}

#[via_fn]
proof fn after_comment_lines_decreases(s: Text) {
    lemma_comment_line_consumes(s);
}

/// A comment: one or more lines that each start with `#`. Nothing is kept
/// of it.
pub open spec fn comment(s: Text) -> Parsed<Text> {
    match comment_line(s) {
        Err(e) => Err(e.push((s, Expected::Many1))),
        Ok(rest) => Ok((after_comment_lines(rest), Seq::empty())),
    }
}

/// `after_comment_lines` drops a prefix.
pub proof fn lemma_after_comment_lines_len(s: Text)
    ensures
        after_comment_lines(s).len() <= s.len(),
    decreases s.len(),
{
    lemma_comment_line_consumes(s);
    match comment_line(s) {
        Ok(rest) => {
            lemma_after_comment_lines_len(rest);
        },
        Err(_) => {},
    }
}

/// The name of one target, with blanks before and after it. Where no name
/// stands there, the failure is reported behind the blanks.
pub open spec fn target_name(s: Text) -> Parsed<Text> {
    let s1 = after_blanks(s);
    let n = span(s1, CharClass::Target) as int;
    let rest = after_blanks(s1.skip(n));
    if n == 0 {
        Err(mismatch(rest, Expected::Eof))
    } else {
        Ok((rest, s1.take(n)))
    }
}

/// A target name takes at least one character from the text.
pub proof fn lemma_target_name_consumes(s: Text)
    ensures
        match target_name(s) {
            Ok((rest, name)) => rest.len() < s.len() && name.len() > 0,
            Err(_) => true,
        },
{
    let s1 = after_blanks(s);
    lemma_span(s, CharClass::Blank);
    lemma_span(s1, CharClass::Target);
    lemma_span(s1.skip(span(s1, CharClass::Target) as int), CharClass::Blank);
}

/// The names of targets that `s` starts with, as many as there are.
pub open spec fn target_names(s: Text) -> (Text, Seq<Text>)
    decreases s.len(),
    via target_names_decreases
{
    match target_name(s) {
        Err(_) => (s, seq![]),
        Ok((s1, name)) => {
            let (rest, more) = target_names(s1);
            (rest, seq![name] + more)
        },
    }
}

#[via_fn]
proof fn target_names_decreases(s: Text) {
    lemma_target_name_consumes(s);
}

/// The targets of a rule: one name or more.
pub open spec fn target_list(s: Text) -> Parsed<Seq<Text>> {
    match target_name(s) {
        Err(e) => Err(e.push((s, Expected::Many1))),
        Ok(_) => Ok(target_names(s)),
    }
}

/// `s` without the backslash and line ending that it may start with.
pub open spec fn after_line_join(s: Text) -> Text {
    if s.len() > 0 && s[0] == '\\' && line_break_len(s.skip(1)) > 0 {
        s.skip(1 + line_break_len(s.skip(1)) as int)
    } else {
        s
    }
}

/// The name of one prerequisite, with blanks before and after it. A
/// backslash and a line ending behind it are dropped. Where no name stands
/// there, the list has ended.
pub open spec fn prereq(s: Text) -> Parsed<Text> {
    let s1 = after_blanks(s);
    let n = span(s1, CharClass::Target) as int;
    let rest = after_line_join(after_blanks(s1.skip(n)));
    if n == 0 {
        Err(mismatch(rest, Expected::Eof))
    } else {
        Ok((rest, s1.take(n)))
    }
}

/// The name of a prerequisite takes at least one character from the text.
pub proof fn lemma_prereq_consumes(s: Text)
    ensures
        match prereq(s) {
            Ok((rest, name)) => rest.len() < s.len() && name.len() > 0,
            Err(_) => true,
        },
{
    let s1 = after_blanks(s);
    lemma_span(s, CharClass::Blank);
    lemma_span(s1, CharClass::Target);
    lemma_span(s1.skip(span(s1, CharClass::Target) as int), CharClass::Blank);
}

/// The prerequisites of a rule: the names that `s` starts with, as many as
/// there are.
pub open spec fn prereq_list(s: Text) -> (Text, Seq<Text>)
    decreases s.len(),
    via prereq_list_decreases
{
    match prereq(s) {
        Err(_) => (s, seq![]),
        Ok((s1, name)) => {
            let (rest, more) = prereq_list(s1);
            (rest, seq![name] + more)
        },
    }
}

#[via_fn]
proof fn prereq_list_decreases(s: Text) {
    lemma_prereq_consumes(s);
}

/// One line of a recipe: at least one blank, the rest of the line, and the
/// line endings that follow. Where the rest of the line is not accepted
/// (`not_line_ending`), the line is empty and the text stays behind the
/// blanks.
pub open spec fn recipe_line(s: Text) -> Parsed<Text> {
    let n = span(s, CharClass::Blank) as int;
    if n == 0 {
        Err(mismatch(s, Expected::Space))
    } else {
        match not_line_ending(s.skip(n)) {
            Ok((rest, line)) => Ok((after_line_endings(rest), line)),
            Err(_) => Ok((after_line_endings(s.skip(n)), Seq::empty())),
        }
    }
}

/// A line of a recipe takes at least one blank from the text.
pub proof fn lemma_recipe_line_consumes(s: Text)
    ensures
        match recipe_line(s) {
            Ok((rest, _)) => rest.len() < s.len(),
            Err(_) => true,
        },
{
    let n = span(s, CharClass::Blank) as int;
    lemma_span(s, CharClass::Blank);
    if n > 0 {
        lemma_not_line_ending_len(s.skip(n));
        lemma_after_line_endings_len(s.skip(n));
        match not_line_ending(s.skip(n)) {
            Ok((rest, line)) => {
                lemma_after_line_endings_len(rest);
            },
            Err(_) => {},
        }
    }
}

/// The recipe of a rule: the recipe lines that `s` starts with, as many as
/// there are.
pub open spec fn recipes(s: Text) -> (Text, Seq<Text>)
    decreases s.len(),
    via recipes_decreases
{
    match recipe_line(s) {
        Err(_) => (s, seq![]),
        Ok((s1, line)) => {
            let (rest, more) = recipes(s1);
            (rest, seq![line] + more)
        },
    }
}

#[via_fn]
proof fn recipes_decreases(s: Text) {
    lemma_recipe_line_consumes(s);
}

/// A rule: its targets, a `:` with blanks around it, its prerequisites, a
/// line ending, and its recipe.
pub open spec fn rule(s: Text) -> Parsed<RuleView> {
    match target_list(s) {
        Err(e) => Err(e.push((s, Expected::Context(Context::Target)))),
        Ok((s1, targets)) => {
            let s2 = after_blanks(s1);
            if s2.len() > 0 && s2[0] == ':' {
                let (s3, prerequisites) = prereq_list(after_blanks(s2.skip(1)));
                match line_ending(s3) {
                    Err(e) => Err(e),
                    Ok((s4, _)) => {
                        let (rest, recipe) = recipes(s4);
                        Ok((rest, RuleView { targets, prerequisites, recipe }))
                    },
                }
            } else {
                Err(
                    mismatch(s2, Expected::Tag).push((s2, Expected::Context(Context::Delimiter))),
                )
            }
        },
    }
}

/// The lists drop a prefix.
pub proof fn lemma_lists_len(s: Text)
    ensures
        target_names(s).0.len() <= s.len(),
        prereq_list(s).0.len() <= s.len(),
        recipes(s).0.len() <= s.len(),
    decreases s.len(),
{
    lemma_target_name_consumes(s);
    lemma_prereq_consumes(s);
    lemma_recipe_line_consumes(s);
    match target_name(s) {
        Ok((s1, _)) => {
            lemma_lists_len(s1);
        },
        Err(_) => {},
    }
    match prereq(s) {
        Ok((s1, _)) => {
            lemma_lists_len(s1);
        },
        Err(_) => {},
    }
    match recipe_line(s) {
        Ok((s1, _)) => {
            lemma_lists_len(s1);
        },
        Err(_) => {},
    }
}

/// A rule takes at least its first target from the text, and has one.
pub proof fn lemma_rule_consumes(s: Text)
    ensures
        match rule(s) {
            Ok((rest, r)) => rest.len() < s.len() && r.targets.len() >= 1,
            Err(_) => true,
        },
{
    lemma_target_name_consumes(s);
    match target_name(s) {
        Err(_) => {},
        Ok((s0, _)) => {
            lemma_lists_len(s0);
            let s1 = target_names(s).0;
            lemma_span(s1, CharClass::Blank);
            let s2 = after_blanks(s1);
            if s2.len() > 0 && s2[0] == ':' {
                lemma_span(s2.skip(1), CharClass::Blank);
                lemma_lists_len(after_blanks(s2.skip(1)));
                let s3 = prereq_list(after_blanks(s2.skip(1))).0;
                if line_break_len(s3) > 0 {
                    lemma_lists_len(s3.skip(line_break_len(s3) as int));
                }
            }
        },
    }
}

/// A build description with nothing in it.
pub open spec fn empty_makefile() -> MakefileView {
    MakefileView { variables: seq![], rules: seq![] }
}

/// `m` with the variables and rules of `before` in front of its own.
pub open spec fn preceded_by(before: MakefileView, m: Parsed<MakefileView>) -> Parsed<
    MakefileView,
> {
    match m {
        Err(e) => Err(e),
        Ok((rest, m)) => Ok(
            (
                rest,
                MakefileView {
                    variables: before.variables + m.variables,
                    rules: before.rules + m.rules,
                },
            ),
        ),
    }
}

/// A whole build description. At each place the text is, in this order of
/// preference, a line ending, a comment, a variable assignment or a rule.
/// Where it is none of them, the failure of the rule is reported. Nothing
/// is left of a text that was accepted.
pub open spec fn makefile(s: Text) -> Parsed<MakefileView>
    decreases s.len(),
    via makefile_decreases
{
    if s.len() == 0 {
        Ok((s, empty_makefile()))
    } else if line_break_len(s) > 0 {
        makefile(s.skip(line_break_len(s) as int))
    } else {
        match comment(s) {
            Ok((s1, _)) => makefile(s1),
            Err(_) => match variable(s) {
                Ok((s1, v)) => preceded_by(
                    MakefileView { variables: seq![v], rules: seq![] },
                    makefile(s1),
                ),
                Err(_) => match rule(s) {
                    Ok((s1, r)) => preceded_by(
                        MakefileView { variables: seq![], rules: seq![r] },
                        makefile(s1),
                    ),
                    Err(e) => Err(e),
                },
            },
        }
    }
}

/// Whether `m` can come of a text: each of its variables has a fragment
/// and each of its rules a target.
pub open spec fn is_parsed(m: MakefileView) -> bool {
    &&& forall|k: int| 0 <= k < m.variables.len() ==> (#[trigger] m.variables[k]).value.len() >= 1
    &&& forall|k: int| 0 <= k < m.rules.len() ==> (#[trigger] m.rules[k]).targets.len() >= 1
}

/// Of a build description that is accepted nothing is left, each of its
/// variables has a fragment and each of its rules a target.
pub proof fn lemma_makefile_result(s: Text)
    ensures
        match makefile(s) {
            Ok((rest, m)) => rest.len() == 0 && is_parsed(m),
            Err(_) => true,
        },
    decreases s.len(),
{
    lemma_comment_line_consumes(s);
    lemma_variable_consumes(s);
    lemma_rule_consumes(s);
    if s.len() > 0 && line_break_len(s) > 0 {
        lemma_makefile_result(s.skip(line_break_len(s) as int));
    } else if s.len() > 0 {
        match comment(s) {
            Ok((s1, _)) => {
                lemma_after_comment_lines_len(comment_line(s)->Ok_0);
                lemma_makefile_result(s1);
            },
            Err(_) => match variable(s) {
                Ok((s1, v)) => {
                    lemma_makefile_result(s1);
                },
                Err(_) => match rule(s) {
                    Ok((s1, r)) => {
                        lemma_makefile_result(s1);
                    },
                    Err(e) => {},
                },
            },
        }
    }
}

#[via_fn]
proof fn makefile_decreases(s: Text) {
    lemma_comment_line_consumes(s);
    match comment_line(s) {
        Ok(rest) => {
            lemma_after_comment_lines_len(rest);
        },
        Err(_) => {},
    }
    lemma_variable_consumes(s);
    lemma_rule_consumes(s);
}

} // verus!
