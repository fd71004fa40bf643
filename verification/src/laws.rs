//! What holds of the grammar for every text: which texts are read as what.
//!
//! - [`lemma_assignment_op`]: each assignment operator is read as its kind
//!   and leaves what follows it.
//! - [`lemma_variable`] and [`lemma_single_line_variable`]: a variable
//!   assignment as it is written, on one line or on several, is read back.
//! - [`lemma_prereq_list`] and [`lemma_prereq_list_joined`]: a list of
//!   prerequisites is read back name by name, and a list that goes on in
//!   the next line is read as the list on one line.
//! - [`lemma_rule_with`] and [`lemma_rule`]: a rule as it is written, with
//!   or without blanks around the `:`, is read back as it is.
//! - [`lemma_makefile`] and [`lemma_makefile_of_plain_rules`]: rules that
//!   are written out and parsed again are the same rules; this holds of all
//!   rules whose targets hold no `=`.
//!
//! The other lemmas are the steps to these.
use vstd::prelude::*;
use crate::error::Trace;
use crate::grammar::{
    after_blanks, after_line_endings, after_line_join, all_of, assignment_op, comment,
    continuation_lines, is_continued, is_line_break, lemma_span_is, line_break_len,
    line_ending, makefile, not_line_ending, prereq, prereq_list, recipes, rule, span, stops,
    target_char, target_list, target_name, target_names, variable, CharClass, Text,
};
use crate::types::{Assignment, MakefileView, RuleView, VariableView};

verus! {

/// Whether `s` is a line ending: a line feed, or a carriage return and a
/// line feed.
pub open spec fn is_line_ending(s: Text) -> bool {
    s == seq!['\n'] || s == seq!['\r', '\n']
}

/// Whether a line can follow `s`: `s` is empty or starts with a line
/// ending.
pub open spec fn ends_line(s: Text) -> bool {
    s.len() == 0 || line_break_len(s) > 0
}

/// A run of characters of one class in front of a text that does not go on
/// with that class is the longest such run.
pub proof fn lemma_run(a: Text, b: Text, class: CharClass)
    requires
        all_of(a, class),
        stops(b, class),
    ensures
        span(a + b, class) == a.len(),
        (a + b).take(a.len() as int) == a,
        (a + b).skip(a.len() as int) == b,
{
    let s = a + b;
    assert forall|j: int| 0 <= j < a.len() implies class.has(#[trigger] s[j]) by {
        assert(s[j] == a[j]);
    }
    if a.len() < s.len() {
        assert(s[a.len() as int] == b[0]);
    }
    lemma_span_is(s, class, a.len() as int);
    assert(s.take(a.len() as int) =~= a);
    assert(s.skip(a.len() as int) =~= b);
}

/// Blanks in front of a text that does not start with one are dropped.
pub proof fn lemma_blanks(a: Text, b: Text)
    requires
        all_of(a, CharClass::Blank),
        stops(b, CharClass::Blank),
    ensures
        after_blanks(a + b) == b,
{
    lemma_run(a, b, CharClass::Blank);
}

/// A line ending in front of a text is read as one.
pub proof fn lemma_line_ending(eol: Text, b: Text)
    requires
        is_line_ending(eol),
    ensures
        line_break_len(eol + b) == eol.len(),
        line_ending(eol + b) == Ok::<(Text, Text), Trace>((b, eol)),
        after_line_endings(eol + b) == after_line_endings(b),
{
    let s = eol + b;
    if eol.len() == 1 {
        assert(s[0] == eol[0]);
    } else {
        assert(s[0] == eol[0]);
        assert(s[1] == eol[1]);
    }
    assert(s.skip(eol.len() as int) =~= b);
    assert(s.take(eol.len() as int) =~= eol);
}

/// A text without a line break, in front of a text that can follow a line,
/// is read as the rest of the line.
pub proof fn lemma_line(a: Text, b: Text)
    requires
        all_of(a, CharClass::Line),
        ends_line(b),
    ensures
        not_line_ending(a + b) == Ok::<(Text, Text), Trace>((b, a)),
{
    let s = a + b;
    if b.len() > 0 {
        assert(is_line_break(b[0]));
    }
    lemma_run(a, b, CharClass::Line);
    if b.len() > 0 {
        assert(s.skip(a.len() as int) == b);
        assert(s[a.len() as int] == b[0]);
    }
}

/// The kind of the assignment operator that `op` is the text of, if it is
/// that of one.
pub open spec fn operator_kind(op: Text) -> Option<Assignment> {
    if op == seq!['='] {
        Some(Assignment::Recursive)
    } else if op == seq!['+', '='] {
        Some(Assignment::Append)
    } else if op == seq!['?', '='] {
        Some(Assignment::Conditional)
    } else if op == seq!['!', '='] {
        Some(Assignment::Shell)
    } else if op == seq![':', '='] || op == seq![':', ':', '='] {
        Some(Assignment::Simple)
    } else {
        None
    }
}

/// Each of the six assignment operators is read as its kind, whatever
/// follows it, and what follows it is left.
pub proof fn lemma_assignment_op(op: Text, rest: Text)
    requires
        operator_kind(op) is Some,
    ensures
        assignment_op(op + rest) == Ok::<(Text, Assignment), Trace>(
            (rest, operator_kind(op)->0),
        ),
{
    let s = op + rest;
    assert(s.skip(op.len() as int) =~= rest);
    assert(s.subrange(0, op.len() as int) =~= op);
    assert(s[0] == op[0]);
    if op.len() >= 2 {
        assert(s[1] == op[1]);
    }
    assert forall|t: Text| #[trigger] t.is_prefix_of(s) && t.len() > 0 implies t[0] == s[0] by {
        assert(s.subrange(0, t.len() as int)[0] == s[0]);
    }
    assert forall|t: Text| #[trigger] t.is_prefix_of(s) && t.len() > 1 implies t[1] == s[1] by {
        assert(s.subrange(0, t.len() as int)[1] == s[1]);
    }
    if seq!['='].is_prefix_of(s) {
        assert(seq!['='][0] == s[0]);
    }
    if seq!['+', '='].is_prefix_of(s) {
        assert(seq!['+', '='][0] == s[0]);
    }
    if seq!['?', '='].is_prefix_of(s) {
        assert(seq!['?', '='][0] == s[0]);
    }
    if seq!['!', '='].is_prefix_of(s) {
        assert(seq!['!', '='][0] == s[0]);
    }
    if seq![':', '='].is_prefix_of(s) {
        assert(seq![':', '='][0] == s[0]);
        assert(seq![':', '='][1] == s[1]);
    }
}

/// One more line of a value that is continued: the line ending before it,
/// the blanks it is indented with, and the line itself.
pub struct NextLine {
    pub ending: Text,
    pub indent: Text,
    pub line: Text,
}

/// The text of the lines that continue a value.
pub open spec fn next_text(next: Seq<NextLine>) -> Text
    decreases next.len(),
{
    if next.len() == 0 {
        seq![]
    } else {
        next[0].ending + (next[0].indent + (next[0].line + next_text(next.drop_first())))
    }
}

/// The lines themselves of the lines that continue a value.
pub open spec fn next_lines(next: Seq<NextLine>) -> Seq<Text> {
    Seq::new(next.len(), |k: int| next[k].line)
}

/// Whether `first` and `next` are the lines of one value as it is written:
/// no line holds a line break, every line but the last ends in a backslash
/// and the last does not, and a line that continues the value comes behind
/// a line ending and blanks and does not start with a blank itself.
pub open spec fn is_value(first: Text, next: Seq<NextLine>) -> bool {
    &&& all_of(first, CharClass::Line)
    &&& is_continued(first) <==> next.len() > 0
    &&& forall|k: int|
        0 <= k < next.len() ==> {
            &&& is_line_ending((#[trigger] next[k]).ending)
            &&& all_of(next[k].indent, CharClass::Blank)
            &&& all_of(next[k].line, CharClass::Line)
            &&& stops(next[k].line, CharClass::Blank)
            &&& is_continued(next[k].line) <==> k < next.len() - 1
        }
}

/// The lines that continue a value are read back one by one, up to the
/// text behind the last of them.
pub proof fn lemma_continuation_lines(first: Text, next: Seq<NextLine>, tail: Text)
    requires
        is_value(first, next),
        ends_line(tail),
    ensures
        continuation_lines(next_text(next) + tail, first) == Ok::<(Text, Seq<Text>), Trace>(
            (tail, next_lines(next)),
        ),
        ends_line(next_text(next) + tail),
        next.len() > 0 ==> line_break_len(next_text(next) + tail) > 0,
    decreases next.len(),
{
    if next.len() == 0 {
        assert(next_text(next) + tail =~= tail);
        assert(next_lines(next) =~= Seq::<Text>::empty());
    } else {
        let n = next[0];
        let rest = next.drop_first();
        let after = next_text(rest) + tail;
        let s = next_text(next) + tail;
        assert(is_value(n.line, rest)) by {
            assert forall|k: int| 0 <= k < rest.len() implies {
                &&& is_line_ending((#[trigger] rest[k]).ending)
                &&& all_of(rest[k].indent, CharClass::Blank)
                &&& all_of(rest[k].line, CharClass::Line)
                &&& stops(rest[k].line, CharClass::Blank)
                &&& is_continued(rest[k].line) <==> k < rest.len() - 1
            } by {
                assert(rest[k] == next[k + 1]);
            }
        }
        lemma_continuation_lines(n.line, rest, tail);
        assert(s =~= n.ending + (n.indent + (n.line + after)));
        lemma_line_ending(n.ending, n.indent + (n.line + after));
        assert(stops(n.line + after, CharClass::Blank)) by {
            if n.line.len() > 0 {
                assert((n.line + after)[0] == n.line[0]);
            } else {
                assert(n.line + after =~= after);
            }
        }
        lemma_blanks(n.indent, n.line + after);
        lemma_line(n.line, after);
        assert(next_lines(next) =~= seq![n.line] + next_lines(rest));
    }
}

/// A variable assignment as it is written is read back: the name, the kind
/// of the operator, and one fragment for each line of the value. The line
/// endings behind the value are dropped.
///
/// The name holds only characters that may stand in one. Blanks may stand
/// before and behind the operator; before `+=` at least one must, since `+`
/// may stand in a name. The value does not start with a blank.
pub proof fn lemma_variable(
    name: Text,
    gap1: Text,
    op: Text,
    gap2: Text,
    first: Text,
    next: Seq<NextLine>,
    tail: Text,
)
    requires
        all_of(name, CharClass::VariableName),
        all_of(gap1, CharClass::Blank),
        all_of(gap2, CharClass::Blank),
        operator_kind(op) is Some,
        op == seq!['+', '='] ==> gap1.len() > 0,
        stops(first, CharClass::Blank),
        is_value(first, next),
        ends_line(tail),
    ensures
        variable(name + (gap1 + (op + (gap2 + (first + (next_text(next) + tail)))))) == Ok::<
            (Text, VariableView),
            Trace,
        >(
            (
                after_line_endings(tail),
                VariableView {
                    name,
                    assignment: operator_kind(op)->0,
                    value: seq![first] + next_lines(next),
                },
            ),
        ),
{
    let s5 = next_text(next) + tail;
    let s4 = first + s5;
    let s3 = gap2 + s4;
    let s2 = op + s3;
    let s1 = gap1 + s2;
    lemma_continuation_lines(first, next, tail);
    assert(stops(s4, CharClass::Blank)) by {
        if first.len() > 0 {
            assert(s4[0] == first[0]);
        } else {
            assert(s4 =~= s5);
        }
    }
    assert(s2[0] == op[0]);
    assert(stops(s2, CharClass::Blank));
    assert(stops(s1, CharClass::VariableName)) by {
        if gap1.len() > 0 {
            assert(s1[0] == gap1[0]);
        } else {
            assert(s1 =~= s2);
        }
    }
    lemma_run(name, s1, CharClass::VariableName);
    lemma_blanks(gap1, s2);
    lemma_assignment_op(op, s3);
    lemma_blanks(gap2, s4);
    lemma_line(first, s5);
}

/// A variable assignment on one line, `NAME op VALUE` and a line feed with
/// or without blanks around the operator, is read as the name, the kind of
/// the operator and the one fragment `VALUE`, and nothing is left.
///
/// The conditions are those of [`lemma_variable`]; the value holds no line
/// break and does not end in a backslash.
pub proof fn lemma_single_line_variable(name: Text, gap1: Text, op: Text, gap2: Text, value: Text)
    requires
        all_of(name, CharClass::VariableName),
        all_of(gap1, CharClass::Blank),
        all_of(gap2, CharClass::Blank),
        operator_kind(op) is Some,
        op == seq!['+', '='] ==> gap1.len() > 0,
        all_of(value, CharClass::Line),
        stops(value, CharClass::Blank),
        !is_continued(value),
    ensures
        variable(name + gap1 + op + gap2 + value + seq!['\n']) == Ok::<(Text, VariableView), Trace>(
            (
                Seq::empty(),
                VariableView { name, assignment: operator_kind(op)->0, value: seq![value] },
            ),
        ),
{
    let tail = seq!['\n'];
    let next = Seq::<NextLine>::empty();
    lemma_variable(name, gap1, op, gap2, value, next, tail);
    let text = next_text(next) + tail;
    assert(name + gap1 + op + gap2 + value + tail =~= name + (gap1 + (op + (gap2 + (value
        + text)))));
    assert(seq![value] + next_lines(next) =~= seq![value]);
    lemma_line_ending(tail, Seq::empty());
    assert(tail + Seq::<char>::empty() =~= tail);
}

/// What stands between two names of a list: one blank or more, and behind
/// them, where the list goes on in the next line, a backslash, a line
/// ending and the blanks that the next line is indented with.
pub struct Gap {
    pub blanks: Text,
    pub join: Option<(Text, Text)>,
}

impl Gap {
    /// The gap as it is written.
    pub open spec fn text(self) -> Text {
        match self.join {
            Some((ending, indent)) => self.blanks + (seq!['\\'] + (ending + indent)),
            None => self.blanks,
        }
    }

    /// Whether the gap is one: see [`Gap`].
    pub open spec fn valid(self) -> bool {
        &&& self.blanks.len() > 0
        &&& all_of(self.blanks, CharClass::Blank)
        &&& match self.join {
            Some((ending, indent)) => is_line_ending(ending) && all_of(indent, CharClass::Blank),
            None => true,
        }
    }
}

/// Whether `s` can be the name of a target or of a prerequisite: it is not
/// empty and holds only characters that may stand in one.
pub open spec fn is_name(s: Text) -> bool {
    s.len() > 0 && all_of(s, CharClass::Target)
}

/// Whether `names` are names and `gaps` are gaps to stand between them.
pub open spec fn is_list(names: Seq<Text>, gaps: Seq<Gap>) -> bool {
    &&& gaps.len() >= names.len() - 1
    &&& forall|k: int| 0 <= k < names.len() ==> is_name(#[trigger] names[k])
    &&& forall|k: int| 0 <= k < names.len() - 1 ==> (#[trigger] gaps[k]).valid()
}

/// The names as they are written, with `gaps[k]` between `names[k]` and
/// the name behind it.
pub open spec fn gapped(names: Seq<Text>, gaps: Seq<Gap>) -> Text
    decreases names.len(),
{
    if names.len() == 0 {
        seq![]
    } else if names.len() == 1 {
        names[0]
    } else {
        names[0] + (gaps[0].text() + gapped(names.drop_first(), gaps.drop_first()))
    }
}

/// One space between each two of `n` names.
pub open spec fn single_spaces(n: int) -> Seq<Gap> {
    Seq::new(n as nat, |k: int| Gap { blanks: seq![' '], join: None })
}

/// The names with one space between each two.
pub open spec fn spaced(names: Seq<Text>) -> Text {
    gapped(names, single_spaces(names.len() as int))
}

/// A list without its first name and first gap is a list, and what is
/// written of a list that is not empty starts with a character of a name.
pub proof fn lemma_list_rest(names: Seq<Text>, gaps: Seq<Gap>)
    requires
        is_list(names, gaps),
        names.len() > 0,
    ensures
        is_list(names.drop_first(), gaps.drop_first()),
        gapped(names, gaps).len() > 0,
        target_char(gapped(names, gaps)[0]),
{
    let rest = names.drop_first();
    let more = gaps.drop_first();
    assert(is_name(names[0]));
    assert forall|k: int| 0 <= k < rest.len() implies is_name(#[trigger] rest[k]) by {
        assert(rest[k] == names[k + 1]);
    }
    if names.len() > 1 {
        assert forall|k: int| 0 <= k < rest.len() - 1 implies (#[trigger] more[k]).valid() by {
            assert(more[k] == gaps[k + 1]);
        }
    }
    assert(names[0][0] == gapped(names, gaps)[0]);
    assert(CharClass::Target.has(names[0][0]));
}

/// A text that starts with neither a blank nor a character of a name reads
/// as the end of a list: no name stands there.
pub proof fn lemma_list_end(tail: Text)
    requires
        stops(tail, CharClass::Blank),
        stops(tail, CharClass::Target),
    ensures
        after_blanks(tail) == tail,
        after_line_join(tail) == tail,
        prereq(tail) is Err,
        target_name(tail) is Err,
        prereq_list(tail) == (tail, Seq::<Text>::empty()),
        target_names(tail) == (tail, Seq::<Text>::empty()),
{
    lemma_span_is(tail, CharClass::Blank, 0);
    lemma_span_is(tail, CharClass::Target, 0);
    assert(tail.skip(0) =~= tail);
    if tail.len() > 0 {
        assert(CharClass::Target.has('\\'));
    }
}

/// One name as it is written, with blanks before and behind it, is read
/// as a target and as a prerequisite.
pub proof fn lemma_name(lead: Text, name: Text, blanks: Text, after: Text)
    requires
        all_of(lead, CharClass::Blank),
        is_name(name),
        all_of(blanks, CharClass::Blank),
        stops(after, CharClass::Blank),
        blanks.len() == 0 ==> stops(after, CharClass::Target),
    ensures
        target_name(lead + (name + (blanks + after))) == Ok::<(Text, Text), Trace>((after, name)),
        prereq(lead + (name + (blanks + after))) == Ok::<(Text, Text), Trace>(
            (after_line_join(after), name),
        ),
{
    let x = blanks + after;
    let s = name + x;
    assert(s[0] == name[0]);
    assert(CharClass::Target.has(name[0]));
    lemma_blanks(lead, s);
    assert(stops(x, CharClass::Target)) by {
        if blanks.len() > 0 {
            assert(x[0] == blanks[0]);
        } else {
            assert(x =~= after);
        }
    }
    lemma_run(name, x, CharClass::Target);
    lemma_blanks(blanks, after);
}

/// A backslash, a line ending and what follows them read as a line that
/// goes on: what follows is left.
pub proof fn lemma_line_join(ending: Text, after: Text)
    requires
        is_line_ending(ending),
    ensures
        after_line_join(seq!['\\'] + (ending + after)) == after,
{
    let y = seq!['\\'] + (ending + after);
    assert(y.skip(1) =~= ending + after);
    lemma_line_ending(ending, after);
    assert(y.skip(1 + ending.len() as int) =~= after);
}

/// What is written of a list does not read as a line that goes on, unless
/// its one name is a lone backslash before a line ending.
pub proof fn lemma_no_line_join(names: Seq<Text>, gaps: Seq<Gap>, tail: Text)
    requires
        is_list(names, gaps),
        stops(tail, CharClass::Blank),
        stops(tail, CharClass::Target),
        names.len() > 0 && names.last() == seq!['\\'] ==> line_break_len(tail) == 0,
    ensures
        after_line_join(gapped(names, gaps) + tail) == gapped(names, gaps) + tail,
{
    let z = gapped(names, gaps) + tail;
    if names.len() == 0 {
        assert(z =~= tail);
        lemma_list_end(tail);
    } else if z[0] == '\\' {
        let first = names[0];
        assert(is_name(first));
        if first.len() > 1 {
            assert(z[0] == first[0]);
            if names.len() == 1 {
                assert(z =~= first + tail);
            } else {
                assert(z =~= first + (gaps[0].text() + gapped(
                    names.drop_first(),
                    gaps.drop_first(),
                ) + tail));
            }
            assert(z.skip(1)[0] == first[1]);
            assert(CharClass::Target.has(first[1]));
        } else {
            if names.len() == 1 {
                assert(z =~= first + tail);
                assert(z.skip(1) =~= tail);
                assert(first =~= seq!['\\']);
            } else {
                let after = gaps[0].text() + (gapped(names.drop_first(), gaps.drop_first())
                    + tail);
                assert(gaps[0].valid());
                assert(z =~= first + after);
                assert(z.skip(1) =~= after);
                assert(after[0] == gaps[0].blanks[0]);
                assert(CharClass::Blank.has(after[0]));
            }
        }
    }
}

/// A list of prerequisites as it is written is read back name by name, up
/// to the text behind the last of them, whether the gaps go on in the next
/// line or not. Blanks may stand before the list.
///
/// The text behind the list starts with neither a blank nor a character of
/// a name. Where the last name is a lone backslash, no line ending follows
/// it: the two would read as a gap. Blanks before a list without names
/// are not read.
pub proof fn lemma_prereq_list(lead: Text, names: Seq<Text>, gaps: Seq<Gap>, tail: Text)
    requires
        all_of(lead, CharClass::Blank),
        names.len() == 0 ==> lead.len() == 0,
        is_list(names, gaps),
        stops(tail, CharClass::Blank),
        stops(tail, CharClass::Target),
        names.len() > 0 && names.last() == seq!['\\'] ==> line_break_len(tail) == 0,
    ensures
        prereq_list(lead + (gapped(names, gaps) + tail)) == (tail, names),
    decreases names.len(),
{
    let s = gapped(names, gaps) + tail;
    lemma_list_end(tail);
    if names.len() == 0 {
        assert(lead + s =~= tail);
    } else {
        let name = names[0];
        let rest = names.drop_first();
        let more = gaps.drop_first();
        lemma_list_rest(names, gaps);
        assert(names =~= seq![name] + rest);
        if names.len() == 1 {
            assert(s =~= name + (Seq::<char>::empty() + tail));
            lemma_name(lead, name, Seq::empty(), tail);
            assert(rest =~= Seq::<Text>::empty());
        } else {
            let gap = gaps[0];
            assert(gap.valid());
            assert(rest.last() == names.last());
            let z = gapped(rest, more) + tail;
            lemma_list_rest(rest, more);
            assert(z[0] == gapped(rest, more)[0]);
            match gap.join {
                Some((ending, indent)) => {
                    let y = seq!['\\'] + (ending + (indent + z));
                    assert(y[0] == '\\');
                    assert(s =~= name + (gap.blanks + y));
                    lemma_name(lead, name, gap.blanks, y);
                    lemma_line_join(ending, indent + z);
                    lemma_prereq_list(indent, rest, more, tail);
                },
                None => {
                    assert(s =~= name + (gap.blanks + z));
                    lemma_name(lead, name, gap.blanks, z);
                    lemma_no_line_join(rest, more, tail);
                    lemma_prereq_list(Seq::empty(), rest, more, tail);
                    assert(Seq::<char>::empty() + z =~= z);
                },
            }
        }
    }
}

/// A list of prerequisites that goes on in the next line, once or more
/// often, is read as the same names as the list written on one line with
/// one space between each two.
///
/// The conditions are those of [`lemma_prereq_list`].
pub proof fn lemma_prereq_list_joined(names: Seq<Text>, gaps: Seq<Gap>, tail: Text)
    requires
        is_list(names, gaps),
        stops(tail, CharClass::Blank),
        stops(tail, CharClass::Target),
        names.len() > 0 && names.last() == seq!['\\'] ==> line_break_len(tail) == 0,
    ensures
        prereq_list(gapped(names, gaps) + tail).1 == prereq_list(spaced(names) + tail).1,
        prereq_list(gapped(names, gaps) + tail).1 == names,
{
    lemma_prereq_list(Seq::empty(), names, gaps, tail);
    assert(Seq::<char>::empty() + (gapped(names, gaps) + tail) =~= gapped(names, gaps) + tail);
    let spaces = single_spaces(names.len() as int);
    assert(is_list(names, spaces)) by {
        assert forall|k: int| 0 <= k < names.len() - 1 implies (#[trigger] spaces[k]).valid() by {
            assert(spaces[k].blanks[0] == ' ');
        }
    }
    lemma_prereq_list(Seq::empty(), names, spaces, tail);
    assert(Seq::<char>::empty() + (spaced(names) + tail) =~= spaced(names) + tail);
}

/// Whether no gap goes on in the next line.
pub open spec fn on_one_line(gaps: Seq<Gap>) -> bool {
    forall|k: int| 0 <= k < gaps.len() ==> (#[trigger] gaps[k]).join is None
}

/// A list of targets as it is written on one line is read back name by
/// name, up to the text behind the last of them. Blanks may stand before
/// the list and behind it, unless it has no names.
pub proof fn lemma_target_names(
    lead: Text,
    names: Seq<Text>,
    gaps: Seq<Gap>,
    trail: Text,
    tail: Text,
)
    requires
        all_of(lead, CharClass::Blank),
        all_of(trail, CharClass::Blank),
        names.len() == 0 ==> lead.len() == 0 && trail.len() == 0,
        is_list(names, gaps),
        on_one_line(gaps),
        stops(tail, CharClass::Blank),
        stops(tail, CharClass::Target),
    ensures
        target_names(lead + (gapped(names, gaps) + (trail + tail))) == (tail, names),
        names.len() > 0 ==> target_list(lead + (gapped(names, gaps) + (trail + tail))) == Ok::<
            (Text, Seq<Text>),
            Trace,
        >((tail, names)),
    decreases names.len(),
{
    let s = gapped(names, gaps) + (trail + tail);
    lemma_list_end(tail);
    if names.len() == 0 {
        assert(lead + s =~= tail);
    } else {
        let name = names[0];
        let rest = names.drop_first();
        let more = gaps.drop_first();
        lemma_list_rest(names, gaps);
        assert(names =~= seq![name] + rest);
        if names.len() == 1 {
            assert(s =~= name + (trail + tail));
            lemma_name(lead, name, trail, tail);
            assert(rest =~= Seq::<Text>::empty());
        } else {
            let gap = gaps[0];
            assert(gap.valid());
            assert(gap.join is None);
            let z = gapped(rest, more) + (trail + tail);
            lemma_list_rest(rest, more);
            assert(z[0] == gapped(rest, more)[0]);
            assert(s =~= name + (gap.blanks + z));
            lemma_name(lead, name, gap.blanks, z);
            assert(on_one_line(more)) by {
                assert forall|k: int| 0 <= k < more.len() implies (#[trigger] more[k]).join
                    is None by {
                    assert(more[k] == gaps[k + 1]);
                }
            }
            lemma_target_names(Seq::empty(), rest, more, trail, tail);
            assert(Seq::<char>::empty() + z =~= z);
        }
    }
}

/// The lines of a recipe as they are written: each behind a tab and before
/// a line feed.
pub open spec fn recipe_text(lines: Seq<Text>) -> Text
    decreases lines.len(),
{
    if lines.len() == 0 {
        seq![]
    } else {
        seq!['\t'] + (lines[0] + (seq!['\n'] + recipe_text(lines.drop_first())))
    }
}

/// Whether `lines` can be the lines of a recipe that are read back as they
/// are: none holds a line break or starts with a blank.
pub open spec fn is_recipe(lines: Seq<Text>) -> bool {
    forall|k: int|
        0 <= k < lines.len() ==> all_of(#[trigger] lines[k], CharClass::Line) && stops(
            lines[k],
            CharClass::Blank,
        )
}

/// The lines of a recipe as they are written are read back one by one, up
/// to the text behind the last of them, which starts with neither a blank
/// nor a line ending.
pub proof fn lemma_recipes(lines: Seq<Text>, tail: Text)
    requires
        is_recipe(lines),
        stops(tail, CharClass::Blank),
        line_break_len(tail) == 0,
    ensures
        recipes(recipe_text(lines) + tail) == (tail, lines),
        line_break_len(recipe_text(lines) + tail) == 0,
    decreases lines.len(),
{
    let s = recipe_text(lines) + tail;
    if lines.len() == 0 {
        assert(s =~= tail);
        lemma_span_is(tail, CharClass::Blank, 0);
    } else {
        let line = lines[0];
        let rest = lines.drop_first();
        let after = recipe_text(rest) + tail;
        assert(is_recipe(rest)) by {
            assert forall|k: int| 0 <= k < rest.len() implies all_of(
                #[trigger] rest[k],
                CharClass::Line,
            ) && stops(rest[k], CharClass::Blank) by {
                assert(rest[k] == lines[k + 1]);
            }
        }
        lemma_recipes(rest, tail);
        let x = seq!['\n'] + after;
        let y = line + x;
        assert(s =~= seq!['\t'] + y);
        assert(s[0] == '\t');
        assert(stops(y, CharClass::Blank)) by {
            if line.len() > 0 {
                assert(y[0] == line[0]);
            } else {
                assert(y =~= x);
                assert(x[0] == '\n');
            }
        }
        lemma_run(seq!['\t'], y, CharClass::Blank);
        lemma_line_ending(seq!['\n'], after);
        lemma_line(line, x);
        assert(after_line_endings(after) == after);
        assert(lines =~= seq![line] + rest);
    }
}

/// A rule as it is written: its targets with one space between each two, a
/// `:`, a space and its prerequisites with one space between each two if
/// it has any, a line feed, and the lines of its recipe, each behind a tab
/// and before a line feed.
pub open spec fn rule_text(r: RuleView) -> Text {
    spaced(r.targets) + (seq![':'] + ((if r.prerequisites.len() == 0 {
        seq![]
    } else {
        seq![' '] + spaced(r.prerequisites)
    }) + (seq!['\n'] + recipe_text(r.recipe))))
}

/// A rule as it is written with the blanks `before` and `after` around the
/// `:`, such as `t1 t2 : p1 p2`: its targets with one space between each
/// two, `before`, a `:`, `after`, its prerequisites with one space between
/// each two, a line feed, and the lines of its recipe, each behind a tab
/// and before a line feed.
pub open spec fn rule_text_with(r: RuleView, before: Text, after: Text) -> Text {
    spaced(r.targets) + (before + (seq![':'] + (after + (spaced(r.prerequisites) + (seq!['\n']
        + recipe_text(r.recipe))))))
}

/// Whether `r` can be read back from what is written of it: it has a
/// target, its targets and prerequisites are names, the last prerequisite
/// is no lone backslash, which would continue the line, and its recipe is
/// one.
pub open spec fn is_rule(r: RuleView) -> bool {
    &&& r.targets.len() > 0
    &&& forall|k: int| 0 <= k < r.targets.len() ==> is_name(#[trigger] r.targets[k])
    &&& forall|k: int| 0 <= k < r.prerequisites.len() ==> is_name(#[trigger] r.prerequisites[k])
    &&& r.prerequisites.len() > 0 ==> r.prerequisites.last() != seq!['\\']
    &&& is_recipe(r.recipe)
}

/// One space between each two names makes a list that stands on one line.
pub proof fn lemma_spaced(names: Seq<Text>)
    requires
        forall|k: int| 0 <= k < names.len() ==> is_name(#[trigger] names[k]),
    ensures
        is_list(names, single_spaces(names.len() as int)),
        on_one_line(single_spaces(names.len() as int)),
{
    let spaces = single_spaces(names.len() as int);
    assert forall|k: int| 0 <= k < names.len() - 1 implies (#[trigger] spaces[k]).valid() by {
        assert(spaces[k].blanks[0] == ' ');
    }
}

/// A rule as it is written, with or without blanks before and behind the
/// `:`, is read back as it is: the same targets, the same prerequisites and
/// the same recipe, up to the text behind it, which starts with neither a
/// blank nor a line ending.
pub proof fn lemma_rule_with(r: RuleView, before: Text, after: Text, tail: Text)
    requires
        is_rule(r),
        all_of(before, CharClass::Blank),
        all_of(after, CharClass::Blank),
        stops(tail, CharClass::Blank),
        line_break_len(tail) == 0,
    ensures
        rule(rule_text_with(r, before, after) + tail) == Ok::<(Text, RuleView), Trace>((tail, r)),
{
    let s4 = recipe_text(r.recipe) + tail;
    let s3 = seq!['\n'] + s4;
    let z = spaced(r.prerequisites) + s3;
    let s2 = after + z;
    let s1 = seq![':'] + s2;
    let s = spaced(r.targets) + (before + s1);
    let spaces = single_spaces(r.prerequisites.len() as int);
    assert(rule_text_with(r, before, after) + tail =~= s);
    assert(s1[0] == ':');
    assert(s3[0] == '\n');
    lemma_spaced(r.targets);
    lemma_spaced(r.prerequisites);
    lemma_target_names(
        Seq::empty(),
        r.targets,
        single_spaces(r.targets.len() as int),
        before,
        s1,
    );
    assert(Seq::<char>::empty() + s =~= s);
    assert(target_list(s) == Ok::<(Text, Seq<Text>), Trace>((s1, r.targets)));
    lemma_list_end(s1);
    assert(s1.skip(1) =~= s2);
    assert(stops(z, CharClass::Blank)) by {
        if r.prerequisites.len() == 0 {
            assert(z =~= s3);
        } else {
            lemma_list_rest(r.prerequisites, spaces);
            assert(z[0] == spaced(r.prerequisites)[0]);
        }
    }
    lemma_blanks(after, z);
    lemma_prereq_list(Seq::empty(), r.prerequisites, spaces, s3);
    assert(Seq::<char>::empty() + z =~= z);
    assert(prereq_list(after_blanks(s2)) == (s3, r.prerequisites));
    lemma_line_ending(seq!['\n'], s4);
    lemma_recipes(r.recipe, tail);
}

/// A rule as it is written is read back as it is: the same targets, the
/// same prerequisites and the same recipe, up to the text behind it, which
/// starts with neither a blank nor a line ending.
pub proof fn lemma_rule(r: RuleView, tail: Text)
    requires
        is_rule(r),
        stops(tail, CharClass::Blank),
        line_break_len(tail) == 0,
    ensures
        rule(rule_text(r) + tail) == Ok::<(Text, RuleView), Trace>((tail, r)),
{
    let after = if r.prerequisites.len() == 0 {
        Seq::<char>::empty()
    } else {
        seq![' ']
    };
    lemma_rule_with(r, Seq::empty(), after, tail);
    assert(rule_text(r) + tail =~= rule_text_with(r, Seq::empty(), after) + tail);
}

/// The rules as they are written, one behind the other.
pub open spec fn rules_text(rules: Seq<RuleView>) -> Text
    decreases rules.len(),
{
    if rules.len() == 0 {
        seq![]
    } else {
        rule_text(rules[0]) + rules_text(rules.drop_first())
    }
}

/// What is written of rules is empty or starts with a character of a name.
pub proof fn lemma_rules_text_start(rules: Seq<RuleView>)
    requires
        forall|k: int| 0 <= k < rules.len() ==> is_rule(#[trigger] rules[k]),
    ensures
        rules.len() == 0 ==> rules_text(rules).len() == 0,
        rules.len() > 0 ==> rules_text(rules).len() > 0 && target_char(rules_text(rules)[0]),
{
    if rules.len() > 0 {
        let r = rules[0];
        assert(is_rule(r));
        lemma_spaced(r.targets);
        lemma_list_rest(r.targets, single_spaces(r.targets.len() as int));
        assert(rules_text(rules)[0] == spaced(r.targets)[0]);
    }
}

/// Rules that are written out and parsed again are the same rules: the
/// same targets, prerequisites and recipes, in the same order, and no
/// variables.
///
/// Each rule is one that can be read back ([`is_rule`]), and at no rule
/// does the text from there on read as a variable assignment, which would
/// be preferred to the rule.
pub proof fn lemma_makefile(rules: Seq<RuleView>)
    requires
        forall|k: int| 0 <= k < rules.len() ==> is_rule(#[trigger] rules[k]),
        forall|k: int|
            0 <= k < rules.len() ==> #[trigger] variable(rules_text(rules.skip(k))) is Err,
    ensures
        makefile(rules_text(rules)) == Ok::<(Text, MakefileView), Trace>(
            (Seq::empty(), MakefileView { variables: seq![], rules }),
        ),
    decreases rules.len(),
{
    if rules.len() == 0 {
        assert(rules =~= Seq::<RuleView>::empty());
    } else {
        let r = rules[0];
        let rest = rules.drop_first();
        let tail = rules_text(rest);
        let s = rules_text(rules);
        assert(is_rule(r));
        assert forall|k: int| 0 <= k < rest.len() implies is_rule(#[trigger] rest[k]) by {
            assert(rest[k] == rules[k + 1]);
        }
        assert forall|k: int| 0 <= k < rest.len() implies #[trigger] variable(
            rules_text(rest.skip(k)),
        ) is Err by {
            assert(rest.skip(k) =~= rules.skip(k + 1));
            assert(variable(rules_text(rules.skip(k + 1))) is Err);
        }
        lemma_makefile(rest);
        lemma_rules_text_start(rules);
        lemma_rules_text_start(rest);
        assert(rules.skip(0) =~= rules);
        assert(variable(rules_text(rules.skip(0))) is Err);
        lemma_rule(r, tail);
        assert(s.len() > 0 && line_break_len(s) == 0);
        assert(comment(s) is Err);
        assert(rule(s) == Ok::<(Text, RuleView), Trace>((tail, r)));
        assert(seq![r] + rest =~= rules);
        assert(Seq::<VariableView>::empty() + Seq::<VariableView>::empty() =~= Seq::<
            VariableView,
        >::empty());
    }
}

/// Whether `s` holds no `=`.
pub open spec fn no_equals(s: Text) -> bool {
    forall|j: int| 0 <= j < s.len() ==> #[trigger] s[j] != '='
}

/// Whether no target of `r` holds a `=`. What is written of such a rule
/// does not read as a variable assignment: every assignment operator ends
/// in `=`, and behind a target stands a space or a `:`.
pub open spec fn is_plain(r: RuleView) -> bool {
    forall|k: int| 0 <= k < r.targets.len() ==> no_equals(#[trigger] r.targets[k])
}

/// A text that holds no `=` does not start with an assignment operator.
proof fn lemma_no_equals(name: Text)
    requires
        no_equals(name),
    ensures
        assignment_op(name) is Err,
{
    assert forall|t: Text| #[trigger] t.is_prefix_of(name) && t.len() > 0 implies t.last()
        == name[t.len() - 1] by {
        assert(name.subrange(0, t.len() as int)[t.len() - 1] == name[t.len() - 1]);
    }
    if seq!['='].is_prefix_of(name) {
        assert(seq!['='].last() == '=');
    }
    if seq!['+', '='].is_prefix_of(name) {
        assert(seq!['+', '='].last() == '=');
    }
    if seq!['?', '='].is_prefix_of(name) {
        assert(seq!['?', '='].last() == '=');
    }
    if seq!['!', '='].is_prefix_of(name) {
        assert(seq!['!', '='].last() == '=');
    }
    if seq![':', '='].is_prefix_of(name) {
        assert(seq![':', '='].last() == '=');
    }
    if seq![':', ':', '='].is_prefix_of(name) {
        assert(seq![':', ':', '='].last() == '=');
    }
}

/// Behind a name that does not start with an assignment operator, none
/// stands where the text goes on with a space or a `:`.
proof fn lemma_no_operator(name: Text, after: Text)
    requires
        is_name(name),
        assignment_op(name) is Err,
        after.len() > 0,
        after[0] == ' ' || after[0] == ':',
    ensures
        assignment_op(name + after) is Err,
{
    let s = name + after;
    assert(CharClass::Target.has(name[0]));
    assert forall|t: Text| #[trigger] t.is_prefix_of(s) && 0 < t.len() <= 3 implies t.is_prefix_of(
        name,
    ) || (t.len() > name.len() && t[name.len() as int] == after[0] && t[0] == name[0]) by {
        let cut = s.subrange(0, t.len() as int);
        assert(cut[0] == s[0]);
        if t.len() <= name.len() {
            assert(cut =~= name.subrange(0, t.len() as int));
        } else {
            assert(cut[name.len() as int] == s[name.len() as int]);
        }
    }
    let one = seq!['='];
    let plus = seq!['+', '='];
    let query = seq!['?', '='];
    let bang = seq!['!', '='];
    let colon = seq![':', '='];
    let colons = seq![':', ':', '='];
    if one.is_prefix_of(s) {
        assert(one.is_prefix_of(name));
    }
    if plus.is_prefix_of(s) {
        assert(plus[1] == '=');
        assert(plus.is_prefix_of(name));
    }
    if query.is_prefix_of(s) {
        assert(query[1] == '=');
        assert(query.is_prefix_of(name));
    }
    if bang.is_prefix_of(s) {
        assert(bang[1] == '=');
        assert(bang.is_prefix_of(name));
    }
    if colon.is_prefix_of(s) {
        assert(colon[0] == ':');
        assert(colon.is_prefix_of(name));
    }
    if colons.is_prefix_of(s) {
        assert(colons[0] == ':');
        assert(colons.is_prefix_of(name));
    }
}

/// What is written of a rule that is plain does not read as a variable
/// assignment, whatever follows it.
pub proof fn lemma_rule_is_no_variable(r: RuleView, tail: Text)
    requires
        is_rule(r),
        is_plain(r),
    ensures
        variable(rule_text(r) + tail) is Err,
{
    let first = r.targets[0];
    let spaces = single_spaces(r.targets.len() as int);
    assert(is_name(first));
    assert(no_equals(first));
    lemma_spaced(r.targets);
    let listed = if r.prerequisites.len() == 0 {
        Seq::<char>::empty()
    } else {
        seq![' '] + spaced(r.prerequisites)
    };
    let s1 = seq![':'] + (listed + (seq!['\n'] + recipe_text(r.recipe)) + tail);
    let s = rule_text(r) + tail;
    assert(s =~= spaced(r.targets) + s1);
    assert(s1[0] == ':');
    assert(s1[1] == ' ' || s1[1] == '\n') by {
        if r.prerequisites.len() == 0 {
            assert(s1[1] == '\n');
        } else {
            assert(s1[1] == ' ');
        }
    }
    let colon = seq![':', '='];
    let colons = seq![':', ':', '='];
    assert(assignment_op(s1) is Err) by {
        assert forall|t: Text| #[trigger] t.is_prefix_of(s1) && t.len() >= 2 implies t[0] == s1[0]
            && t[1] == s1[1] by {
            assert(s1.subrange(0, t.len() as int)[0] == s1[0]);
            assert(s1.subrange(0, t.len() as int)[1] == s1[1]);
        }
        assert forall|t: Text| #[trigger] t.is_prefix_of(s1) && t.len() >= 1 implies t[0]
            == s1[0] by {
            assert(s1.subrange(0, t.len() as int)[0] == s1[0]);
        }
        if seq!['='].is_prefix_of(s1) {
            assert(seq!['='][0] == ':');
        }
        if seq!['+', '='].is_prefix_of(s1) {
            assert(seq!['+', '='][0] == ':');
        }
        if seq!['?', '='].is_prefix_of(s1) {
            assert(seq!['?', '='][0] == ':');
        }
        if seq!['!', '='].is_prefix_of(s1) {
            assert(seq!['!', '='][0] == ':');
        }
        if colon.is_prefix_of(s1) {
            assert(colon[1] == s1[1]);
        }
        if colons.is_prefix_of(s1) {
            assert(colons[1] == s1[1]);
        }
    }
    lemma_span_is(s1, CharClass::Blank, 0);
    assert(s1.skip(0) =~= s1);
    // No operator stands behind the first target and the blanks after it.
    let behind = if r.targets.len() == 1 {
        s1
    } else {
        seq![' '] + (gapped(r.targets.drop_first(), spaces.drop_first()) + s1)
    };
    assert(s =~= first + behind);
    assert(behind[0] == ' ' || behind[0] == ':');
    assert(assignment_op(after_blanks(behind)) is Err) by {
        if r.targets.len() > 1 {
            let rest = r.targets.drop_first();
            let more = spaces.drop_first();
            let second = rest[0];
            assert(second == r.targets[1]);
            lemma_list_rest(r.targets, spaces);
            assert(is_name(second));
            let after = if rest.len() == 1 {
                s1
            } else {
                more[0].text() + (gapped(rest.drop_first(), more.drop_first()) + s1)
            };
            let z = second + after;
            assert(gapped(rest, more) + s1 =~= z);
            assert(after[0] == ' ' || after[0] == ':') by {
                if rest.len() > 1 {
                    assert(more[0] == spaces[1]);
                    assert(after[0] == more[0].blanks[0]);
                }
            }
            lemma_no_equals(second);
            lemma_no_operator(second, after);
            assert(z[0] == second[0]);
            assert(CharClass::Target.has(second[0]));
            lemma_blanks(seq![' '], z);
        }
    }
    // The name of a variable ends within the first target or behind it.
    crate::grammar::lemma_span(s, CharClass::VariableName);
    let n = span(s, CharClass::VariableName) as int;
    assert(n <= first.len()) by {
        if n > first.len() {
            assert(s[first.len() as int] == behind[0]);
            assert(CharClass::VariableName.has(s[first.len() as int]));
        }
    }
    if n == first.len() {
        assert(s.skip(n) =~= behind);
    } else {
        let name = first.skip(n);
        assert(s.skip(n) =~= name + behind);
        assert forall|j: int| 0 <= j < name.len() implies CharClass::Target.has(
            #[trigger] name[j],
        ) && name[j] != '=' by {
            assert(name[j] == first[n + j]);
            assert(CharClass::Target.has(first[n + j]));
        }
        assert(is_name(name));
        lemma_no_equals(name);
        lemma_no_operator(name, behind);
        assert((name + behind)[0] == name[0]);
        lemma_span_is(name + behind, CharClass::Blank, 0);
        assert((name + behind).skip(0) =~= name + behind);
    }
}

/// Rules whose targets hold no `=`, written out and parsed again, are the
/// same rules: see [`lemma_makefile`]. Each rule is one that can be read
/// back ([`is_rule`]).
pub proof fn lemma_makefile_of_plain_rules(rules: Seq<RuleView>)
    requires
        forall|k: int| 0 <= k < rules.len() ==> is_rule(#[trigger] rules[k]) && is_plain(rules[k]),
    ensures
        makefile(rules_text(rules)) == Ok::<(Text, MakefileView), Trace>(
            (Seq::empty(), MakefileView { variables: seq![], rules }),
        ),
{
    assert forall|k: int| 0 <= k < rules.len() implies #[trigger] variable(
        rules_text(rules.skip(k)),
    ) is Err by {
        let from = rules.skip(k);
        assert(from[0] == rules[k]);
        lemma_rule_is_no_variable(rules[k], rules_text(from.drop_first()));
    }
    lemma_makefile(rules);
}

} // verus!
