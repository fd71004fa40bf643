//! The parsers: from a text to the variables and rules it holds.
//!
//! Each one takes the text that is left and returns what is left behind what
//! it read, together with what it read. Its contract is the definition of
//! the same name in [`crate::grammar`].
use vstd::prelude::*;
use vstd::string::*;
use crate::error::{Context, Expected, ParseError, Trace};
use crate::grammar;
use crate::grammar::{all_of, span, stops, CharClass, Text};
use crate::text::{
    ends_with_backslash, line_ending, model, not_line_ending, skip_line_endings, space0, space1,
    tag, take_prefix, take_while,
};
use crate::types::{Assignment, Makefile, MakefileView, Rule, Variable};
pub use crate::text::{is_target_character, is_variable_name};

verus! {

/// What a parser returns: what is left of the text and what was read, or
/// the mismatch.
pub type ParseResult<'a, T> = Result<(&'a str, T), ParseError<'a>>;

/// Reads an assignment operator: `=`, `+=`, `?=`, `!=`, `:=` or `::=`.
pub fn parse_assignment_op<'a>(i: &'a str) -> (r: ParseResult<'a, Assignment>)
    ensures
        model(r) == grammar::assignment_op(i@),
{
    proof {
        reveal_strlit("=");
        reveal_strlit("+=");
        reveal_strlit("?=");
        reveal_strlit("!=");
        reveal_strlit(":=");
        reveal_strlit("::=");
        assert("="@ =~= seq!['=']);
        assert("+="@ =~= seq!['+', '=']);
        assert("?="@ =~= seq!['?', '=']);
        assert("!="@ =~= seq!['!', '=']);
        assert(":="@ =~= seq![':', '=']);
        assert("::="@ =~= seq![':', ':', '=']);
    }
    if let Some((rest, _)) = take_prefix(i, "=") {
        Ok((rest, Assignment::Recursive))
    } else if let Some((rest, _)) = take_prefix(i, "+=") {
        Ok((rest, Assignment::Append))
    } else if let Some((rest, _)) = take_prefix(i, "?=") {
        Ok((rest, Assignment::Conditional))
    } else if let Some((rest, _)) = take_prefix(i, "!=") {
        Ok((rest, Assignment::Shell))
    } else if let Some((rest, _)) = take_prefix(i, ":=") {
        Ok((rest, Assignment::Simple))
    } else if let Some((rest, _)) = take_prefix(i, "::=") {
        Ok((rest, Assignment::Simple))
    } else {
        Err(ParseError::new(i, Expected::Tag).append(i, Expected::Alt))
    }
}

/// Reads the name of a variable: the longest run of characters that may
/// stand in one. The run may be empty.
pub fn parse_variable_name<'a>(i: &'a str) -> (r: ParseResult<'a, &'a str>)
    ensures
        model(r) == Ok::<(Text, Text), Trace>(
            (
                i@.skip(span(i@, CharClass::VariableName) as int),
                i@.take(span(i@, CharClass::VariableName) as int),
            ),
        ),
        match r {
            Ok((rest, name)) => {
                &&& name@ + rest@ == i@
                &&& all_of(name@, CharClass::VariableName)
                &&& stops(rest@, CharClass::VariableName)
            },
            Err(_) => false,
        },
{
    proof {
        grammar::lemma_span(i@, CharClass::VariableName);
    }
    Ok(take_while(i, CharClass::VariableName))
}

/// Reads a variable assignment.
#[verifier::loop_isolation(false)]
pub fn parse_variable<'a>(i: &'a str) -> (r: ParseResult<'a, Variable<'a>>)
    ensures
        model(r) == grammar::variable(i@),
        match r {
            Ok((_, variable)) => variable@.value.len() >= 1,
            Err(_) => true,
        },
{
    proof {
        grammar::lemma_variable_consumes(i@);
    }
    let (i1, name) = take_while(i, CharClass::VariableName);
    let (i2, _) = space0(i1);
    let (i3, assignment) = match parse_assignment_op(i2) {
        Ok(found) => found,
        Err(e) => {
            return Err(e);
        },
    };
    let (i4, _) = space0(i3);
    let (i5, first) = match not_line_ending(i4) {
        Ok(found) => found,
        Err(e) => {
            return Err(e);
        },
    };
    let mut value: Vec<&'a str> = Vec::new();
    value.push(first);
    assert(value.deep_view() =~= seq![first@]);
    let mut cur = i5;
    let mut last = first;
    while ends_with_backslash(last)
        invariant
            grammar::prepend(seq![first@], grammar::continuation_lines(i5@, first@))
                == grammar::prepend(
                value.deep_view(),
                grammar::continuation_lines(cur@, last@),
            ),
        decreases cur@.len(),
    {
        let ghost before = value.deep_view();
        let (j1, _) = match line_ending(cur) {
            Ok(found) => found,
            Err(e) => {
                return Err(e);
            },
        };
        let (j2, _) = space0(j1);
        let (j3, line) = match not_line_ending(j2) {
            Ok(found) => found,
            Err(e) => {
                return Err(e);
            },
        };
        proof {
            grammar::lemma_span(j1@, CharClass::Blank);
            grammar::lemma_not_line_ending_len(j2@);
        }
        value.push(line);
        assert(value.deep_view() =~= before.push(line@));
        assert(before + (seq![line@] + grammar::continuation_lines(j3@, line@)->Ok_0.1)
            =~= before.push(line@) + grammar::continuation_lines(j3@, line@)->Ok_0.1);
        cur = j3;
        last = line;
    }
    assert(value.deep_view() + Seq::<Text>::empty() =~= value.deep_view());
    let rest = skip_line_endings(cur);
    Ok((rest, Variable { name, assignment, value }))
}

/// Reads the longest run of characters that may stand in the name of a
/// target. The run may be empty.
pub fn parse_target_name<'a>(i: &'a str) -> (r: ParseResult<'a, &'a str>)
    ensures
        model(r) == Ok::<(Text, Text), Trace>(
            (
                i@.skip(span(i@, CharClass::Target) as int),
                i@.take(span(i@, CharClass::Target) as int),
            ),
        ),
        match r {
            Ok((rest, name)) => {
                &&& name@ + rest@ == i@
                &&& all_of(name@, CharClass::Target)
                &&& stops(rest@, CharClass::Target)
            },
            Err(_) => false,
        },
{
    proof {
        grammar::lemma_span(i@, CharClass::Target);
    }
    Ok(take_while(i, CharClass::Target))
}

/// Reads a comment: one or more lines that start with `#`. Nothing is kept
/// of it, so what was read is the empty text.
pub fn parse_comment<'a>(i: &'a str) -> (r: ParseResult<'a, &'a str>)
    ensures
        model(r) == grammar::comment(i@),
{
    let mut cur = match parse_comment_line(i) {
        Ok(rest) => rest,
        Err(e) => {
            return Err(e.append(i, Expected::Many1));
        },
    };
    loop
        invariant
            grammar::comment_line(i@) is Ok,
            grammar::after_comment_lines(grammar::comment_line(i@)->Ok_0)
                == grammar::after_comment_lines(cur@),
        decreases cur@.len(),
    {
        proof {
            grammar::lemma_comment_line_consumes(cur@);
        }
        match parse_comment_line(cur) {
            Ok(rest) => {
                cur = rest;
            },
            Err(_) => {
                proof {
                    reveal_strlit("");
                }
                assert(""@ =~= Seq::<char>::empty());
                return Ok((cur, ""));
            },
        }
    }
}

/// Reads one line of a comment and the line endings behind it. Returns
/// what is left.
fn parse_comment_line<'a>(i: &'a str) -> (r: Result<&'a str, ParseError<'a>>)
    ensures
        match r {
            Ok(rest) => grammar::comment_line(i@) == Ok::<Text, Trace>(rest@),
            Err(e) => grammar::comment_line(i@) == Err::<Text, Trace>(e@),
        },
{
    proof {
        reveal_strlit("#");
        assert("#"@ =~= seq!['#']);
        grammar::lemma_tag_char(i@, '#');
    }
    let (i1, _) = match tag(i, "#") {
        Ok(found) => found,
        Err(e) => {
            return Err(e);
        },
    };
    let (i2, _) = match not_line_ending(i1) {
        Ok(found) => found,
        Err(e) => {
            return Err(e);
        },
    };
    Ok(skip_line_endings(i2))
}

/// Reads one line of a recipe: the blanks it starts with, of which there
/// must be one, then the rest of the line, which is what is returned, then
/// the line endings that follow.
pub fn parse_recipe<'a>(i: &'a str) -> (r: ParseResult<'a, &'a str>)
    ensures
        model(r) == grammar::recipe_line(i@),
{
    let (i1, _) = match space1(i) {
        Ok(found) => found,
        Err(e) => {
            return Err(e);
        },
    };
    match not_line_ending(i1) {
        Ok((i2, line)) => Ok((skip_line_endings(i2), line)),
        Err(_) => {
            proof {
                reveal_strlit("");
            }
            assert(""@ =~= Seq::<char>::empty());
            Ok((skip_line_endings(i1), ""))
        },
    }
}

/// Reads the lines of a recipe, as many as there are.
pub fn parse_recipes<'a>(i: &'a str) -> (r: ParseResult<'a, Vec<&'a str>>)
    ensures
        model(r) == Ok::<(Text, Seq<Text>), Trace>(grammar::recipes(i@)),
{
    let mut lines: Vec<&'a str> = Vec::new();
    let mut cur = i;
    assert(lines.deep_view() + grammar::recipes(i@).1 =~= grammar::recipes(i@).1);
    loop
        invariant
            grammar::recipes(i@) == (
                grammar::recipes(cur@).0,
                lines.deep_view() + grammar::recipes(cur@).1,
            ),
        decreases cur@.len(),
    {
        let ghost before = lines.deep_view();
        proof {
            grammar::lemma_recipe_line_consumes(cur@);
        }
        match parse_recipe(cur) {
            Ok((rest, line)) => {
                lines.push(line);
                assert(lines.deep_view() =~= before.push(line@));
                assert(before + (seq![line@] + grammar::recipes(rest@).1) =~= before.push(line@)
                    + grammar::recipes(rest@).1);
                cur = rest;
            },
            Err(_) => {
                assert(before + Seq::<Text>::empty() =~= before);
                return Ok((cur, lines));
            },
        }
    }
}

/// Reads the name of one target, with the blanks before and after it.
/// Fails where no name stands there.
pub fn parse_target_names<'a>(i: &'a str) -> (r: ParseResult<'a, &'a str>)
    ensures
        model(r) == grammar::target_name(i@),
{
    let (i1, _) = space0(i);
    let (i2, target) = take_while(i1, CharClass::Target);
    let (i3, _) = space0(i2);
    proof {
        grammar::lemma_span(i1@, CharClass::Target);
    }
    if target.is_empty() {
        Err(ParseError::new(i3, Expected::Eof))
    } else {
        Ok((i3, target))
    }
}

/// Reads the targets of a rule: one name or more.
pub fn parse_target_list<'a>(i: &'a str) -> (r: ParseResult<'a, Vec<&'a str>>)
    ensures
        model(r) == grammar::target_list(i@),
{
    let mut names: Vec<&'a str> = Vec::new();
    let mut cur = match parse_target_names(i) {
        Ok((rest, name)) => {
            names.push(name);
            rest
        },
        Err(e) => {
            return Err(e.append(i, Expected::Many1));
        },
    };
    assert(names.deep_view() =~= seq![grammar::target_name(i@)->Ok_0.1]);
    loop
        invariant
            grammar::target_names(i@) == (
                grammar::target_names(cur@).0,
                names.deep_view() + grammar::target_names(cur@).1,
            ),
            grammar::target_name(i@) is Ok,
        decreases cur@.len(),
    {
        let ghost before = names.deep_view();
        proof {
            grammar::lemma_target_name_consumes(cur@);
        }
        match parse_target_names(cur) {
            Ok((rest, name)) => {
                names.push(name);
                assert(names.deep_view() =~= before.push(name@));
                assert(before + (seq![name@] + grammar::target_names(rest@).1) =~= before.push(
                    name@,
                ) + grammar::target_names(rest@).1);
                cur = rest;
            },
            Err(_) => {
                assert(before + Seq::<Text>::empty() =~= before);
                return Ok((cur, names));
            },
        }
    }
}

/// Reads the name of one prerequisite, with the blanks before and after it
/// and, behind those, a backslash and a line ending where the list goes on
/// in the next line. Fails where no name stands there.
pub fn parse_prereqs<'a>(i: &'a str) -> (r: ParseResult<'a, &'a str>)
    ensures
        model(r) == grammar::prereq(i@),
{
    let (i1, _) = space0(i);
    let (i2, prereq) = take_while(i1, CharClass::Target);
    let (i3, _) = space0(i2);
    let i4 = skip_line_join(i3);
    proof {
        grammar::lemma_span(i1@, CharClass::Target);
    }
    if prereq.is_empty() {
        Err(ParseError::new(i4, Expected::Eof))
    } else {
        Ok((i4, prereq))
    }
}

/// Drops a backslash and the line ending behind it from the start of `i`,
/// where `i` starts with the two.
fn skip_line_join<'a>(i: &'a str) -> (r: &'a str)
    ensures
        r@ == grammar::after_line_join(i@),
{
    proof {
        reveal_strlit("\\");
        assert("\\"@ =~= seq!['\\']);
        grammar::lemma_tag_char(i@, '\\');
    }
    match take_prefix(i, "\\") {
        Some((i1, _)) => match line_ending(i1) {
            Ok((i2, _)) => {
                assert(i2@ =~= i@.skip(1 + grammar::line_break_len(i@.skip(1)) as int));
                i2
            },
            Err(_) => i,
        },
        None => i,
    }
}

/// Reads the prerequisites of a rule: the names that stand there, as many
/// as there are.
pub fn parse_prereqs_list<'a>(i: &'a str) -> (r: ParseResult<'a, Vec<&'a str>>)
    ensures
        model(r) == Ok::<(Text, Seq<Text>), Trace>(grammar::prereq_list(i@)),
{
    let mut names: Vec<&'a str> = Vec::new();
    let mut cur = i;
    assert(names.deep_view() + grammar::prereq_list(i@).1 =~= grammar::prereq_list(i@).1);
    loop
        invariant
            grammar::prereq_list(i@) == (
                grammar::prereq_list(cur@).0,
                names.deep_view() + grammar::prereq_list(cur@).1,
            ),
        decreases cur@.len(),
    {
        let ghost before = names.deep_view();
        proof {
            grammar::lemma_prereq_consumes(cur@);
        }
        match parse_prereqs(cur) {
            Ok((rest, name)) => {
                names.push(name);
                assert(names.deep_view() =~= before.push(name@));
                assert(before + (seq![name@] + grammar::prereq_list(rest@).1) =~= before.push(
                    name@,
                ) + grammar::prereq_list(rest@).1);
                cur = rest;
            },
            Err(_) => {
                assert(before + Seq::<Text>::empty() =~= before);
                return Ok((cur, names));
            },
        }
    }
}

/// Copies each line into a string of its own.
fn to_owned_lines(lines: &Vec<&str>) -> (r: Vec<String>)
    ensures
        r.deep_view() == lines.deep_view(),
{
    let mut owned: Vec<String> = Vec::new();
    let mut k: usize = 0;
    while k < lines.len()
        invariant
            k <= lines.len(),
            owned.len() == k,
            forall|j: int| 0 <= j < k ==> owned@[j]@ == lines@[j]@,
        decreases lines.len() - k,
    {
        owned.push(lines[k].to_owned());
        k += 1;
    }
    assert(owned.deep_view() =~= lines.deep_view());
    owned
}

/// Reads a rule: its targets, a `:` with blanks around it, its
/// prerequisites, a line ending, and its recipe. A failure among the
/// targets or at the `:` names that stage.
pub fn parse_rule<'a>(i: &'a str) -> (r: ParseResult<'a, Rule<'a>>)
    ensures
        model(r) == grammar::rule(i@),
        match r {
            Ok((_, rule)) => rule@.targets.len() >= 1,
            Err(_) => true,
        },
{
    proof {
        grammar::lemma_rule_consumes(i@);
        reveal_strlit(":");
        assert(":"@ =~= seq![':']);
    }
    let (i1, targets) = match parse_target_list(i) {
        Ok(found) => found,
        Err(e) => {
            return Err(e.append(i, Expected::Context(Context::Target)));
        },
    };
    let (i2, _) = space0(i1);
    proof {
        grammar::lemma_tag_char(i2@, ':');
    }
    let (i3, _) = match tag(i2, ":") {
        Ok(found) => found,
        Err(e) => {
            return Err(e.append(i2, Expected::Context(Context::Delimiter)));
        },
    };
    let (i4, _) = space0(i3);
    let (i5, prerequsities) = match parse_prereqs_list(i4) {
        Ok(found) => found,
        Err(e) => {
            return Err(e.append(i4, Expected::Context(Context::Prereqs)));
        },
    };
    let (i6, _) = match line_ending(i5) {
        Ok(found) => found,
        Err(e) => {
            return Err(e);
        },
    };
    let (i7, lines) = match parse_recipes(i6) {
        Ok(found) => found,
        Err(e) => {
            return Err(e.append(i6, Expected::Context(Context::Recipe)));
        },
    };
    let recipe = to_owned_lines(&lines);
    Ok((i7, Rule { targets, prerequsities, recipe }))
}

/// Reads a whole build description. At each place it takes, in this order
/// of preference, a line ending, a comment, a variable assignment or a
/// rule, and goes on until nothing is left. Where the text is none of the
/// four, the failure of the rule is returned.
pub fn parse_makefile<'a>(i: &'a str) -> (r: ParseResult<'a, Makefile<'a>>)
    ensures
        model(r) == grammar::makefile(i@),
        match r {
            Ok((rest, makefile)) => rest@.len() == 0 && grammar::is_parsed(makefile@),
            Err(_) => true,
        },
{
    let mut cur = i;
    let mut variables: Vec<Variable<'a>> = Vec::new();
    let mut rules: Vec<Rule<'a>> = Vec::new();
    loop
        invariant
            grammar::makefile(i@) == grammar::preceded_by(
                MakefileView { variables: variables.deep_view(), rules: rules.deep_view() },
                grammar::makefile(cur@),
            ),
        decreases cur@.len(),
    {
        let ghost before = MakefileView {
            variables: variables.deep_view(),
            rules: rules.deep_view(),
        };
        if cur.is_empty() {
            proof {
                grammar::lemma_makefile_result(i@);
            }
            assert(before.variables + Seq::empty() =~= before.variables);
            assert(before.rules + Seq::empty() =~= before.rules);
            return Ok((cur, Makefile { variables, rules }));
        }
        proof {
            grammar::lemma_comment_line_consumes(cur@);
            if grammar::comment_line(cur@) is Ok {
                grammar::lemma_after_comment_lines_len(grammar::comment_line(cur@)->Ok_0);
            }
            grammar::lemma_variable_consumes(cur@);
            grammar::lemma_rule_consumes(cur@);
        }
        match line_ending(cur) {
            Ok((rest, _)) => {
                cur = rest;
            },
            Err(_) => match parse_comment(cur) {
                Ok((rest, _)) => {
                    cur = rest;
                },
                Err(_) => match parse_variable(cur) {
                    Ok((rest, variable)) => {
                        variables.push(variable);
                        proof {
                            let next = grammar::makefile(rest@);
                            assert(variables.deep_view() =~= before.variables.push(variable@));
                            if next is Ok {
                                let m = next->Ok_0.1;
                                assert(before.variables + (seq![variable@] + m.variables)
                                    =~= before.variables.push(variable@) + m.variables);
                                assert(before.rules + (Seq::empty() + m.rules) =~= before.rules
                                    + m.rules);
                            }
                        }
                        cur = rest;
                    },
                    Err(_) => match parse_rule(cur) {
                        Ok((rest, rule)) => {
                            rules.push(rule);
                            proof {
                                let next = grammar::makefile(rest@);
                                assert(rules.deep_view() =~= before.rules.push(rule@));
                                if next is Ok {
                                    let m = next->Ok_0.1;
                                    assert(before.rules + (seq![rule@] + m.rules)
                                        =~= before.rules.push(rule@) + m.rules);
                                    assert(before.variables + (Seq::empty() + m.variables)
                                        =~= before.variables + m.variables);
                                }
                            }
                            cur = rest;
                        },
                        Err(e) => {
                            return Err(e);
                        },
                    },
                },
            },
        }
    }
}

} // verus!
