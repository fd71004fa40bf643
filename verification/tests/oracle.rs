use nom::branch::alt;
use nom::bytes::complete::{tag, take_while};
use nom::character::complete::{line_ending, not_line_ending, space0, space1};
use nom::combinator::opt;
use nom::error::{context, make_error, ErrorKind, VerboseError, VerboseErrorKind};
use nom::multi::{many0, many1};
use nom::sequence::tuple;
use nom::IResult;
use oxidize::error::{Context, Expected, ParseError};
use oxidize::parser;
use oxidize::types::{Assignment, Makefile, Rule, Variable};

type Res<'a, T> = IResult<&'a str, T, VerboseError<&'a str>>;

fn assignment_op(i: &str) -> Res<Assignment> {
    alt((
        nom::combinator::map(tag("="), |_| Assignment::Recursive),
        nom::combinator::map(tag("+="), |_| Assignment::Append),
        nom::combinator::map(tag("?="), |_| Assignment::Conditional),
        nom::combinator::map(tag("!="), |_| Assignment::Shell),
        nom::combinator::map(tag(":="), |_| Assignment::Simple),
        nom::combinator::map(tag("::="), |_| Assignment::Simple),
    ))(i)
}

fn variable_name(i: &str) -> Res<&str> {
    take_while(parser::is_variable_name)(i)
}

fn variable(i: &str) -> Res<Variable> {
    let (i, name) = variable_name(i)?;
    let (i, _) = space0(i)?;
    let (i, assignment) = assignment_op(i)?;
    let (i, _) = space0(i)?;
    let mut value: Vec<&str> = Vec::new();
    let (i, first) = not_line_ending(i)?;
    value.push(first);
    let mut i = i;
    if first.ends_with('\\') {
        loop {
            let (j, _) = line_ending(i)?;
            let (j, _) = space0(j)?;
            let (j, line) = not_line_ending(j)?;
            i = j;
            value.push(line);
            if !line.ends_with('\\') {
                break;
            }
        }
    }
    let (i, _) = many0(line_ending)(i)?;
    Ok((i, Variable { name, assignment, value }))
}

fn target_name(i: &str) -> Res<&str> {
    take_while(parser::is_target_character)(i)
}

fn comment(i: &str) -> Res<&str> {
    let (i, _) = many1(tuple((tag("#"), not_line_ending, many0(line_ending))))(i)?;
    Ok((i, ""))
}

fn recipe(i: &str) -> Res<&str> {
    let (i, _) = space1(i)?;
    let (i, line) = opt(not_line_ending)(i)?;
    let (i, _) = many0(line_ending)(i)?;
    Ok((i, line.unwrap_or("")))
}

fn recipes(i: &str) -> Res<Vec<&str>> {
    many0(recipe)(i)
}

fn target_names(i: &str) -> Res<&str> {
    let (i, _) = space0(i)?;
    let (i, target) = target_name(i)?;
    let (i, _) = space0(i)?;
    match target {
        "" => Err(nom::Err::Error(make_error(i, ErrorKind::Eof))),
        _ => Ok((i, target)),
    }
}

fn target_list(i: &str) -> Res<Vec<&str>> {
    many1(target_names)(i)
}

fn prereqs(i: &str) -> Res<&str> {
    let (i, _) = space0(i)?;
    let (i, prereq) = target_name(i)?;
    let (i, _) = space0(i)?;
    let (i, _) = opt(tuple((tag("\\"), line_ending)))(i)?;
    match prereq {
        "" => Err(nom::Err::Error(make_error(i, ErrorKind::Eof))),
        _ => Ok((i, prereq)),
    }
}

fn prereqs_list(i: &str) -> Res<Vec<&str>> {
    many0(prereqs)(i)
}

fn rule(i: &str) -> Res<Rule> {
    let (i, targets) = context("target", target_list)(i)?;
    let (i, _) = space0(i)?;
    let (i, _) = context("delimiter", tag(":"))(i)?;
    let (i, _) = space0(i)?;
    let (i, prerequsities) = context("prereqs", prereqs_list)(i)?;
    let (i, _) = line_ending(i)?;
    let (i, lines) = context("recipe", recipes)(i)?;
    let recipe = lines.into_iter().map(String::from).collect();
    Ok((i, Rule { targets, prerequsities, recipe }))
}

fn makefile(i: &str) -> Res<Makefile> {
    let mut i = i;
    let mut res = Makefile { rules: Vec::new(), variables: Vec::new() };
    loop {
        if i.is_empty() {
            break;
        }
        match line_ending::<_, VerboseError<&str>>(i) {
            Ok((j, _)) => i = j,
            Err(_) => match comment(i) {
                Ok((j, _)) => i = j,
                Err(_) => match variable(i) {
                    Ok((j, o)) => {
                        i = j;
                        res.variables.push(o);
                    }
                    Err(_) => match rule(i) {
                        Ok((j, o)) => {
                            i = j;
                            res.rules.push(o);
                        }
                        Err(e) => return Err(e),
                    },
                },
            },
        }
    }
    Ok((i, res))
}

fn expected(kind: &VerboseErrorKind) -> Expected {
    match kind {
        VerboseErrorKind::Nom(ErrorKind::Tag) => Expected::Tag,
        VerboseErrorKind::Nom(ErrorKind::Alt) => Expected::Alt,
        VerboseErrorKind::Nom(ErrorKind::CrLf) => Expected::CrLf,
        VerboseErrorKind::Nom(ErrorKind::Space) => Expected::Space,
        VerboseErrorKind::Nom(ErrorKind::Eof) => Expected::Eof,
        VerboseErrorKind::Nom(ErrorKind::Many1) => Expected::Many1,
        VerboseErrorKind::Context("target") => Expected::Context(Context::Target),
        VerboseErrorKind::Context("delimiter") => Expected::Context(Context::Delimiter),
        VerboseErrorKind::Context("prereqs") => Expected::Context(Context::Prereqs),
        VerboseErrorKind::Context("recipe") => Expected::Context(Context::Recipe),
        other => panic!("{:?}", other),
    }
}

fn same<'a, T>(theirs: Res<'a, T>) -> Result<(&'a str, T), ParseError<'a>> {
    match theirs {
        Ok(found) => Ok(found),
        Err(nom::Err::Error(e)) | Err(nom::Err::Failure(e)) => Err(ParseError {
            errors: e.errors.iter().map(|(input, kind)| (*input, expected(kind))).collect(),
        }),
        Err(nom::Err::Incomplete(_)) => unreachable!(),
    }
}

/// Texts over the characters that the grammar tells apart, by number.
fn text(mut n: u64, len: usize) -> String {
    let letters = [
        'a', ' ', '\n', ':', '=', '\\', '\t', '#', '\r', '+', '?', '!', '%', 'b', '.', '\u{e9}',
    ];
    let mut s = String::new();
    for _ in 0..len {
        s.push(letters[(n % 16) as usize]);
        n /= 16;
    }
    s
}

fn texts() -> Vec<String> {
    let mut all = Vec::new();
    for len in 0..=5 {
        for n in 0..(1u64 << (4 * len)) {
            all.push(text(n, len));
        }
    }
    let mut seed: u64 = 0x2545f4914f6cdd1d;
    for _ in 0..300000 {
        seed ^= seed << 13;
        seed ^= seed >> 7;
        seed ^= seed << 17;
        all.push(text(seed, 6 + (seed % 11) as usize));
    }
    all
}

#[test]
fn operators_as_nom_reads_them() {
    for s in texts() {
        assert_eq!(parser::parse_assignment_op(&s), same(assignment_op(&s)), "{:?}", s);
    }
}

#[test]
fn names_as_nom_reads_them() {
    for s in texts() {
        assert_eq!(parser::parse_variable_name(&s), same(variable_name(&s)), "{:?}", s);
        assert_eq!(parser::parse_target_name(&s), same(target_name(&s)), "{:?}", s);
        assert_eq!(parser::parse_target_names(&s), same(target_names(&s)), "{:?}", s);
        assert_eq!(parser::parse_prereqs(&s), same(prereqs(&s)), "{:?}", s);
    }
}

#[test]
fn lists_as_nom_reads_them() {
    for s in texts() {
        assert_eq!(parser::parse_target_list(&s), same(target_list(&s)), "{:?}", s);
        assert_eq!(parser::parse_prereqs_list(&s), same(prereqs_list(&s)), "{:?}", s);
        assert_eq!(parser::parse_recipes(&s), same(recipes(&s)), "{:?}", s);
    }
}

#[test]
fn lines_as_nom_reads_them() {
    for s in texts() {
        assert_eq!(parser::parse_comment(&s), same(comment(&s)), "{:?}", s);
        assert_eq!(parser::parse_recipe(&s), same(recipe(&s)), "{:?}", s);
    }
}

#[test]
fn variables_as_nom_reads_them() {
    for s in texts() {
        assert_eq!(parser::parse_variable(&s), same(variable(&s)), "{:?}", s);
    }
}

#[test]
fn rules_as_nom_reads_them() {
    for s in texts() {
        assert_eq!(parser::parse_rule(&s), same(rule(&s)), "{:?}", s);
    }
}

#[test]
fn makefiles_as_nom_reads_them() {
    for s in texts() {
        assert_eq!(parser::parse_makefile(&s), same(makefile(&s)), "{:?}", s);
    }
}
