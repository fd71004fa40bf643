use oxidize::error::{Context, Expected, ParseError};
use oxidize::parser::{
    is_target_character, is_variable_name, parse_assignment_op, parse_comment, parse_makefile,
    parse_prereqs, parse_prereqs_list, parse_recipe, parse_recipes, parse_rule,
    parse_target_list, parse_target_name, parse_target_names, parse_variable,
    parse_variable_name,
};
use oxidize::types::{Assignment, Makefile, Rule, Variable};

fn error(errors: Vec<(&str, Expected)>) -> ParseError {
    ParseError { errors }
}

#[test]
fn operator_leaves_the_rest() {
    assert_eq!(parse_assignment_op("= a"), Ok((" a", Assignment::Recursive)));
    assert_eq!(parse_assignment_op("+= a"), Ok((" a", Assignment::Append)));
    assert_eq!(parse_assignment_op("?=a"), Ok(("a", Assignment::Conditional)));
    assert_eq!(parse_assignment_op("!=ls\n"), Ok(("ls\n", Assignment::Shell)));
    assert_eq!(parse_assignment_op(":= a"), Ok((" a", Assignment::Simple)));
    assert_eq!(parse_assignment_op("::=::="), Ok(("::=", Assignment::Simple)));
    assert_eq!(parse_assignment_op("=="), Ok(("=", Assignment::Recursive)));
}

#[test]
fn operator_mismatch() {
    assert_eq!(
        parse_assignment_op("foo"),
        Err(error(vec![("foo", Expected::Tag), ("foo", Expected::Alt)]))
    );
    assert_eq!(
        parse_assignment_op(""),
        Err(error(vec![("", Expected::Tag), ("", Expected::Alt)]))
    );
    assert_eq!(
        parse_assignment_op(": ="),
        Err(error(vec![(": =", Expected::Tag), (": =", Expected::Alt)]))
    );
    assert_eq!(
        parse_assignment_op("+ ="),
        Err(error(vec![("+ =", Expected::Tag), ("+ =", Expected::Alt)]))
    );
}

#[test]
fn variable_name_characters() {
    for c in [':', '#', '=', '!', '?', ' ', '\t', '\r', '\n'] {
        assert!(!is_variable_name(c));
    }
    for c in ['a', 'Z', '0', '_', '-', '.', '+', '$', '(', ')', '%', '*', '/', '\\', 'é', '名'] {
        assert!(is_variable_name(c));
    }
}

#[test]
fn target_characters() {
    for c in ['#', '%', ':', '|', '"', '<', '>', ' ', '\t', '\r', '\n'] {
        assert!(!is_target_character(c));
    }
    for c in ['a', 'Z', '0', '_', '-', '.', '*', '?', '[', ']', '/', '\\', '$', '=', '!', 'é'] {
        assert!(is_target_character(c));
    }
}

#[test]
fn variable_name_takes_all_or_stops_before_the_first_other_character() {
    assert_eq!(parse_variable_name("CFLAGS"), Ok(("", "CFLAGS")));
    assert_eq!(parse_variable_name(""), Ok(("", "")));
    assert_eq!(parse_variable_name("a+b.c-d_e"), Ok(("", "a+b.c-d_e")));
    assert_eq!(parse_variable_name("na\u{ef}ve"), Ok(("", "na\u{ef}ve")));
    assert_eq!(parse_variable_name("ab:cd:ef"), Ok((":cd:ef", "ab")));
    assert_eq!(parse_variable_name("ab=cd"), Ok(("=cd", "ab")));
    assert_eq!(parse_variable_name("ab!cd"), Ok(("!cd", "ab")));
    assert_eq!(parse_variable_name("ab cd"), Ok((" cd", "ab")));
    assert_eq!(parse_variable_name("ab\tcd"), Ok(("\tcd", "ab")));
    assert_eq!(parse_variable_name("ab\r\ncd"), Ok(("\r\ncd", "ab")));
    assert_eq!(parse_variable_name("ab\ncd"), Ok(("\ncd", "ab")));
    assert_eq!(parse_variable_name("#ab"), Ok(("#ab", "")));
    assert_eq!(parse_variable_name("\u{540d}\u{524d} = x"), Ok((" = x", "\u{540d}\u{524d}")));
}

#[test]
fn target_name_stops_before_the_first_other_character() {
    assert_eq!(parse_target_name("a%b"), Ok(("%b", "a")));
    assert_eq!(parse_target_name("a|b"), Ok(("|b", "a")));
    assert_eq!(parse_target_name("a\"b"), Ok(("\"b", "a")));
    assert_eq!(parse_target_name("a>b"), Ok((">b", "a")));
    assert_eq!(parse_target_name("a=b:c"), Ok((":c", "a=b")));
    assert_eq!(parse_target_name("caf\u{e9}.o: x"), Ok((": x", "caf\u{e9}.o")));
    assert_eq!(parse_target_name(" a"), Ok((" a", "")));
}

fn single(name: &'static str, assignment: Assignment, value: &'static str) -> Variable<'static> {
    Variable { name, assignment, value: vec![value] }
}

#[test]
fn single_line_variable() {
    assert_eq!(parse_variable("CC = gcc\n"), Ok(("", single("CC", Assignment::Recursive, "gcc"))));
    assert_eq!(parse_variable("CC=gcc\n"), Ok(("", single("CC", Assignment::Recursive, "gcc"))));
    assert_eq!(parse_variable("CC\t:=\tgcc\n"), Ok(("", single("CC", Assignment::Simple, "gcc"))));
    assert_eq!(parse_variable("CC::=gcc\n"), Ok(("", single("CC", Assignment::Simple, "gcc"))));
    assert_eq!(parse_variable("CC ?= gcc\n"), Ok(("", single("CC", Assignment::Conditional, "gcc"))));
    assert_eq!(parse_variable("CC?=gcc\n"), Ok(("", single("CC", Assignment::Conditional, "gcc"))));
    assert_eq!(parse_variable("CC += -O2 -g\n"), Ok(("", single("CC", Assignment::Append, "-O2 -g"))));
    assert_eq!(parse_variable("NOW != date\n"), Ok(("", single("NOW", Assignment::Shell, "date"))));
    assert_eq!(parse_variable("NOW!=date\n"), Ok(("", single("NOW", Assignment::Shell, "date"))));
    assert_eq!(parse_variable("= x\n"), Ok(("", single("", Assignment::Recursive, "x"))));
    assert_eq!(parse_variable("A = b = c\n"), Ok(("", single("A", Assignment::Recursive, "b = c"))));
}

#[test]
fn plus_belongs_to_a_name_that_it_follows_directly() {
    assert_eq!(parse_variable("a+=b\n"), Ok(("", single("a+", Assignment::Recursive, "b"))));
    assert_eq!(parse_variable("a +=b\n"), Ok(("", single("a", Assignment::Append, "b"))));
}

#[test]
fn variable_without_line_ending_and_what_it_leaves() {
    assert_eq!(parse_variable("A = b"), Ok(("", single("A", Assignment::Recursive, "b"))));
    assert_eq!(parse_variable("A ="), Ok(("", single("A", Assignment::Recursive, ""))));
    assert_eq!(
        parse_variable("A = b\n\n\r\n\nB = c\n"),
        Ok(("B = c\n", single("A", Assignment::Recursive, "b")))
    );
    assert_eq!(
        parse_variable("A = b \n\tnext"),
        Ok(("\tnext", single("A", Assignment::Recursive, "b ")))
    );
}

#[test]
fn continued_variable_keeps_one_fragment_for_each_line() {
    let data = "SRCS = a.c \\\n\tb.c \\\r\n   c.c\n\n\nnext";
    assert_eq!(
        parse_variable(data),
        Ok((
            "next",
            Variable {
                name: "SRCS",
                assignment: Assignment::Recursive,
                value: vec!["a.c \\", "b.c \\", "c.c"],
            }
        ))
    );
    assert_eq!(
        parse_variable("A = \\\n\\\nb\n"),
        Ok((
            "",
            Variable { name: "A", assignment: Assignment::Recursive, value: vec!["\\", "\\", "b"] }
        ))
    );
    assert_eq!(
        parse_variable("A = x\\\n\n"),
        Ok((
            "",
            Variable { name: "A", assignment: Assignment::Recursive, value: vec!["x\\", ""] }
        ))
    );
}

#[test]
fn variable_mismatches() {
    assert_eq!(
        parse_variable("all: main.o\n"),
        Err(error(vec![(": main.o\n", Expected::Tag), (": main.o\n", Expected::Alt)]))
    );
    assert_eq!(
        parse_variable("name  value\n"),
        Err(error(vec![("value\n", Expected::Tag), ("value\n", Expected::Alt)]))
    );
    assert_eq!(
        parse_variable("A = b\rc\n"),
        Err(error(vec![("b\rc\n", Expected::Tag)]))
    );
    assert_eq!(parse_variable("A = b\\"), Err(error(vec![("", Expected::CrLf)])));
    assert_eq!(
        parse_variable("A = b\\\n\tc\rd"),
        Err(error(vec![("c\rd", Expected::Tag)]))
    );
}

#[test]
fn comment_lines() {
    assert_eq!(parse_comment("#"), Ok(("", "")));
    assert_eq!(parse_comment("# a\n\n\n# b\r\n#c\nall: x\n"), Ok(("all: x\n", "")));
    assert_eq!(parse_comment("#a\n #b\n"), Ok((" #b\n", "")));
    assert_eq!(
        parse_comment("a # b\n"),
        Err(error(vec![("a # b\n", Expected::Tag), ("a # b\n", Expected::Many1)]))
    );
    assert_eq!(
        parse_comment(""),
        Err(error(vec![("", Expected::Tag), ("", Expected::Many1)]))
    );
    assert_eq!(
        parse_comment("#a\rb\n"),
        Err(error(vec![("a\rb\n", Expected::Tag), ("#a\rb\n", Expected::Many1)]))
    );
    assert_eq!(parse_comment("#a\n#b\rc\n"), Ok(("#b\rc\n", "")));
}

#[test]
fn recipe_lines() {
    assert_eq!(parse_recipe("\tcc -c a.c\n\n\nb:\n"), Ok(("b:\n", "cc -c a.c")));
    assert_eq!(parse_recipe("    cc\r\n"), Ok(("", "cc")));
    assert_eq!(parse_recipe("\t\n\tx\n"), Ok(("\tx\n", "")));
    assert_eq!(parse_recipe("\t"), Ok(("", "")));
    assert_eq!(parse_recipe("\tcc"), Ok(("", "cc")));
    assert_eq!(parse_recipe("\ta\rb\n"), Ok(("a\rb\n", "")));
    assert_eq!(parse_recipe("cc\n"), Err(error(vec![("cc\n", Expected::Space)])));
    assert_eq!(parse_recipe(""), Err(error(vec![("", Expected::Space)])));
    assert_eq!(parse_recipe("\n\tcc\n"), Err(error(vec![("\n\tcc\n", Expected::Space)])));
}

#[test]
fn recipe_list() {
    assert_eq!(parse_recipes("all:\n"), Ok(("all:\n", vec![])));
    assert_eq!(parse_recipes(""), Ok(("", vec![])));
    assert_eq!(
        parse_recipes("\ta\n \tb\n\n\t\tc\nnext: x\n"),
        Ok(("next: x\n", vec!["a", "b", "c"]))
    );
}

#[test]
fn target_names() {
    assert_eq!(parse_target_names("  a.o\t b.o"), Ok(("b.o", "a.o")));
    assert_eq!(parse_target_names("*.c:"), Ok((":", "*.c")));
    assert_eq!(parse_target_names("  :"), Err(error(vec![(":", Expected::Eof)])));
    assert_eq!(parse_target_names(""), Err(error(vec![("", Expected::Eof)])));
    assert_eq!(parse_target_names(" \t"), Err(error(vec![("", Expected::Eof)])));
    assert_eq!(parse_target_names("\n"), Err(error(vec![("\n", Expected::Eof)])));
}

#[test]
fn target_list() {
    assert_eq!(parse_target_list("a"), Ok(("", vec!["a"])));
    assert_eq!(parse_target_list(" a  b\tc :x"), Ok((":x", vec!["a", "b", "c"])));
    assert_eq!(parse_target_list("a \\\n b:"), Ok(("\n b:", vec!["a", "\\"])));
    assert_eq!(
        parse_target_list("  : a"),
        Err(error(vec![(": a", Expected::Eof), ("  : a", Expected::Many1)]))
    );
    assert_eq!(
        parse_target_list(""),
        Err(error(vec![("", Expected::Eof), ("", Expected::Many1)]))
    );
}

#[test]
fn prerequisite_names() {
    assert_eq!(parse_prereqs("a.o b.o"), Ok(("b.o", "a.o")));
    assert_eq!(parse_prereqs("a.o \\\r\n\tb.o"), Ok(("\tb.o", "a.o")));
    assert_eq!(parse_prereqs("a.o \\b.o"), Ok(("\\b.o", "a.o")));
    assert_eq!(parse_prereqs("a.o\\\nb.o"), Ok(("\nb.o", "a.o\\")));
    assert_eq!(parse_prereqs("\\\n"), Ok(("\n", "\\")));
    assert_eq!(parse_prereqs("\n"), Err(error(vec![("\n", Expected::Eof)])));
    assert_eq!(parse_prereqs("  \n"), Err(error(vec![("\n", Expected::Eof)])));
    assert_eq!(parse_prereqs(""), Err(error(vec![("", Expected::Eof)])));
}

#[test]
fn prerequisites_on_two_lines_are_those_on_one() {
    let flat = parse_prereqs_list("main.o kbd.o command.o display.o\n").unwrap();
    let broken = parse_prereqs_list("main.o kbd.o \\\n\t command.o \\\r\ndisplay.o\n").unwrap();
    assert_eq!(flat, ("\n", vec!["main.o", "kbd.o", "command.o", "display.o"]));
    assert_eq!(broken, flat);
}

#[test]
fn prerequisite_list_may_be_empty() {
    assert_eq!(parse_prereqs_list("\n\tcc\n"), Ok(("\n\tcc\n", vec![])));
    assert_eq!(parse_prereqs_list(""), Ok(("", vec![])));
    assert_eq!(parse_prereqs_list("  \n"), Ok(("  \n", vec![])));
    assert_eq!(parse_prereqs_list("a  \n"), Ok(("\n", vec!["a"])));
    assert_eq!(parse_prereqs_list("a \\\n"), Ok(("", vec!["a"])));
}

fn rule(targets: Vec<&'static str>, prerequsities: Vec<&'static str>, recipe: Vec<&str>) -> Rule<'static> {
    Rule { targets, prerequsities, recipe: recipe.iter().map(|line| line.to_string()).collect() }
}

#[test]
fn rule_with_two_targets_and_two_prerequisites() {
    assert_eq!(
        parse_rule("t1 t2 : p1 p2\n\trecipe1\n\trecipe2\n"),
        Ok(("", rule(vec!["t1", "t2"], vec!["p1", "p2"], vec!["recipe1", "recipe2"])))
    );
}

#[test]
fn blanks_around_the_colon_do_not_show() {
    let read = rule(vec!["t1", "t2"], vec!["p1", "p2"], vec!["recipe1", "recipe2"]);
    for header in ["t1 t2:p1 p2", "t1 t2: p1 p2", "t1 t2 :p1 p2", "t1 t2 \t : \t p1 p2"] {
        let text = format!("{}\n\trecipe1\n\trecipe2\n", header);
        assert_eq!(parse_rule(&text).map(|(rest, rule)| (rest.len(), rule)), Ok((0, read.clone())));
    }
    assert_eq!(parse_rule("clean :\n"), Ok(("", rule(vec!["clean"], vec![], vec![]))));
    assert_eq!(parse_rule("clean : \n"), Ok(("", rule(vec!["clean"], vec![], vec![]))));
}

#[test]
fn rule_without_prerequisites() {
    assert_eq!(
        parse_rule("clean:\n\trm -f *.o\n"),
        Ok(("", rule(vec!["clean"], vec![], vec!["rm -f *.o"])))
    );
}

#[test]
fn rule_without_recipe_and_what_it_leaves() {
    assert_eq!(
        parse_rule("all: a b\nnext: c\n"),
        Ok(("next: c\n", rule(vec!["all"], vec!["a", "b"], vec![])))
    );
    assert_eq!(
        parse_rule("all:a\r\n\n\tcc\n"),
        Ok(("\n\tcc\n", rule(vec!["all"], vec!["a"], vec![])))
    );
    assert_eq!(
        parse_rule("caf\u{e9} : na\u{ef}ve\n\t\u{e9}cho \u{2713}\n"),
        Ok(("", rule(vec!["caf\u{e9}"], vec!["na\u{ef}ve"], vec!["\u{e9}cho \u{2713}"])))
    );
}

#[test]
fn rule_mismatches_name_their_stage() {
    assert_eq!(
        parse_rule(":\n"),
        Err(error(vec![
            (":\n", Expected::Eof),
            (":\n", Expected::Many1),
            (":\n", Expected::Context(Context::Target)),
        ]))
    );
    assert_eq!(
        parse_rule("  # no rule\n"),
        Err(error(vec![
            ("# no rule\n", Expected::Eof),
            ("  # no rule\n", Expected::Many1),
            ("  # no rule\n", Expected::Context(Context::Target)),
        ]))
    );
    assert_eq!(
        parse_rule("foo bar\n"),
        Err(error(vec![
            ("\n", Expected::Tag),
            ("\n", Expected::Context(Context::Delimiter)),
        ]))
    );
    assert_eq!(
        parse_rule("foo %.c: x\n"),
        Err(error(vec![
            ("%.c: x\n", Expected::Tag),
            ("%.c: x\n", Expected::Context(Context::Delimiter)),
        ]))
    );
    assert_eq!(parse_rule("a: b"), Err(error(vec![("", Expected::CrLf)])));
    assert_eq!(parse_rule("a: b | c\n"), Err(error(vec![("| c\n", Expected::CrLf)])));
    assert_eq!(parse_rule("a: b\rc\n"), Err(error(vec![("\rc\n", Expected::CrLf)])));
}

const SAMPLE: &str = "# A sample\n# of everything\n\nCC = gcc\nCFLAGS := -O2 \\\n\t-Wall\n\n.PHONY: all clean\nall: edit\n\nedit : main.o kbd.o \\\n       utils.o\n\tcc -o edit main.o kbd.o \\\n\t\tutils.o\n\nmain.o kbd.o: defs.h\n\tcc -c $*.c\n# cleaning\nclean:\n\trm -f edit *.o\nLATE ?= yes\n";

#[test]
fn whole_makefile() {
    let (rest, makefile) = parse_makefile(SAMPLE).unwrap();
    assert_eq!(rest, "");
    assert_eq!(
        makefile,
        Makefile {
            variables: vec![
                single("CC", Assignment::Recursive, "gcc"),
                Variable {
                    name: "CFLAGS",
                    assignment: Assignment::Simple,
                    value: vec!["-O2 \\", "-Wall"],
                },
                single("LATE", Assignment::Conditional, "yes"),
            ],
            rules: vec![
                rule(vec![".PHONY"], vec!["all", "clean"], vec![]),
                rule(vec!["all"], vec!["edit"], vec![]),
                rule(
                    vec!["edit"],
                    vec!["main.o", "kbd.o", "utils.o"],
                    vec!["cc -o edit main.o kbd.o \\", "utils.o"],
                ),
                rule(vec!["main.o", "kbd.o"], vec!["defs.h"], vec!["cc -c $*.c"]),
                rule(vec!["clean"], vec![], vec!["rm -f edit *.o"]),
            ],
        }
    );
}

#[test]
fn empty_and_blank_makefiles() {
    let nothing = Makefile { variables: vec![], rules: vec![] };
    assert_eq!(parse_makefile(""), Ok(("", nothing.clone())));
    assert_eq!(parse_makefile("\n\r\n\n"), Ok(("", nothing.clone())));
    assert_eq!(parse_makefile("# only a comment"), Ok(("", nothing)));
}

#[test]
fn makefile_reports_the_mismatch_of_the_rule() {
    assert_eq!(
        parse_makefile("CC = gcc\nthis is no rule\n"),
        Err(error(vec![
            ("\n", Expected::Tag),
            ("\n", Expected::Context(Context::Delimiter)),
        ]))
    );
    assert_eq!(
        parse_makefile("CC = gcc\n  \nall: a\n"),
        Err(error(vec![
            ("\nall: a\n", Expected::Eof),
            ("  \nall: a\n", Expected::Many1),
            ("  \nall: a\n", Expected::Context(Context::Target)),
        ]))
    );
    assert_eq!(
        parse_makefile("a: b\n%.o: %.c\n"),
        Err(error(vec![
            ("%.o: %.c\n", Expected::Eof),
            ("%.o: %.c\n", Expected::Many1),
            ("%.o: %.c\n", Expected::Context(Context::Target)),
        ]))
    );
}

#[test]
fn a_line_of_blanks_behind_a_rule_is_a_line_of_its_recipe() {
    assert_eq!(
        parse_makefile("all: a\n\tcc\n  \n"),
        Ok(("", Makefile { variables: vec![], rules: vec![rule(vec!["all"], vec!["a"], vec!["cc", ""])] }))
    );
}

#[test]
fn a_variable_is_preferred_to_a_rule() {
    let (_, makefile) = parse_makefile("a=b: c\n").unwrap();
    assert_eq!(makefile.rules.len(), 0);
    assert_eq!(makefile.variables, vec![single("a", Assignment::Recursive, "b: c")]);
}

fn render(rules: &[Rule]) -> String {
    let mut text = String::new();
    for rule in rules {
        text.push_str(&rule.targets.join(" "));
        text.push(':');
        if !rule.prerequsities.is_empty() {
            text.push(' ');
            text.push_str(&rule.prerequsities.join(" "));
        }
        text.push('\n');
        for line in &rule.recipe {
            text.push('\t');
            text.push_str(line);
            text.push('\n');
        }
    }
    text
}

#[test]
fn targets_without_an_equals_sign_make_a_rule() {
    let rules = vec![
        rule(vec!["what?", "now!"], vec!["a?b", "c=d"], vec!["echo"]),
        rule(vec!["!", "?x"], vec![], vec![]),
        rule(vec!["a+", "+b"], vec!["="], vec!["x = y"]),
        rule(vec!["?"], vec!["!"], vec![]),
    ];
    let text = render(&rules);
    let (rest, read) = parse_makefile(&text).unwrap();
    assert_eq!(rest, "");
    assert_eq!(read.variables.len(), 0);
    assert_eq!(read.rules, rules);
}

#[test]
fn rules_written_out_are_read_back() {
    let (_, first) = parse_makefile(SAMPLE).unwrap();
    let text = render(&first.rules);
    assert_eq!(
        text,
        ".PHONY: all clean\nall: edit\nedit: main.o kbd.o utils.o\n\tcc -o edit main.o kbd.o \\\n\tutils.o\nmain.o kbd.o: defs.h\n\tcc -c $*.c\nclean:\n\trm -f edit *.o\n"
    );
    let (rest, second) = parse_makefile(&text).unwrap();
    assert_eq!(rest, "");
    assert_eq!(second.variables.len(), 0);
    assert_eq!(second.rules, first.rules);
}
