use oxidize::error::ParseError;
use oxidize::parser::{
    is_variable_name, parse_assignment_op, parse_comment, parse_prereqs, parse_prereqs_list,
    parse_recipe, parse_recipes, parse_rule, parse_target_list, parse_target_name,
    parse_target_names, parse_variable, parse_variable_name,
};
use oxidize::types::{Assignment, Variable};

fn fail(e: ParseError) -> ! {
    println!("{:?}", e);
    panic!();
}

fn check_op(i: &str, o: Assignment) {
    match parse_assignment_op(i) {
        Ok((_, found)) => assert_eq!(o, found),
        Err(e) => fail(e),
    }
}

#[test]
fn test_parse_cond_op() {
    check_op("?=", Assignment::Conditional);
}

#[test]
fn test_parse_simple_op1() {
    check_op(":=", Assignment::Simple);
}

#[test]
fn test_parse_simple_op2() {
    check_op("::=", Assignment::Simple);
}

#[test]
fn test_parse_shell() {
    check_op("!=", Assignment::Shell);
}

#[test]
fn test_parse_recursive_op() {
    check_op("=", Assignment::Recursive);
}

#[test]
fn test_parse_append_op() {
    check_op("+=", Assignment::Append);
}

#[test]
fn test_is_variable_name() {
    if is_variable_name('?') {
        panic!("not a var name")
    }
    if is_variable_name('#') {
        panic!("not a var name")
    }
    if !is_variable_name('2') {
        panic!("it's a valid char")
    }
    if !is_variable_name('a') {
        panic!("it's a valid char")
    }
}

#[test]
fn test_parse_variable_name() {
    assert_eq!(parse_variable_name("bar#"), Ok(("#", "bar")));
    assert_eq!(parse_variable_name("b?ar"), Ok(("?ar", "b")));
    assert_eq!(parse_variable_name("b? ar"), Ok(("? ar", "b")));
}

#[test]
fn test_parse_variable() {
    assert_eq!(
        parse_variable("foo := bar\r\n"),
        Ok((
            "",
            Variable {
                name: "foo",
                assignment: Assignment::Simple,
                value: vec!("bar")
            }
        ))
    );
    assert_eq!(
        parse_variable("foo=\n"),
        Ok((
            "",
            Variable {
                name: "foo",
                assignment: Assignment::Recursive,
                value: vec!("")
            }
        ))
    );
}

#[test]
fn test_parse_multiline_variable() {
    let data = "CFLAGS = $(CDEBUG) -I. -I$(srcdir) $(DEFS) \\\n\t\t-DDEF_AR_FILE=\\\"$(DEF_AR_FILE)\\\" \\\n\t\t-DDEFBLOCKING=$(DEFBLOCKING)\n";
    let res = parse_variable(data);
    match res {
        Ok((i, o)) => {
            assert_eq!(o.name, "CFLAGS");
            assert_eq!(o.assignment, Assignment::Recursive);
            assert_eq!(o.value.len(), 3);
            assert_eq!(i, "");
        }
        Err(e) => fail(e),
    }
}

#[test]
fn test_parse_target_name() {
    assert_eq!(parse_target_name("foo.c"), Ok(("", "foo.c")));
    assert_eq!(parse_target_name("foo.*"), Ok(("", "foo.*")));
    assert_eq!(parse_target_name("$(SRCS)"), Ok(("", "$(SRCS)")));
    assert_eq!(parse_target_name("foo.[abc]??"), Ok(("", "foo.[abc]??")));
    assert_eq!(parse_target_name("/usr/src/foo"), Ok(("", "/usr/src/foo")));
    assert_eq!(
        parse_target_name(".\\file\\foo.ps1"),
        Ok(("", ".\\file\\foo.ps1"))
    );
    assert_eq!(parse_target_name("file<"), Ok(("<", "file")));
}

#[test]
fn test_parse_comment() {
    assert_eq!(parse_comment("#comment\n"), Ok(("", "")));
    assert_eq!(
        parse_comment("# Set this to rtapelib.o unless you defined NO_REMOTE,\n# in which case make it empty.\n"),
        Ok(("", ""))
    );
}

#[test]
fn test_parse_recipe_single() {
    let data = "\tshar $(SRCS) $(AUX) | compress\n";
    let res = parse_recipe(data);
    match res {
        Ok((_, o)) => {
            assert_eq!(o, "shar $(SRCS) $(AUX) | compress");
        }
        Err(e) => fail(e),
    }
}

#[test]
fn test_parse_recipe_list() {
    let data = "\tcc -c main.c \\\n\tfoo bar baz\n";
    let res = parse_recipes(data);
    match res {
        Ok((_, o)) => {
            assert_eq!(o.len(), 2);
            assert_eq!(o[0], "cc -c main.c \\");
            assert_eq!(o[1], "foo bar baz");
        }
        Err(e) => fail(e),
    }
}

#[test]
fn test_parse_prereq_literal() {
    assert_eq!(parse_prereqs("main.c"), Ok(("", "main.c")));
    assert_eq!(parse_prereqs(" main.c"), Ok(("", "main.c")));
    assert_eq!(parse_prereqs("main.c "), Ok(("", "main.c")));
    assert_eq!(parse_prereqs(" main.c "), Ok(("", "main.c")));
    assert_eq!(parse_prereqs(" main.c \\\n"), Ok(("", "main.c")));
}

#[test]
fn test_parse_prereqs_no_breaks() {
    let data = "main.o foo.o bar.o baz.o quuz.o\n";
    let res = parse_prereqs_list(data);
    match res {
        Ok((i, o)) => {
            assert_eq!(o.len(), 5);
            assert_eq!(o[0], "main.o");
            assert_eq!(o[4], "quuz.o");
            assert_eq!(i, "\n");
        }
        Err(e) => fail(e),
    }
}

#[test]
fn test_parse_prereqs_list_breaks() {
    let data = "main.o foo.o bar.o \\\n\t\t\t baz.o quuz.o\n";
    let res = parse_prereqs_list(data);
    match res {
        Ok((_, o)) => {
            assert_eq!(o.len(), 5);
            assert_eq!(o[0], "main.o");
            assert_eq!(o[4], "quuz.o");
        }
        Err(e) => fail(e),
    }
}

#[test]
fn test_parse_target_with_prereq() {
    let data = "main.o : main.c defs.h\n\tcc -c main.c\n";
    let res = parse_rule(data);
    match res {
        Ok((_, o)) => {
            assert!(o.targets.contains(&"main.o"));
            assert_eq!(o.prerequsities.len(), 2);
            assert_eq!(o.prerequsities[0], "main.c");
            assert_eq!(o.prerequsities[1], "defs.h");
            assert_eq!(o.recipe.len(), 1);
            assert_eq!(o.recipe[0], "cc -c main.c");
        }
        Err(e) => fail(e),
    }
}

#[test]
fn test_parse_target_no_prereq() {
    let data =
        "clean :\n\trm edit main.o kbd.o command.o display.o \\\n\t\tinsert.o search.o files.o utils.o\n";
    let res = parse_rule(data);
    match res {
        Ok((_, o)) => {
            assert!(o.targets.contains(&"clean"));
            assert_eq!(o.prerequsities.len(), 0);
            assert_eq!(o.recipe.len(), 2);
        }
        Err(e) => fail(e),
    }
}

#[test]
fn test_parse_target_split_prereqs_and_recipe() {
    let data = "edit : main.o kbd.o command.o display.o \\\n\tinsert.o search.o files.o utils.o\n\tcc -o edit main.o kbd.o command.o display.o \\\n\tinsert.o search.o files.o utils.o\n";
    let res = parse_rule(data);
    match res {
        Ok((_, o)) => {
            assert!(o.targets.contains(&"edit"));
            assert!(o.prerequsities.contains(&"main.o"));
            assert!(o.prerequsities.contains(&"utils.o"));
            assert_eq!(o.prerequsities.len(), 8);
            assert_eq!(o.recipe.len(), 2);
        }
        Err(e) => fail(e),
    }
}

#[test]
fn test_parse_phony_target() {
    let data = ".PHONY: all\n";
    let res = parse_rule(data);
    match res {
        Ok((_, o)) => {
            assert!(o.targets.contains(&".PHONY"));
            assert_eq!(o.prerequsities.len(), 1);
            assert_eq!(o.prerequsities[0], "all");
            assert_eq!(o.recipe.len(), 0);
        }
        Err(e) => fail(e),
    }
}

#[test]
fn test_parse_target_names() {
    assert_eq!(parse_target_names("main.c"), Ok(("", "main.c")));
    assert_eq!(parse_target_names(" main.c"), Ok(("", "main.c")));
    assert_eq!(parse_target_names("main.c "), Ok(("", "main.c")));
    assert_eq!(parse_target_names(" main.c "), Ok(("", "main.c")));
    assert_eq!(parse_target_names(" main.c\n :"), Ok(("\n :", "main.c")));
}

#[test]
fn test_parse_target_name_list() {
    assert_eq!(
        parse_target_list("main.c main.o:"),
        Ok((":", vec!["main.c", "main.o"]))
    );
}
