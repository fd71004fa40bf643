//! The parsed form of a build description.
use vstd::prelude::*;

verus! {

/// The kind of a variable assignment.
#[derive(Debug, PartialEq, Eq, Clone, Copy)]
pub enum Assignment {
    /// `?=`: assigns only where the variable has no value yet.
    Conditional,
    /// `:=` or `::=`: the value is expanded once, when it is assigned.
    Simple,
    /// `=`: the value is expanded each time it is used.
    Recursive,
    /// `+=`: adds to the value the variable has.
    Append,
    /// `!=`: the value is the output of a shell command.
    Shell,
}

/// A variable assignment. `name` and the fragments of `value` are slices of
/// the text that was parsed.
///
/// `value` holds one fragment for each physical line of the assignment. A
/// line that is continued on the next one ends in a backslash, and the
/// fragment keeps it.
#[derive(Debug, PartialEq, Clone)]
pub struct Variable<'a> {
    pub name: &'a str,
    pub assignment: Assignment,
    pub value: Vec<&'a str>,
}

/// A rule: the targets it builds, what they depend on, and the command lines
/// that build them. A rule that was parsed has at least one target.
#[derive(Debug, PartialEq, Clone)]
pub struct Rule<'a> {
    pub targets: Vec<&'a str>,
    pub prerequsities: Vec<&'a str>,
    pub recipe: Vec<String>,
}

/// The contents of a build description: its variables and its rules, each in
/// source order. How the two were interleaved is not kept.
#[derive(Debug, PartialEq, Clone)]
pub struct Makefile<'a> {
    pub variables: Vec<Variable<'a>>,
    pub rules: Vec<Rule<'a>>,
}

/// What a [`Variable`] holds, as sequences of characters.
pub struct VariableView {
    pub name: Seq<char>,
    pub assignment: Assignment,
    pub value: Seq<Seq<char>>,
}

/// What a [`Rule`] holds, as sequences of characters.
pub struct RuleView {
    pub targets: Seq<Seq<char>>,
    pub prerequisites: Seq<Seq<char>>,
    pub recipe: Seq<Seq<char>>,
}

/// What a [`Makefile`] holds, as sequences of characters.
pub struct MakefileView {
    pub variables: Seq<VariableView>,
    pub rules: Seq<RuleView>,
}

impl DeepView for Assignment {
    type V = Assignment;

    open spec fn deep_view(&self) -> Assignment {
        *self
    }
}

impl<'a> DeepView for Variable<'a> {
    type V = VariableView;

    open spec fn deep_view(&self) -> VariableView {
        VariableView {
            name: self.name@,
            assignment: self.assignment,
            value: self.value.deep_view(),
        }
    }
}

impl<'a> View for Variable<'a> {
    type V = VariableView;

    open spec fn view(&self) -> VariableView {
        self.deep_view()
    }
}

impl<'a> DeepView for Rule<'a> {
    type V = RuleView;

    open spec fn deep_view(&self) -> RuleView {
        RuleView {
            targets: self.targets.deep_view(),
            prerequisites: self.prerequsities.deep_view(),
            recipe: self.recipe.deep_view(),
        }
    }
}

impl<'a> View for Rule<'a> {
    type V = RuleView;

    open spec fn view(&self) -> RuleView {
        self.deep_view()
    }
}

impl<'a> DeepView for Makefile<'a> {
    type V = MakefileView;

    open spec fn deep_view(&self) -> MakefileView {
        MakefileView { variables: self.variables.deep_view(), rules: self.rules.deep_view() }
    }
}

impl<'a> View for Makefile<'a> {
    type V = MakefileView;

    open spec fn view(&self) -> MakefileView {
        self.deep_view()
    }
}

} // verus!
