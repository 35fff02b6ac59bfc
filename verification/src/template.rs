//! The model of a URI Template: literal and expression components.

pub mod expand;
pub mod parse;

use vstd::prelude::*;

verus! {

// =============================================================================
// Template
// =============================================================================

/// A parsed URI Template: a sequence of literal and expression components.
#[derive(Debug, Eq, PartialEq)]
pub struct Template<'t> {
    components: Vec<Component<'t>>,
}

impl<'t> Template<'t> {
    pub fn new(components: Vec<Component<'t>>) -> (res: Self)
        ensures
            res@ == components@.map_values(|c: Component<'t>| c@),
    {
        Self { components }
    }

    pub fn components(&self) -> (res: &Vec<Component<'t>>)
        ensures
            res@.map_values(|c: Component<'t>| c@) == self@,
    {
        &self.components
    }
}

impl<'t> View for Template<'t> {
    type V = Seq<ComponentModel>;

    open spec fn view(&self) -> Seq<ComponentModel> {
        self.components_view()
    }
}

impl<'t> Template<'t> {
    pub closed spec fn components_view(&self) -> Seq<ComponentModel> {
        self.components@.map_values(|c: Component<'t>| c@)
    }
}

// -----------------------------------------------------------------------------

// Component

#[derive(Debug, Eq, PartialEq)]
pub enum Component<'t> {
    Literal(Literal<'t>),
    Expression(Expression<'t>),
}

/// The content of a component.
pub enum ComponentModel {
    Literal(Seq<char>),
    Expression(ExpressionModel),
}

impl<'t> View for Component<'t> {
    type V = ComponentModel;

    open spec fn view(&self) -> ComponentModel {
        match self {
            Component::Literal(literal) => ComponentModel::Literal(literal@),
            Component::Expression(expression) => ComponentModel::Expression(expression@),
        }
    }
}

// -----------------------------------------------------------------------------

// Expression

/// An expression: an optional operator and a list of variable specifications.
#[derive(Debug, Eq, PartialEq)]
pub struct Expression<'t> {
    pub operator: Option<Operator>,
    pub variable_list: VariableList<'t>,
}

/// The content of an expression.
pub struct ExpressionModel {
    pub operator: Option<Operator>,
    pub variable_list: Seq<(Seq<char>, Option<Modifier>)>,
}

pub open spec fn variable_specification_view<'t>(spec: VariableSpecification<'t>) -> (
    Seq<char>,
    Option<Modifier>,
) {
    (spec.0@, spec.1)
}

impl<'t> View for Expression<'t> {
    type V = ExpressionModel;

    open spec fn view(&self) -> ExpressionModel {
        ExpressionModel {
            operator: self.operator,
            variable_list: self.variable_list@.map_values(
                |spec: VariableSpecification<'t>| variable_specification_view(spec),
            ),
        }
    }
}

impl<'t> Expression<'t> {
    pub fn new(operator: Option<Operator>, variable_list: VariableList<'t>) -> (res: Self)
        ensures
            res.operator == operator,
            res.variable_list == variable_list,
    {
        Self { operator, variable_list }
    }
}

// -----------------------------------------------------------------------------

// Operator

#[derive(Clone, Copy, Debug, Eq, PartialEq, Structural)]
pub enum Operator {
    Level2(OpLevel2),
    Level3(OpLevel3),
}

#[derive(Clone, Copy, Debug, Eq, PartialEq, Structural)]
pub enum OpLevel2 {
    Fragment,
    Reserved,
}

#[derive(Clone, Copy, Debug, Eq, PartialEq, Structural)]
pub enum OpLevel3 {
    Label,
    Path,
    PathParameter,
    Query,
    QueryContinuation,
}

// -----------------------------------------------------------------------------

// Variables

pub type VariableList<'t> = Vec<VariableSpecification<'t>>;

pub type VariableSpecification<'t> = (VariableName<'t>, Option<Modifier>);

/// The name of a variable, as it stands in the template.
#[derive(Debug, Eq, PartialEq)]
pub struct VariableName<'t> {
    name: &'t str,
}

impl<'t> View for VariableName<'t> {
    type V = Seq<char>;

    closed spec fn view(&self) -> Seq<char> {
        self.name@
    }
}

impl<'t> VariableName<'t> {
    pub fn new(name: &'t str) -> (res: Self)
        ensures
            res@ == name@,
    {
        Self { name }
    }

    pub fn name(&self) -> (res: &str)
        ensures
            res@ == self@,
    {
        self.name
    }
}

// -----------------------------------------------------------------------------

// Modifier

#[derive(Clone, Copy, Debug, Eq, PartialEq, Structural)]
pub enum Modifier {
    Explode(Explode),
    Prefix(Prefix),
}

/// The explode modifier ("*").
#[derive(Clone, Copy, Debug, Eq, PartialEq, Structural)]
pub struct Explode;

impl Explode {
    pub fn new() -> (res: Self) {
        Self
    }
}

/// The prefix modifier (":" followed by a maximum length).
#[derive(Clone, Copy, Debug, Eq, PartialEq, Structural)]
pub struct Prefix {
    pub length: usize,
}

impl Prefix {
    pub fn new(length: usize) -> (res: Self)
        ensures
            res.length == length,
    {
        Self { length }
    }

    pub fn length(&self) -> (res: usize)
        ensures
            res == self.length,
    {
        self.length
    }
}

// -----------------------------------------------------------------------------

// Literal

/// A literal component, as it stands in the template.
#[derive(Debug, Eq, PartialEq)]
pub struct Literal<'t> {
    pub value: &'t str,
}

impl<'t> View for Literal<'t> {
    type V = Seq<char>;

    open spec fn view(&self) -> Seq<char> {
        self.value@
    }
}

impl<'t> Literal<'t> {
    pub fn new(value: &'t str) -> (res: Self)
        ensures
            res@ == value@,
    {
        Self { value }
    }
}

} // verus!
