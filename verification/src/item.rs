//! The parsed form of a template: literal spans and expressions.

use vstd::prelude::*;

verus! {

/// The sigil that opens an expression and selects how its values are rendered.
/// An expression without a sigil has no operator.
#[derive(Clone, Copy, Debug, PartialEq, Eq)]
pub enum Operator {
    /// `+`
    Reserved,
    /// `#`
    Fragment,
    /// `.`
    Label,
    /// `/`
    PathSegment,
    /// `;`
    PathParameter,
    /// `?`
    FormQuery,
    /// `&`
    FormContinuation,
}

/// What may follow a variable's name: `:` and a length, or `*`.
#[derive(Clone, Copy, Debug, PartialEq, Eq)]
pub enum ModifierLevel4 {
    /// Keep only the first characters of a string value. The parser gives a length
    /// from 1 to 9999.
    Prefix(usize),
    /// Render each member of a list or an associative array on its own.
    Explode,
}

/// One variable of an expression.
#[derive(Clone, Debug, PartialEq, Eq)]
pub struct Varspec {
    pub varname: String,
    pub modifier_level4: Option<ModifierLevel4>,
}

/// One `{...}` construct.
#[derive(Clone, Debug, PartialEq, Eq)]
pub struct Expression {
    pub operator: Option<Operator>,
    pub variable_list: Vec<Varspec>,
}

/// One piece of a template.
#[derive(Clone, Debug, PartialEq, Eq)]
pub enum Item {
    /// Text that is written out as it stands.
    Literal(String),
    Expression(Expression),
}

/// A `Varspec` with its name as a sequence of characters.
pub struct VarspecView {
    pub varname: Seq<char>,
    pub modifier_level4: Option<ModifierLevel4>,
}

/// An `Expression` with its variables as a sequence.
pub struct ExpressionView {
    pub operator: Option<Operator>,
    pub variable_list: Seq<VarspecView>,
}

/// An `Item` with its text as a sequence of characters.
pub enum ItemView {
    Literal(Seq<char>),
    Expression(ExpressionView),
}

impl View for Varspec {
    type V = VarspecView;

    open spec fn view(&self) -> VarspecView {
        VarspecView { varname: self.varname@, modifier_level4: self.modifier_level4 }
    }
}

/// The views of a run of variables, in order.
pub open spec fn varspecs_view(list: Seq<Varspec>) -> Seq<VarspecView> {
    Seq::new(list.len(), |i: int| list[i]@)
}

impl View for Expression {
    type V = ExpressionView;

    open spec fn view(&self) -> ExpressionView {
        ExpressionView {
            operator: self.operator,
            variable_list: varspecs_view(self.variable_list@),
        }
    }
}

impl View for Item {
    type V = ItemView;

    open spec fn view(&self) -> ItemView {
        match self {
            Item::Literal(text) => ItemView::Literal(text@),
            Item::Expression(expression) => ItemView::Expression(expression@),
        }
    }
}

/// The views of a run of items, in order.
pub open spec fn items_view(items: Seq<Item>) -> Seq<ItemView> {
    Seq::new(items.len(), |i: int| items[i]@)
}

} // verus!
