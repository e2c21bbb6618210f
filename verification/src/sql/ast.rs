use crate::value::{DataType, SpecValue, Value};
use vstd::prelude::*;

verus! {

/// A parsed SQL statement.
#[derive(Debug, PartialEq, Eq)]
pub enum Statement {
    CreateTable(CreateTableStatement),
    Insert(InsertStatement),
    Select(SelectStatement),
    Update(UpdateStatement),
    Delete(DeleteStatement),
}

#[derive(Debug, PartialEq, Eq)]
pub struct CreateTableStatement {
    pub table: String,
    pub columns: Vec<ColumnDefinition>,
}

#[derive(Debug, PartialEq, Eq)]
pub struct ColumnDefinition {
    pub name: String,
    pub data_type: DataType,
}

#[derive(Debug, PartialEq, Eq)]
pub struct InsertStatement {
    pub table: String,
    pub values: Vec<Expression>,
}

#[derive(Debug, PartialEq, Eq)]
pub struct SelectStatement {
    pub projections: Vec<SelectItem>,
    pub table: String,
    pub filter: Option<Expression>,
}

/// One item between `SELECT` and `FROM`.
#[derive(Debug, PartialEq, Eq)]
pub enum SelectItem {
    /// `*` requests every column.
    Wildcard,
    /// Named columns and calculated projections share expression syntax.
    Expression(Expression),
}

#[derive(Debug, PartialEq, Eq)]
pub struct UpdateStatement {
    pub table: String,
    pub assignments: Vec<Assignment>,
    pub filter: Option<Expression>,
}

#[derive(Debug, PartialEq, Eq)]
pub struct Assignment {
    pub column: String,
    pub value: Expression,
}

#[derive(Debug, PartialEq, Eq)]
pub struct DeleteStatement {
    pub table: String,
    pub filter: Option<Expression>,
}

#[derive(Debug, PartialEq, Eq)]
pub enum Expression {
    Literal(Value),
    Column(String),
    Binary { left: Box<Expression>, operator: BinaryOperator, right: Box<Expression> },
    Unary { operator: UnaryOperator, expression: Box<Expression> },
}

#[derive(Debug, Clone, Copy, PartialEq, Eq, Structural)]
pub enum BinaryOperator {
    Or,
    And,
    Equal,
    NotEqual,
    LessThan,
    LessThanOrEqual,
    GreaterThan,
    GreaterThanOrEqual,
    Add,
    Subtract,
    Multiply,
    Divide,
}

#[derive(Debug, Clone, Copy, PartialEq, Eq, Structural)]
pub enum UnaryOperator {
    Not,
    Negate,
}

/// The content of an expression.
pub enum SpecExpr {
    Literal(SpecValue),
    Column(Seq<char>),
    Binary { left: Box<SpecExpr>, operator: BinaryOperator, right: Box<SpecExpr> },
    Unary { operator: UnaryOperator, expression: Box<SpecExpr> },
}

pub open spec fn expr_view(e: Expression) -> SpecExpr
    decreases e,
{
    match e {
        Expression::Literal(v) => SpecExpr::Literal(v@),
        Expression::Column(c) => SpecExpr::Column(c@),
        Expression::Binary { left, operator, right } => SpecExpr::Binary {
            left: Box::new(expr_view(*left)),
            operator,
            right: Box::new(expr_view(*right)),
        },
        Expression::Unary { operator, expression } => SpecExpr::Unary {
            operator,
            expression: Box::new(expr_view(*expression)),
        },
    }
}

impl View for Expression {
    type V = SpecExpr;

    open spec fn view(&self) -> SpecExpr {
        expr_view(*self)
    }
}

impl Clone for Expression {
    fn clone(&self) -> (r: Self)
        ensures
            r@ == self@,
        decreases self,
    {
        match self {
            Expression::Literal(v) => Expression::Literal(v.clone()),
            Expression::Column(c) => Expression::Column(c.clone()),
            Expression::Binary { left, operator, right } => Expression::Binary {
                left: Box::new((**left).clone()),
                operator: *operator,
                right: Box::new((**right).clone()),
            },
            Expression::Unary { operator, expression } => Expression::Unary {
                operator: *operator,
                expression: Box::new((**expression).clone()),
            },
        }
    }
}

pub struct SpecColumnDefinition {
    pub name: Seq<char>,
    pub data_type: DataType,
}

pub struct SpecAssignment {
    pub column: Seq<char>,
    pub value: SpecExpr,
}

pub enum SpecSelectItem {
    Wildcard,
    Expression(SpecExpr),
}

/// The content of a statement.
pub enum SpecStatement {
    CreateTable { table: Seq<char>, columns: Seq<SpecColumnDefinition> },
    Insert { table: Seq<char>, values: Seq<SpecExpr> },
    Select { projections: Seq<SpecSelectItem>, table: Seq<char>, filter: Option<SpecExpr> },
    Update { table: Seq<char>, assignments: Seq<SpecAssignment>, filter: Option<SpecExpr> },
    Delete { table: Seq<char>, filter: Option<SpecExpr> },
}

impl View for ColumnDefinition {
    type V = SpecColumnDefinition;

    open spec fn view(&self) -> SpecColumnDefinition {
        SpecColumnDefinition { name: self.name@, data_type: self.data_type }
    }
}

impl View for Assignment {
    type V = SpecAssignment;

    open spec fn view(&self) -> SpecAssignment {
        SpecAssignment { column: self.column@, value: self.value@ }
    }
}

impl View for SelectItem {
    type V = SpecSelectItem;

    open spec fn view(&self) -> SpecSelectItem {
        match self {
            SelectItem::Wildcard => SpecSelectItem::Wildcard,
            SelectItem::Expression(e) => SpecSelectItem::Expression(e@),
        }
    }
}

pub open spec fn exprs_view(es: Seq<Expression>) -> Seq<SpecExpr> {
    es.map_values(|e: Expression| e@)
}

pub open spec fn columns_view(cs: Seq<ColumnDefinition>) -> Seq<SpecColumnDefinition> {
    cs.map_values(|c: ColumnDefinition| c@)
}

pub open spec fn items_view(ps: Seq<SelectItem>) -> Seq<SpecSelectItem> {
    ps.map_values(|p: SelectItem| p@)
}

pub open spec fn assignments_view(a: Seq<Assignment>) -> Seq<SpecAssignment> {
    a.map_values(|x: Assignment| x@)
}

pub open spec fn statements_view(ss: Seq<Statement>) -> Seq<SpecStatement> {
    ss.map_values(|s: Statement| s@)
}

pub open spec fn filter_view(f: Option<Expression>) -> Option<SpecExpr> {
    match f {
        Some(e) => Some(e@),
        None => None,
    }
}

impl View for Statement {
    type V = SpecStatement;

    open spec fn view(&self) -> SpecStatement {
        match self {
            Statement::CreateTable(s) => SpecStatement::CreateTable {
                table: s.table@,
                columns: columns_view(s.columns@),
            },
            Statement::Insert(s) => SpecStatement::Insert {
                table: s.table@,
                values: exprs_view(s.values@),
            },
            Statement::Select(s) => SpecStatement::Select {
                projections: items_view(s.projections@),
                table: s.table@,
                filter: filter_view(s.filter),
            },
            Statement::Update(s) => SpecStatement::Update {
                table: s.table@,
                assignments: assignments_view(s.assignments@),
                filter: filter_view(s.filter),
            },
            Statement::Delete(s) => SpecStatement::Delete {
                table: s.table@,
                filter: filter_view(s.filter),
            },
        }
    }
}

} // verus!
