use super::ast::{
    columns_view, BinaryOperator, ColumnDefinition, CreateTableStatement, Expression, SelectItem,
    SpecAssignment, SpecColumnDefinition, SpecExpr, SpecSelectItem, SpecStatement, Statement,
    UnaryOperator,
};
use crate::storage::database::{find_table, Database};
use crate::storage::schema::{find_column, Schema, SpecColumn};
use crate::value::{spec_data_type, DataType, SpecValue, Value};
use crate::text::push_str;
use vstd::prelude::*;

verus! {

/// An expression whose column names were resolved to row positions and
/// whose result type is known.
#[derive(Debug, PartialEq, Eq)]
pub enum BoundExpression {
    Literal(Value),
    Column { column_index: usize, data_type: DataType },
    Binary {
        left: Box<BoundExpression>,
        operator: BinaryOperator,
        right: Box<BoundExpression>,
        data_type: DataType,
    },
    Unary { operator: UnaryOperator, expression: Box<BoundExpression>, data_type: DataType },
}

/// The content of a bound expression.
pub enum SpecBound {
    Literal(SpecValue),
    Column { column_index: usize, data_type: DataType },
    Binary {
        left: Box<SpecBound>,
        operator: BinaryOperator,
        right: Box<SpecBound>,
        data_type: DataType,
    },
    Unary { operator: UnaryOperator, expression: Box<SpecBound>, data_type: DataType },
}

pub open spec fn bound_view(e: BoundExpression) -> SpecBound
    decreases e,
{
    match e {
        BoundExpression::Literal(v) => SpecBound::Literal(v@),
        BoundExpression::Column { column_index, data_type } => SpecBound::Column {
            column_index,
            data_type,
        },
        BoundExpression::Binary { left, operator, right, data_type } => SpecBound::Binary {
            left: Box::new(bound_view(*left)),
            operator,
            right: Box::new(bound_view(*right)),
            data_type,
        },
        BoundExpression::Unary { operator, expression, data_type } => SpecBound::Unary {
            operator,
            expression: Box::new(bound_view(*expression)),
            data_type,
        },
    }
}

impl View for BoundExpression {
    type V = SpecBound;

    open spec fn view(&self) -> SpecBound {
        bound_view(*self)
    }
}

/// The result type of a bound expression; a bare NULL has none.
pub open spec fn bound_type(e: SpecBound) -> Option<DataType> {
    match e {
        SpecBound::Literal(v) => spec_data_type(v),
        SpecBound::Column { data_type, .. } => Some(data_type),
        SpecBound::Binary { data_type, .. } => Some(data_type),
        SpecBound::Unary { data_type, .. } => Some(data_type),
    }
}

impl BoundExpression {
    /// The expression's result type. A bare `NULL` has no type until it is
    /// placed in a typed context such as an INSERT target column.
    pub fn data_type(&self) -> (r: Option<DataType>)
        ensures
            r == bound_type(self@),
    {
        match self {
            BoundExpression::Literal(value) => value.data_type(),
            BoundExpression::Column { data_type, .. } => Some(*data_type),
            BoundExpression::Binary { data_type, .. } => Some(*data_type),
            BoundExpression::Unary { data_type, .. } => Some(*data_type),
        }
    }
}

impl Clone for BoundExpression {
    fn clone(&self) -> (r: Self)
        ensures
            r@ == self@,
        decreases self,
    {
        match self {
            BoundExpression::Literal(v) => BoundExpression::Literal(v.clone()),
            BoundExpression::Column { column_index, data_type } => BoundExpression::Column {
                column_index: *column_index,
                data_type: *data_type,
            },
            BoundExpression::Binary { left, operator, right, data_type } => BoundExpression::Binary {
                left: Box::new((**left).clone()),
                operator: *operator,
                right: Box::new((**right).clone()),
                data_type: *data_type,
            },
            BoundExpression::Unary { operator, expression, data_type } => BoundExpression::Unary {
                operator: *operator,
                expression: Box::new((**expression).clone()),
                data_type: *data_type,
            },
        }
    }
}


/// A grammatical SQL statement that is not valid for the current catalog.
#[derive(Debug, Clone, PartialEq, Eq)]
pub enum BindError {
    TableAlreadyExists { table: String },
    TableNotFound { table: String },
    ColumnNotFound { table: String, column: String },
    /// Kept as a first-class semantic error for when joins are supported.
    AmbiguousColumn { column: String },
    DuplicateColumn { column: String },
    DuplicateAssignment { column: String },
    WrongColumnCount { table: String, expected: usize, actual: usize },
    TypeMismatch { context: String, expected: DataType, actual: DataType },
    NullNotAllowed { table: String, column: String },
    IncompatibleTypes { operator: BinaryOperator, left: DataType, right: DataType },
    InvalidUnaryOperand { operator: UnaryOperator, expected: DataType, actual: Option<DataType> },
    ExpectedBoolean { clause: &'static str, actual: Option<DataType> },
}

/// A descriptive alias for callers that call this stage semantic analysis.
pub type SemanticError = BindError;

pub type BinderError = BindError;


/// The content of a binding error.
pub enum SpecBindError {
    TableAlreadyExists { table: Seq<char> },
    TableNotFound { table: Seq<char> },
    ColumnNotFound { table: Seq<char>, column: Seq<char> },
    AmbiguousColumn { column: Seq<char> },
    DuplicateColumn { column: Seq<char> },
    DuplicateAssignment { column: Seq<char> },
    WrongColumnCount { table: Seq<char>, expected: usize, actual: usize },
    TypeMismatch { context: Seq<char>, expected: DataType, actual: DataType },
    NullNotAllowed { table: Seq<char>, column: Seq<char> },
    IncompatibleTypes { operator: BinaryOperator, left: DataType, right: DataType },
    InvalidUnaryOperand { operator: UnaryOperator, expected: DataType, actual: Option<DataType> },
    ExpectedBoolean { clause: Seq<char>, actual: Option<DataType> },
}

impl View for BindError {
    type V = SpecBindError;

    open spec fn view(&self) -> SpecBindError {
        match self {
            BindError::TableAlreadyExists { table } => SpecBindError::TableAlreadyExists {
                table: table@,
            },
            BindError::TableNotFound { table } => SpecBindError::TableNotFound { table: table@ },
            BindError::ColumnNotFound { table, column } => SpecBindError::ColumnNotFound {
                table: table@,
                column: column@,
            },
            BindError::AmbiguousColumn { column } => SpecBindError::AmbiguousColumn {
                column: column@,
            },
            BindError::DuplicateColumn { column } => SpecBindError::DuplicateColumn {
                column: column@,
            },
            BindError::DuplicateAssignment { column } => SpecBindError::DuplicateAssignment {
                column: column@,
            },
            BindError::WrongColumnCount { table, expected, actual } => SpecBindError::WrongColumnCount {
                table: table@,
                expected: *expected,
                actual: *actual,
            },
            BindError::TypeMismatch { context, expected, actual } => SpecBindError::TypeMismatch {
                context: context@,
                expected: *expected,
                actual: *actual,
            },
            BindError::NullNotAllowed { table, column } => SpecBindError::NullNotAllowed {
                table: table@,
                column: column@,
            },
            BindError::IncompatibleTypes { operator, left, right } => SpecBindError::IncompatibleTypes {
                operator: *operator,
                left: *left,
                right: *right,
            },
            BindError::InvalidUnaryOperand { operator, expected, actual } =>
                SpecBindError::InvalidUnaryOperand {
                operator: *operator,
                expected: *expected,
                actual: *actual,
            },
            BindError::ExpectedBoolean { clause, actual } => SpecBindError::ExpectedBoolean {
                clause: clause@,
                actual: *actual,
            },
        }
    }
}


/// A statement whose names were resolved against the catalog.
#[derive(Debug, PartialEq, Eq)]
pub enum BoundStatement {
    CreateTable(CreateTableStatement),
    Insert(BoundInsertStatement),
    Select(BoundSelectStatement),
    Update(BoundUpdateStatement),
    Delete(BoundDeleteStatement),
}

#[derive(Debug, PartialEq, Eq)]
pub struct BoundInsertStatement {
    pub table: String,
    pub values: Vec<BoundExpression>,
}

#[derive(Debug, PartialEq, Eq)]
pub struct BoundSelectStatement {
    pub table: String,
    /// `SELECT *` is expanded during binding, so execution sees only indexed
    /// expressions.
    pub projections: Vec<BoundExpression>,
    pub filter: Option<BoundExpression>,
}

#[derive(Debug, PartialEq, Eq)]
pub struct BoundUpdateStatement {
    pub table: String,
    pub assignments: Vec<BoundAssignment>,
    pub filter: Option<BoundExpression>,
}

#[derive(Debug, PartialEq, Eq)]
pub struct BoundAssignment {
    pub column_index: usize,
    pub data_type: DataType,
    pub value: BoundExpression,
}

#[derive(Debug, PartialEq, Eq)]
pub struct BoundDeleteStatement {
    pub table: String,
    pub filter: Option<BoundExpression>,
}

pub struct SpecBoundAssignment {
    pub column_index: usize,
    pub data_type: DataType,
    pub value: SpecBound,
}

/// The content of a bound statement.
pub enum SpecBoundStatement {
    CreateTable { table: Seq<char>, columns: Seq<SpecColumnDefinition> },
    Insert { table: Seq<char>, values: Seq<SpecBound> },
    Select { table: Seq<char>, projections: Seq<SpecBound>, filter: Option<SpecBound> },
    Update { table: Seq<char>, assignments: Seq<SpecBoundAssignment>, filter: Option<SpecBound> },
    Delete { table: Seq<char>, filter: Option<SpecBound> },
}

pub open spec fn bounds_view(es: Seq<BoundExpression>) -> Seq<SpecBound> {
    es.map_values(|e: BoundExpression| e@)
}

pub open spec fn bound_filter_view(f: Option<BoundExpression>) -> Option<SpecBound> {
    match f {
        Some(e) => Some(e@),
        None => None,
    }
}

impl View for BoundAssignment {
    type V = SpecBoundAssignment;

    open spec fn view(&self) -> SpecBoundAssignment {
        SpecBoundAssignment { column_index: self.column_index, data_type: self.data_type, value: self.value@ }
    }
}

pub open spec fn bound_assignments_view(a: Seq<BoundAssignment>) -> Seq<SpecBoundAssignment> {
    a.map_values(|x: BoundAssignment| x@)
}

impl View for BoundStatement {
    type V = SpecBoundStatement;

    open spec fn view(&self) -> SpecBoundStatement {
        match self {
            BoundStatement::CreateTable(s) => SpecBoundStatement::CreateTable {
                table: s.table@,
                columns: columns_view(s.columns@),
            },
            BoundStatement::Insert(s) => SpecBoundStatement::Insert {
                table: s.table@,
                values: bounds_view(s.values@),
            },
            BoundStatement::Select(s) => SpecBoundStatement::Select {
                table: s.table@,
                projections: bounds_view(s.projections@),
                filter: bound_filter_view(s.filter),
            },
            BoundStatement::Update(s) => SpecBoundStatement::Update {
                table: s.table@,
                assignments: bound_assignments_view(s.assignments@),
                filter: bound_filter_view(s.filter),
            },
            BoundStatement::Delete(s) => SpecBoundStatement::Delete {
                table: s.table@,
                filter: bound_filter_view(s.filter),
            },
        }
    }
}

/// The comparison operators, which yield BOOLEAN from any two operands of one type.
pub open spec fn is_comparison(op: BinaryOperator) -> bool {
    op == BinaryOperator::Equal || op == BinaryOperator::NotEqual || op == BinaryOperator::LessThan
        || op == BinaryOperator::LessThanOrEqual || op == BinaryOperator::GreaterThan || op
        == BinaryOperator::GreaterThanOrEqual
}

/// The result type of a binary operator on operands of types `lt` and `rt`
/// (`None` for an untyped NULL). Comparisons need equal types unless one
/// side is NULL; AND and OR need BOOLEAN operands, arithmetic INTEGER ones.
pub open spec fn binary_type(op: BinaryOperator, lt: Option<DataType>, rt: Option<DataType>) -> Result<
    DataType,
    SpecBindError,
> {
    if is_comparison(op) {
        match (lt, rt) {
            (Some(l), Some(r)) => if l != r {
                Err(SpecBindError::IncompatibleTypes { operator: op, left: l, right: r })
            } else {
                Ok(DataType::Boolean)
            },
            _ => Ok(DataType::Boolean),
        }
    } else {
        let expected = if op == BinaryOperator::And || op == BinaryOperator::Or {
            DataType::Boolean
        } else {
            DataType::Integer
        };
        if lt == Some(expected) && rt == Some(expected) {
            Ok(expected)
        } else {
            Err(
                SpecBindError::IncompatibleTypes {
                    operator: op,
                    left: match lt {
                        Some(l) => l,
                        None => expected,
                    },
                    right: match rt {
                        Some(r) => r,
                        None => expected,
                    },
                },
            )
        }
    }
}

/// The type a unary operator requires of its operand, which is also its result type.
pub open spec fn unary_type(op: UnaryOperator) -> DataType {
    match op {
        UnaryOperator::Not => DataType::Boolean,
        UnaryOperator::Negate => DataType::Integer,
    }
}

/// Resolves the names of `e` against the columns `cols` of table `table`;
/// without columns, no name can be resolved.
pub open spec fn bind_expr(e: SpecExpr, cols: Option<Seq<SpecColumn>>, table: Seq<char>) -> Result<
    SpecBound,
    SpecBindError,
>
    decreases e,
{
    match e {
        SpecExpr::Literal(v) => Ok(SpecBound::Literal(v)),
        SpecExpr::Column(name) => match cols {
            None => Err(SpecBindError::ColumnNotFound { table, column: name }),
            Some(cs) => match find_column(cs, name) {
                None => Err(SpecBindError::ColumnNotFound { table, column: name }),
                Some(i) => Ok(SpecBound::Column { column_index: i as usize, data_type: cs[i].data_type }),
            },
        },
        SpecExpr::Binary { left, operator, right } => match bind_expr(*left, cols, table) {
            Err(err) => Err(err),
            Ok(l) => match bind_expr(*right, cols, table) {
                Err(err) => Err(err),
                Ok(r) => match binary_type(operator, bound_type(l), bound_type(r)) {
                    Err(err) => Err(err),
                    Ok(t) => Ok(
                        SpecBound::Binary {
                            left: Box::new(l),
                            operator,
                            right: Box::new(r),
                            data_type: t,
                        },
                    ),
                },
            },
        },
        SpecExpr::Unary { operator, expression } => match bind_expr(*expression, cols, table) {
            Err(err) => Err(err),
            Ok(inner) => if bound_type(inner) != Some(unary_type(operator)) {
                Err(
                    SpecBindError::InvalidUnaryOperand {
                        operator,
                        expected: unary_type(operator),
                        actual: bound_type(inner),
                    },
                )
            } else {
                Ok(
                    SpecBound::Unary {
                        operator,
                        expression: Box::new(inner),
                        data_type: unary_type(operator),
                    },
                )
            },
        },
    }
}

/// A bound expression is well typed against the columns `cols`: every column
/// it reads exists and carries that column's type, every binary node carries
/// the type `binary_type` gives its operands (comparisons of one type give
/// BOOLEAN, AND and OR take and give BOOLEAN, arithmetic takes and gives
/// INTEGER), and every unary node has an operand of the type it gives.
pub open spec fn well_typed(e: SpecBound, cols: Seq<SpecColumn>) -> bool
    decreases e,
{
    match e {
        SpecBound::Literal(_) => true,
        SpecBound::Column { column_index, data_type } => column_index < cols.len()
            && data_type == cols[column_index as int].data_type,
        SpecBound::Binary { left, operator, right, data_type } => well_typed(*left, cols)
            && well_typed(*right, cols) && binary_type(operator, bound_type(*left), bound_type(*right))
            == Ok::<DataType, SpecBindError>(data_type),
        SpecBound::Unary { operator, expression, data_type } => well_typed(*expression, cols)
            && bound_type(*expression) == Some(unary_type(operator)) && data_type == unary_type(
            operator,
        ),
    }
}

/// Whatever binding gives against the columns of a table (as many as a
/// `Vec` holds) is well typed against them.
pub proof fn lemma_bound_well_typed(e: SpecExpr, cols: Seq<SpecColumn>, table: Seq<char>)
    requires
        cols.len() <= usize::MAX,
        bind_expr(e, Some(cols), table) is Ok,
    ensures
        well_typed(bind_expr(e, Some(cols), table)->Ok_0, cols),
    decreases e,
{
    match e {
        SpecExpr::Column(name) => {
            crate::storage::schema::lemma_find_column_from(cols, name, 0);
        },
        SpecExpr::Binary { left, operator, right } => {
            lemma_bound_well_typed(*left, cols, table);
            lemma_bound_well_typed(*right, cols, table);
        },
        SpecExpr::Unary { operator, expression } => {
            lemma_bound_well_typed(*expression, cols, table);
        },
        _ => {},
    }
}

/// A column name binds to the first column of the table with that name,
/// with that column's type; a name that no column has is refused.
pub proof fn lemma_column_binds_by_name(name: Seq<char>, cols: Seq<SpecColumn>, table: Seq<char>)
    requires
        cols.len() <= usize::MAX,
    ensures
        match bind_expr(SpecExpr::Column(name), Some(cols), table) {
            Ok(SpecBound::Column { column_index, data_type }) => column_index < cols.len()
                && cols[column_index as int].name == name && data_type == cols[column_index as int].data_type
                && forall|k: int| 0 <= k < column_index ==> #[trigger] cols[k].name != name,
            Err(e) => e == SpecBindError::ColumnNotFound { table, column: name } && forall|k: int|
                0 <= k < cols.len() ==> #[trigger] cols[k].name != name,
            _ => false,
        },
{
    crate::storage::schema::lemma_find_column_from(cols, name, 0);
}

/// The text that names a column of a table in a type-mismatch error.
pub open spec fn column_context(table: Seq<char>, column: Seq<char>) -> Seq<char> {
    "column '"@ + column + "' in table '"@ + table + "'"@
}

/// The error, if any, of assigning a value of type `t` to column `c`.
pub open spec fn assign_error(table: Seq<char>, c: SpecColumn, t: Option<DataType>) -> Option<SpecBindError> {
    match t {
        None => if !c.nullable {
            Some(SpecBindError::NullNotAllowed { table, column: c.name })
        } else {
            None
        },
        Some(actual) => if actual != c.data_type {
            Some(
                SpecBindError::TypeMismatch {
                    context: column_context(table, c.name),
                    expected: c.data_type,
                    actual,
                },
            )
        } else {
            None
        },
    }
}

/// An optional WHERE clause, which must be BOOLEAN.
pub open spec fn bind_filter(f: Option<SpecExpr>, cols: Seq<SpecColumn>, table: Seq<char>) -> Result<
    Option<SpecBound>,
    SpecBindError,
> {
    match f {
        None => Ok(None),
        Some(e) => match bind_expr(e, Some(cols), table) {
            Err(err) => Err(err),
            Ok(b) => if bound_type(b) != Some(DataType::Boolean) {
                Err(SpecBindError::ExpectedBoolean { clause: "WHERE expression"@, actual: bound_type(b) })
            } else {
                Ok(Some(b))
            },
        },
    }
}

/// The values of an INSERT, bound without columns and checked against the
/// columns they fill, left to right.
pub open spec fn bind_values(values: Seq<SpecExpr>, cols: Seq<SpecColumn>, table: Seq<char>) -> Result<
    Seq<SpecBound>,
    SpecBindError,
>
    decreases values.len(),
{
    if values.len() == 0 {
        Ok(Seq::empty())
    } else {
        match bind_values(values.drop_last(), cols, table) {
            Err(err) => Err(err),
            Ok(done) => match bind_expr(values.last(), None, table) {
                Err(err) => Err(err),
                Ok(b) => match assign_error(table, cols[values.len() - 1], bound_type(b)) {
                    Some(err) => Err(err),
                    None => Ok(done.push(b)),
                },
            },
        }
    }
}

/// Every column of a table, as bound column references.
pub open spec fn all_columns(cols: Seq<SpecColumn>) -> Seq<SpecBound> {
    Seq::new(cols.len(), |i: int| SpecBound::Column { column_index: i as usize, data_type: cols[i].data_type })
}

/// The projections of a SELECT, with `*` expanded to every column.
pub open spec fn bind_projections(items: Seq<SpecSelectItem>, cols: Seq<SpecColumn>, table: Seq<char>) -> Result<
    Seq<SpecBound>,
    SpecBindError,
>
    decreases items.len(),
{
    if items.len() == 0 {
        Ok(Seq::empty())
    } else {
        match bind_projections(items.drop_last(), cols, table) {
            Err(err) => Err(err),
            Ok(done) => match items.last() {
                SpecSelectItem::Wildcard => Ok(done + all_columns(cols)),
                SpecSelectItem::Expression(e) => match bind_expr(e, Some(cols), table) {
                    Err(err) => Err(err),
                    Ok(b) => Ok(done.push(b)),
                },
            },
        }
    }
}

/// `SELECT *` reads every column of the table, in table order, each with
/// its declared type.
pub proof fn lemma_wildcard_expands(cat: Seq<crate::storage::table::SpecTable>, table: Seq<char>)
    requires
        find_table(cat, table) is Some,
    ensures
        spec_bind(
            cat,
            SpecStatement::Select { projections: seq![SpecSelectItem::Wildcard], table, filter: None },
        ) == Ok::<SpecBoundStatement, SpecBindError>(
            SpecBoundStatement::Select {
                table,
                projections: all_columns(cat[find_table(cat, table)->0].columns),
                filter: None,
            },
        ),
{
    let cols = cat[find_table(cat, table)->0].columns;
    let items = seq![SpecSelectItem::Wildcard];
    assert(items.drop_last() =~= Seq::<SpecSelectItem>::empty());
    assert(Seq::<SpecBound>::empty() + all_columns(cols) =~= all_columns(cols));
    assert(items.last() == SpecSelectItem::Wildcard);
    assert(bind_projections(items.drop_last(), cols, table) == Ok::<Seq<SpecBound>, SpecBindError>(Seq::empty()));
    assert(bind_projections(items, cols, table) == Ok::<Seq<SpecBound>, SpecBindError>(all_columns(cols)));
}

/// Whether the column assigned by `a[k]` is also assigned earlier.
pub open spec fn assigned_before(a: Seq<SpecAssignment>, k: int) -> bool {
    exists|j: int| 0 <= j < k && #[trigger] a[j].column == a[k].column
}

/// The assignments of an UPDATE, left to right: no column twice, every
/// column known, and every value assignable to its column.
pub open spec fn bind_assignments(a: Seq<SpecAssignment>, cols: Seq<SpecColumn>, table: Seq<char>) -> Result<
    Seq<SpecBoundAssignment>,
    SpecBindError,
>
    decreases a.len(),
{
    if a.len() == 0 {
        Ok(Seq::empty())
    } else {
        match bind_assignments(a.drop_last(), cols, table) {
            Err(err) => Err(err),
            Ok(done) => {
                let x = a.last();
                if assigned_before(a, a.len() - 1) {
                    Err(SpecBindError::DuplicateAssignment { column: x.column })
                } else {
                    match find_column(cols, x.column) {
                        None => Err(SpecBindError::ColumnNotFound { table, column: x.column }),
                        Some(i) => match bind_expr(x.value, Some(cols), table) {
                            Err(err) => Err(err),
                            Ok(b) => match assign_error(table, cols[i], bound_type(b)) {
                                Some(err) => Err(err),
                                None => Ok(
                                    done.push(
                                        SpecBoundAssignment {
                                            column_index: i as usize,
                                            data_type: cols[i].data_type,
                                            value: b,
                                        },
                                    ),
                                ),
                            },
                        },
                    }
                }
            },
        }
    }
}

/// The first column definition that repeats an earlier name.
pub open spec fn first_repeat(cs: Seq<SpecColumnDefinition>, k: int) -> bool {
    &&& 0 <= k < cs.len()
    &&& exists|j: int| 0 <= j < k && #[trigger] cs[j].name == cs[k].name
    &&& forall|m: int, j: int| 0 <= j < m < k ==> #[trigger] cs[j].name != #[trigger] cs[m].name
}

/// What binding `s` against the catalog `cat` gives.
pub open spec fn spec_bind(cat: Seq<crate::storage::table::SpecTable>, s: SpecStatement) -> Result<
    SpecBoundStatement,
    SpecBindError,
> {
    match s {
        SpecStatement::CreateTable { table, columns } => if find_table(cat, table) is Some {
            Err(SpecBindError::TableAlreadyExists { table })
        } else if exists|k: int| first_repeat(columns, k) {
            let k = choose|k: int| first_repeat(columns, k);
            Err(SpecBindError::DuplicateColumn { column: columns[k].name })
        } else {
            Ok(SpecBoundStatement::CreateTable { table, columns })
        },
        SpecStatement::Insert { table, values } => match find_table(cat, table) {
            None => Err(SpecBindError::TableNotFound { table }),
            Some(i) => {
                let cols = cat[i].columns;
                if values.len() != cols.len() {
                    Err(
                        SpecBindError::WrongColumnCount {
                            table,
                            expected: cols.len() as usize,
                            actual: values.len() as usize,
                        },
                    )
                } else {
                    match bind_values(values, cols, table) {
                        Err(err) => Err(err),
                        Ok(vs) => Ok(SpecBoundStatement::Insert { table, values: vs }),
                    }
                }
            },
        },
        SpecStatement::Select { projections, table, filter } => match find_table(cat, table) {
            None => Err(SpecBindError::TableNotFound { table }),
            Some(i) => {
                let cols = cat[i].columns;
                match bind_projections(projections, cols, table) {
                    Err(err) => Err(err),
                    Ok(ps) => match bind_filter(filter, cols, table) {
                        Err(err) => Err(err),
                        Ok(f) => Ok(SpecBoundStatement::Select { table, projections: ps, filter: f }),
                    },
                }
            },
        },
        SpecStatement::Update { table, assignments, filter } => match find_table(cat, table) {
            None => Err(SpecBindError::TableNotFound { table }),
            Some(i) => {
                let cols = cat[i].columns;
                match bind_assignments(assignments, cols, table) {
                    Err(err) => Err(err),
                    Ok(a) => match bind_filter(filter, cols, table) {
                        Err(err) => Err(err),
                        Ok(f) => Ok(SpecBoundStatement::Update { table, assignments: a, filter: f }),
                    },
                }
            },
        },
        SpecStatement::Delete { table, filter } => match find_table(cat, table) {
            None => Err(SpecBindError::TableNotFound { table }),
            Some(i) => match bind_filter(filter, cat[i].columns, table) {
                Err(err) => Err(err),
                Ok(f) => Ok(SpecBoundStatement::Delete { table, filter: f }),
            },
        },
    }
}

pub open spec fn bound_result(r: Result<BoundStatement, BindError>) -> Result<SpecBoundStatement, SpecBindError> {
    match r {
        Ok(s) => Ok(s@),
        Err(e) => Err(e@),
    }
}

/// Resolves the names in statements against the catalog of a database and
/// checks their types.
#[derive(Clone, Copy)]
pub struct Binder<'a> {
    database: &'a Database,
}

/// Binds one statement against `database`.
pub fn bind_statement(database: &Database, statement: Statement) -> (r: Result<BoundStatement, BindError>)
    ensures
        bound_result(r) == spec_bind(database.catalog(), statement@),
{
    Binder::new(database).bind(statement)
}

impl<'a> Binder<'a> {
    /// The catalog that names are resolved against.
    pub closed spec fn catalog(&self) -> Seq<crate::storage::table::SpecTable> {
        self.database.catalog()
    }

    pub fn new(database: &'a Database) -> (r: Self)
        ensures
            r.catalog() == database.catalog(),
    {
        Binder { database }
    }

    /// Resolves and type-checks `statement`.
    pub fn bind(&self, statement: Statement) -> (r: Result<BoundStatement, BindError>)
        ensures
            bound_result(r) == spec_bind(self.catalog(), statement@),
    {
        match statement {
            Statement::CreateTable(s) => self.bind_create_table(s),
            Statement::Insert(s) => self.bind_insert(s),
            Statement::Select(s) => self.bind_select(s),
            Statement::Update(s) => self.bind_update(s),
            Statement::Delete(s) => self.bind_delete(s),
        }
    }

    fn bind_insert(&self, statement: crate::sql::ast::InsertStatement) -> (r: Result<BoundStatement, BindError>)
        ensures
            bound_result(r) == spec_bind(
                self.catalog(),
                SpecStatement::Insert { table: statement.table@, values: crate::sql::ast::exprs_view(statement.values@) },
            ),
    {
        let schema = match self.schema(statement.table.as_str()) {
            Ok(s) => s,
            Err(e) => {
                return Err(e);
            },
        };
        if statement.values.len() != schema.len() {
            return Err(
                BindError::WrongColumnCount {
                    table: statement.table.clone(),
                    expected: schema.len(),
                    actual: statement.values.len(),
                },
            );
        }
        let columns = schema.columns();
        let ghost cols = schema@;
        let ghost vs = crate::sql::ast::exprs_view(statement.values@);
        let ghost table = statement.table@;
        let mut values: Vec<BoundExpression> = Vec::new();
        let mut k: usize = 0;
        assert(vs.take(0) =~= Seq::<SpecExpr>::empty());
        assert(bounds_view(values@) =~= Seq::<SpecBound>::empty());
        while k < statement.values.len()
            invariant
                k <= statement.values@.len(),
                statement.values@.len() == cols.len(),
                vs == crate::sql::ast::exprs_view(statement.values@),
                columns_view_eq(columns@, cols),
                table == statement.table@,
                bind_values(vs.take(k as int), cols, table) == Ok::<Seq<SpecBound>, SpecBindError>(bounds_view(values@)),
                spec_bind(self.catalog(), SpecStatement::Insert { table: statement.table@, values: crate::sql::ast::exprs_view(statement.values@) }) == match bind_values(vs, cols, table) {
                    Err(err) => Err(err),
                    Ok(b) => Ok(SpecBoundStatement::Insert { table, values: b }),
                },
            decreases statement.values@.len() - k,
        {
            assert(vs.take(k + 1).drop_last() =~= vs.take(k as int));
            assert(vs.take(k + 1).last() == statement.values@[k as int]@);
            let value = match self.bind_expression(&statement.values[k], None, statement.table.as_str()) {
                Ok(v) => v,
                Err(e) => {
                    proof {
                        lemma_bind_values_prefix(vs, cols, table, k + 1);
                    }
                    return Err(e);
                },
            };
            let column = &columns[k];
            assert(column@ == cols[k as int]);
            match self.require_assignable(statement.table.as_str(), column.name(), column.data_type(), column.is_nullable(), &value) {
                Ok(()) => {},
                Err(e) => {
                    proof {
                        lemma_bind_values_prefix(vs, cols, table, k + 1);
                    }
                    return Err(e);
                },
            }
            let ghost before = bounds_view(values@);
            let ghost bv = value@;
            values.push(value);
            assert(bounds_view(values@) =~= before.push(bv));
            k += 1;
        }
        assert(vs.take(statement.values@.len() as int) =~= vs);
        Ok(BoundStatement::Insert(BoundInsertStatement { table: statement.table, values }))
    }

    fn bind_select(&self, statement: crate::sql::ast::SelectStatement) -> (r: Result<BoundStatement, BindError>)
        ensures
            bound_result(r) == spec_bind(
                self.catalog(),
                SpecStatement::Select {
                    projections: crate::sql::ast::items_view(statement.projections@),
                    table: statement.table@,
                    filter: crate::sql::ast::filter_view(statement.filter),
                },
            ),
    {
        let schema = match self.schema(statement.table.as_str()) {
            Ok(s) => s,
            Err(e) => {
                return Err(e);
            },
        };
        let ghost cols = schema@;
        let ghost items = crate::sql::ast::items_view(statement.projections@);
        let ghost table = statement.table@;
        let mut projections: Vec<BoundExpression> = Vec::new();
        let mut k: usize = 0;
        assert(items.take(0) =~= Seq::<SpecSelectItem>::empty());
        assert(bounds_view(projections@) =~= Seq::<SpecBound>::empty());
        while k < statement.projections.len()
            invariant
                k <= statement.projections@.len(),
                items == crate::sql::ast::items_view(statement.projections@),
                cols == schema@,
                table == statement.table@,
                bind_projections(items.take(k as int), cols, table) == Ok::<Seq<SpecBound>, SpecBindError>(bounds_view(projections@)),
                spec_bind(self.catalog(), SpecStatement::Select { projections: crate::sql::ast::items_view(statement.projections@), table: statement.table@, filter: crate::sql::ast::filter_view(statement.filter) }) == match bind_projections(items, cols, table) {
                    Err(err) => Err(err),
                    Ok(ps) => match bind_filter(crate::sql::ast::filter_view(statement.filter), cols, table) {
                        Err(err) => Err(err),
                        Ok(f) => Ok(SpecBoundStatement::Select { table, projections: ps, filter: f }),
                    },
                },
            decreases statement.projections@.len() - k,
        {
            assert(items.take(k + 1).drop_last() =~= items.take(k as int));
            assert(items.take(k + 1).last() == statement.projections@[k as int]@);
            match &statement.projections[k] {
                SelectItem::Wildcard => {
                    // `*` is expanded now, so execution never sees it.
                    let ghost before = bounds_view(projections@);
                    let columns = schema.columns();
                    let mut c: usize = 0;
                    while c < columns.len()
                        invariant
                            c <= columns@.len(),
                            columns_view_eq(columns@, cols),
                            cols.len() == columns@.len(),
                            bounds_view(projections@) == before + all_columns(cols).take(c as int),
                        decreases columns@.len() - c,
                    {
                        let ghost mid = bounds_view(projections@);
                        assert(crate::storage::schema::columns_view(columns@)[c as int] == columns@[c as int]@);
                        let x = BoundExpression::Column { column_index: c, data_type: columns[c].data_type() };
                        assert(x@ == all_columns(cols)[c as int]);
                        projections.push(x);
                        assert(bounds_view(projections@) =~= mid.push(x@));
                        assert(all_columns(cols).take(c + 1) =~= all_columns(cols).take(c as int).push(all_columns(cols)[c as int]));
                        assert(bounds_view(projections@) =~= before + all_columns(cols).take(c + 1));
                        c += 1;
                    }
                    assert(all_columns(cols).take(columns@.len() as int) =~= all_columns(cols));
                },
                SelectItem::Expression(expression) => {
                    let bound = match self.bind_expression(expression, Some(schema), statement.table.as_str()) {
                        Ok(b) => b,
                        Err(e) => {
                            proof {
                                lemma_bind_projections_prefix(items, cols, table, k + 1);
                            }
                            return Err(e);
                        },
                    };
                    let ghost before = bounds_view(projections@);
                    let ghost bv = bound@;
                    projections.push(bound);
                    assert(bounds_view(projections@) =~= before.push(bv));
                },
            }
            k += 1;
        }
        assert(items.take(statement.projections@.len() as int) =~= items);
        let filter = match self.bind_filter(&statement.filter, schema, statement.table.as_str()) {
            Ok(f) => f,
            Err(e) => {
                return Err(e);
            },
        };
        Ok(BoundStatement::Select(BoundSelectStatement { table: statement.table, projections, filter }))
    }

    fn bind_update(&self, statement: crate::sql::ast::UpdateStatement) -> (r: Result<BoundStatement, BindError>)
        ensures
            bound_result(r) == spec_bind(
                self.catalog(),
                SpecStatement::Update {
                    table: statement.table@,
                    assignments: crate::sql::ast::assignments_view(statement.assignments@),
                    filter: crate::sql::ast::filter_view(statement.filter),
                },
            ),
    {
        let schema = match self.schema(statement.table.as_str()) {
            Ok(s) => s,
            Err(e) => {
                return Err(e);
            },
        };
        let ghost cols = schema@;
        let ghost asg = crate::sql::ast::assignments_view(statement.assignments@);
        let ghost table = statement.table@;
        let columns = schema.columns();
        let mut assignments: Vec<BoundAssignment> = Vec::new();
        let mut k: usize = 0;
        assert(asg.take(0) =~= Seq::<SpecAssignment>::empty());
        assert(bound_assignments_view(assignments@) =~= Seq::<SpecBoundAssignment>::empty());
        while k < statement.assignments.len()
            invariant
                k <= statement.assignments@.len(),
                asg == crate::sql::ast::assignments_view(statement.assignments@),
                cols == schema@,
                columns_view_eq(columns@, cols),
                table == statement.table@,
                bind_assignments(asg.take(k as int), cols, table) == Ok::<Seq<SpecBoundAssignment>, SpecBindError>(bound_assignments_view(assignments@)),
                spec_bind(self.catalog(), SpecStatement::Update { table: statement.table@, assignments: crate::sql::ast::assignments_view(statement.assignments@), filter: crate::sql::ast::filter_view(statement.filter) }) == match bind_assignments(asg, cols, table) {
                    Err(err) => Err(err),
                    Ok(a) => match bind_filter(crate::sql::ast::filter_view(statement.filter), cols, table) {
                        Err(err) => Err(err),
                        Ok(f) => Ok(SpecBoundStatement::Update { table, assignments: a, filter: f }),
                    },
                },
            decreases statement.assignments@.len() - k,
        {
            let ghost cur = asg.take(k + 1);
            assert(cur.drop_last() =~= asg.take(k as int));
            assert(cur.last() == statement.assignments@[k as int]@);
            let assignment = &statement.assignments[k];
            if assigned_earlier(&statement.assignments, k) {
                proof {
                    lemma_bind_assignments_prefix(asg, cols, table, k + 1);
                }
                return Err(BindError::DuplicateAssignment { column: assignment.column.clone() });
            }
            assert(!assigned_before(cur, k as int));
            let column_index = match self.column_index(schema, statement.table.as_str(), assignment.column.as_str()) {
                Ok(i) => i,
                Err(e) => {
                    proof {
                        lemma_bind_assignments_prefix(asg, cols, table, k + 1);
                    }
                    return Err(e);
                },
            };
            let column = &columns[column_index];
            assert(column@ == cols[column_index as int]);
            let value = match self.bind_expression(&assignment.value, Some(schema), statement.table.as_str()) {
                Ok(v) => v,
                Err(e) => {
                    proof {
                        lemma_bind_assignments_prefix(asg, cols, table, k + 1);
                    }
                    return Err(e);
                },
            };
            match self.require_assignable(statement.table.as_str(), column.name(), column.data_type(), column.is_nullable(), &value) {
                Ok(()) => {},
                Err(e) => {
                    proof {
                        lemma_bind_assignments_prefix(asg, cols, table, k + 1);
                    }
                    return Err(e);
                },
            }
            let bound = BoundAssignment { column_index, data_type: column.data_type(), value };
            let ghost before = bound_assignments_view(assignments@);
            let ghost bv = bound@;
            assignments.push(bound);
            assert(bound_assignments_view(assignments@) =~= before.push(bv));
            k += 1;
        }
        assert(asg.take(statement.assignments@.len() as int) =~= asg);
        let filter = match self.bind_filter(&statement.filter, schema, statement.table.as_str()) {
            Ok(f) => f,
            Err(e) => {
                return Err(e);
            },
        };
        Ok(BoundStatement::Update(BoundUpdateStatement { table: statement.table, assignments, filter }))
    }

    fn bind_delete(&self, statement: crate::sql::ast::DeleteStatement) -> (r: Result<BoundStatement, BindError>)
        ensures
            bound_result(r) == spec_bind(
                self.catalog(),
                SpecStatement::Delete { table: statement.table@, filter: crate::sql::ast::filter_view(statement.filter) },
            ),
    {
        let schema = match self.schema(statement.table.as_str()) {
            Ok(s) => s,
            Err(e) => {
                return Err(e);
            },
        };
        let filter = match self.bind_filter(&statement.filter, schema, statement.table.as_str()) {
            Ok(f) => f,
            Err(e) => {
                return Err(e);
            },
        };
        Ok(BoundStatement::Delete(BoundDeleteStatement { table: statement.table, filter }))
    }

    fn bind_create_table(&self, statement: CreateTableStatement) -> (r: Result<BoundStatement, BindError>)
        ensures
            bound_result(r) == spec_bind(
                self.catalog(),
                SpecStatement::CreateTable { table: statement.table@, columns: columns_view(statement.columns@) },
            ),
    {
        if self.database.table(statement.table.as_str()).is_ok() {
            return Err(BindError::TableAlreadyExists { table: statement.table.clone() });
        }
        let ghost cs = columns_view(statement.columns@);
        let mut k: usize = 0;
        while k < statement.columns.len()
            invariant
                k <= statement.columns@.len(),
                cs == columns_view(statement.columns@),
                find_table(self.catalog(), statement.table@) is None,
                forall|m: int, j: int| 0 <= j < m < k ==> #[trigger] cs[j].name != #[trigger] cs[m].name,
            decreases statement.columns@.len() - k,
        {
            let mut j: usize = 0;
            while j < k
                invariant
                    j <= k < statement.columns@.len(),
                    cs == columns_view(statement.columns@),
                    find_table(self.catalog(), statement.table@) is None,
                    forall|m: int, i: int| 0 <= i < m < k ==> #[trigger] cs[i].name != #[trigger] cs[m].name,
                    forall|i: int| 0 <= i < j ==> #[trigger] cs[i].name != cs[k as int].name,
                decreases k - j,
            {
                assert(cs[j as int] == statement.columns@[j as int]@);
                assert(cs[k as int] == statement.columns@[k as int]@);
                if statement.columns[j].name == statement.columns[k].name {
                    proof {
                        assert(cs[j as int].name == cs[k as int].name);
                        assert(first_repeat(cs, k as int));
                        let c = choose|c: int| first_repeat(cs, c);
                        lemma_first_repeat_unique(cs, c, k as int);
                        assert(find_table(self.catalog(), statement.table@) is None);
                        assert(spec_bind(self.catalog(), SpecStatement::CreateTable { table: statement.table@, columns: cs }) == Err::<SpecBoundStatement, SpecBindError>(SpecBindError::DuplicateColumn { column: cs[k as int].name }));
                    }
                    return Err(BindError::DuplicateColumn { column: statement.columns[k].name.clone() });
                }
                j += 1;
            }
            k += 1;
        }
        proof {
            assert forall|c: int| !first_repeat(cs, c) by {
                if first_repeat(cs, c) {
                    let i = choose|i: int| 0 <= i < c && #[trigger] cs[i].name == cs[c].name;
                    assert(cs[i].name != cs[c].name);
                }
            }
        }
        Ok(BoundStatement::CreateTable(statement))
    }

    fn schema(&self, table: &str) -> (r: Result<&Schema, BindError>)
        ensures
            match find_table(self.catalog(), table@) {
                Some(i) => r matches Ok(s) && s@ == self.catalog()[i].columns,
                None => r matches Err(e) && e@ == SpecBindError::TableNotFound { table: table@ },
            },
    {
        match self.database.table(table) {
            Ok(t) => Ok(t.schema()),
            Err(_) => Err(BindError::TableNotFound { table: table.to_owned() }),
        }
    }

    fn column_index(&self, schema: &Schema, table: &str, column: &str) -> (r: Result<usize, BindError>)
        ensures
            match find_column(schema@, column@) {
                Some(i) => r matches Ok(x) && x as int == i && 0 <= i < schema@.len(),
                None => r matches Err(e) && e@ == SpecBindError::ColumnNotFound { table: table@, column: column@ },
            },
    {
        proof {
            crate::storage::schema::lemma_find_column_from(schema@, column@, 0);
        }
        match schema.column_index(column) {
            Some(i) => Ok(i),
            None => Err(BindError::ColumnNotFound { table: table.to_owned(), column: column.to_owned() }),
        }
    }

    fn bind_filter(&self, expression: &Option<Expression>, schema: &Schema, table: &str) -> (r: Result<
        Option<BoundExpression>,
        BindError,
    >)
        ensures
            match bind_filter(crate::sql::ast::filter_view(*expression), schema@, table@) {
                Ok(f) => r matches Ok(b) && bound_filter_view(b) == f,
                Err(err) => r matches Err(e) && e@ == err,
            },
    {
        let expression = match expression {
            Some(e) => e,
            None => {
                return Ok(None);
            },
        };
        let bound = match self.bind_expression(expression, Some(schema), table) {
            Ok(b) => b,
            Err(e) => {
                return Err(e);
            },
        };
        // A non-boolean WHERE is caught before any row is scanned.
        let t = bound.data_type();
        if t != Some(DataType::Boolean) {
            return Err(BindError::ExpectedBoolean { clause: "WHERE expression", actual: t });
        }
        Ok(Some(bound))
    }

    fn bind_expression(&self, expression: &Expression, schema: Option<&Schema>, table: &str) -> (r: Result<
        BoundExpression,
        BindError,
    >)
        ensures
            match bind_expr(expression@, schema_view(schema), table@) {
                Ok(b) => r matches Ok(x) && x@ == b,
                Err(err) => r matches Err(e) && e@ == err,
            },
        decreases expression,
    {
        match expression {
            Expression::Literal(value) => Ok(BoundExpression::Literal(value.clone())),
            Expression::Column(column) => {
                let schema = match schema {
                    Some(s) => s,
                    None => {
                        return Err(BindError::ColumnNotFound { table: table.to_owned(), column: column.clone() });
                    },
                };
                let column_index = match self.column_index(schema, table, column.as_str()) {
                    Ok(i) => i,
                    Err(e) => {
                        return Err(e);
                    },
                };
                proof {
                    let fi = find_column(schema@, column@)->0;
                    assert(find_column(schema@, column@) is Some);
                    assert(column_index as int == fi);
                }
                let columns = schema.columns();
                assert(columns@.len() == schema@.len());
                assert(crate::storage::schema::columns_view(columns@)[column_index as int] == columns@[column_index as int]@);
                Ok(BoundExpression::Column { column_index, data_type: columns[column_index].data_type() })
            },
            Expression::Binary { left, operator, right } => {
                let left = match self.bind_expression(left, schema, table) {
                    Ok(b) => b,
                    Err(e) => {
                        return Err(e);
                    },
                };
                let right = match self.bind_expression(right, schema, table) {
                    Ok(b) => b,
                    Err(e) => {
                        return Err(e);
                    },
                };
                // The result type is stored now, so execution needs no schema.
                let data_type = match binary_result_type(*operator, &left, &right) {
                    Ok(t) => t,
                    Err(e) => {
                        return Err(e);
                    },
                };
                Ok(BoundExpression::Binary { left: Box::new(left), operator: *operator, right: Box::new(right), data_type })
            },
            Expression::Unary { operator, expression } => {
                let inner = match self.bind_expression(expression, schema, table) {
                    Ok(b) => b,
                    Err(e) => {
                        return Err(e);
                    },
                };
                let expected = match operator {
                    UnaryOperator::Not => DataType::Boolean,
                    UnaryOperator::Negate => DataType::Integer,
                };
                let t = inner.data_type();
                if t != Some(expected) {
                    return Err(BindError::InvalidUnaryOperand { operator: *operator, expected, actual: t });
                }
                Ok(BoundExpression::Unary { operator: *operator, expression: Box::new(inner), data_type: expected })
            },
        }
    }

    fn require_assignable(
        &self,
        table: &str,
        column: &str,
        expected: DataType,
        nullable: bool,
        expression: &BoundExpression,
    ) -> (r: Result<(), BindError>)
        ensures
            match assign_error(
                table@,
                SpecColumn { name: column@, data_type: expected, nullable, identity: false },
                bound_type(expression@),
            ) {
                None => r is Ok,
                Some(err) => r matches Err(e) && e@ == err,
            },
    {
        match expression.data_type() {
            None => {
                if !nullable {
                    Err(BindError::NullNotAllowed { table: table.to_owned(), column: column.to_owned() })
                } else {
                    Ok(())
                }
            },
            Some(actual) => {
                if actual != expected {
                    Err(BindError::TypeMismatch { context: column_context_text(table, column), expected, actual })
                } else {
                    Ok(())
                }
            },
        }
    }
}

/// The columns of an optional schema.
pub open spec fn schema_view(schema: Option<&Schema>) -> Option<Seq<SpecColumn>> {
    match schema {
        Some(s) => Some(s@),
        None => None,
    }
}

/// The columns `cs` are, in order, the columns described by `cols`.
pub open spec fn columns_view_eq(cs: Seq<crate::storage::schema::Column>, cols: Seq<SpecColumn>) -> bool {
    crate::storage::schema::columns_view(cs) == cols
}

/// The result type of a binary operator on two bound operands.
fn binary_result_type(operator: BinaryOperator, left: &BoundExpression, right: &BoundExpression) -> (r: Result<
    DataType,
    BindError,
>)
    ensures
        match binary_type(operator, bound_type(left@), bound_type(right@)) {
            Ok(t) => r == Ok::<DataType, BindError>(t),
            Err(err) => r matches Err(e) && e@ == err,
        },
{
    let left_type = left.data_type();
    let right_type = right.data_type();
    if is_comparison_operator(operator) {
        // NULL compares with any type; the value is decided when rows are read.
        match (left_type, right_type) {
            (Some(l), Some(r)) => {
                if l != r {
                    return Err(BindError::IncompatibleTypes { operator, left: l, right: r });
                }
            },
            _ => {},
        }
        return Ok(DataType::Boolean);
    }
    let expected = match operator {
        BinaryOperator::And | BinaryOperator::Or => DataType::Boolean,
        _ => DataType::Integer,
    };
    if left_type == Some(expected) && right_type == Some(expected) {
        Ok(expected)
    } else {
        Err(
            BindError::IncompatibleTypes {
                operator,
                left: match left_type {
                    Some(l) => l,
                    None => expected,
                },
                right: match right_type {
                    Some(r) => r,
                    None => expected,
                },
            },
        )
    }
}


/// Whether the column of assignment `k` is assigned by an earlier one.
fn assigned_earlier(assignments: &Vec<crate::sql::ast::Assignment>, k: usize) -> (r: bool)
    requires
        k < assignments@.len(),
    ensures
        r == assigned_before(crate::sql::ast::assignments_view(assignments@).take(k + 1), k as int),
{
    let ghost cur = crate::sql::ast::assignments_view(assignments@).take(k + 1);
    let mut j: usize = 0;
    while j < k
        invariant
            j <= k < assignments@.len(),
            cur == crate::sql::ast::assignments_view(assignments@).take(k + 1),
            forall|m: int| 0 <= m < j ==> #[trigger] cur[m].column != cur[k as int].column,
        decreases k - j,
    {
        assert(cur[j as int] == assignments@[j as int]@);
        assert(cur[k as int] == assignments@[k as int]@);
        if assignments[j].column == assignments[k].column {
            assert(cur[j as int].column == cur[k as int].column);
            return true;
        }
        j += 1;
    }
    false
}

/// Whether `op` compares its operands.
pub fn is_comparison_operator(op: BinaryOperator) -> (r: bool)
    ensures
        r == is_comparison(op),
{
    match op {
        BinaryOperator::Equal | BinaryOperator::NotEqual | BinaryOperator::LessThan
        | BinaryOperator::LessThanOrEqual | BinaryOperator::GreaterThan
        | BinaryOperator::GreaterThanOrEqual => true,
        _ => false,
    }
}

/// The text "column 'c' in table 't'".
fn column_context_text(table: &str, column: &str) -> (r: String)
    ensures
        r@ == column_context(table@, column@),
{
    let mut s = String::new();
    crate::text::push_str(&mut s, "column '");
    crate::text::push_str(&mut s, column);
    crate::text::push_str(&mut s, "' in table '");
    crate::text::push_str(&mut s, table);
    crate::text::push_str(&mut s, "'");
    s
}


/// There is at most one first repeated name.
proof fn lemma_first_repeat_unique(cs: Seq<SpecColumnDefinition>, a: int, b: int)
    requires
        first_repeat(cs, a),
        first_repeat(cs, b),
    ensures
        a == b,
{
    if a < b {
        let i = choose|i: int| 0 <= i < a && #[trigger] cs[i].name == cs[a].name;
        assert(cs[i].name != cs[a].name);
    } else if b < a {
        let i = choose|i: int| 0 <= i < b && #[trigger] cs[i].name == cs[b].name;
        assert(cs[i].name != cs[b].name);
    }
}

/// Binding fails as soon as a prefix of the values fails.
proof fn lemma_bind_values_prefix(vs: Seq<SpecExpr>, cols: Seq<SpecColumn>, table: Seq<char>, n: int)
    requires
        0 <= n <= vs.len(),
        bind_values(vs.take(n), cols, table) is Err,
    ensures
        bind_values(vs, cols, table) == bind_values(vs.take(n), cols, table),
    decreases vs.len() - n,
{
    if n < vs.len() {
        assert(vs.take(n + 1).drop_last() =~= vs.take(n));
        lemma_bind_values_prefix(vs, cols, table, n + 1);
    } else {
        assert(vs.take(n) =~= vs);
    }
}

proof fn lemma_bind_projections_prefix(items: Seq<SpecSelectItem>, cols: Seq<SpecColumn>, table: Seq<char>, n: int)
    requires
        0 <= n <= items.len(),
        bind_projections(items.take(n), cols, table) is Err,
    ensures
        bind_projections(items, cols, table) == bind_projections(items.take(n), cols, table),
    decreases items.len() - n,
{
    if n < items.len() {
        assert(items.take(n + 1).drop_last() =~= items.take(n));
        lemma_bind_projections_prefix(items, cols, table, n + 1);
    } else {
        assert(items.take(n) =~= items);
    }
}

proof fn lemma_bind_assignments_prefix(a: Seq<SpecAssignment>, cols: Seq<SpecColumn>, table: Seq<char>, n: int)
    requires
        0 <= n <= a.len(),
        bind_assignments(a.take(n), cols, table) is Err,
    ensures
        bind_assignments(a, cols, table) == bind_assignments(a.take(n), cols, table),
    decreases a.len() - n,
{
    if n < a.len() {
        assert(a.take(n + 1).drop_last() =~= a.take(n));
        assert forall|k: int| 0 <= k < n + 1 implies assigned_before(a.take(n + 1), k) == assigned_before(a, k) by {
            if assigned_before(a, k) {
                let j = choose|j: int| 0 <= j < k && #[trigger] a[j].column == a[k].column;
                assert(a.take(n + 1)[j].column == a.take(n + 1)[k].column);
            }
            if assigned_before(a.take(n + 1), k) {
                let j = choose|j: int| 0 <= j < k && #[trigger] a.take(n + 1)[j].column == a.take(n + 1)[k].column;
                assert(a[j].column == a[k].column);
            }
        }
        lemma_bind_assignments_prefix(a, cols, table, n + 1);
    } else {
        assert(a.take(n) =~= a);
    }
}

/// The symbol of a binary operator, as written in SQL.
pub open spec fn binary_symbol(op: BinaryOperator) -> Seq<char> {
    match op {
        BinaryOperator::Or => "OR"@,
        BinaryOperator::And => "AND"@,
        BinaryOperator::Equal => "="@,
        BinaryOperator::NotEqual => "!="@,
        BinaryOperator::LessThan => "<"@,
        BinaryOperator::LessThanOrEqual => "<="@,
        BinaryOperator::GreaterThan => ">"@,
        BinaryOperator::GreaterThanOrEqual => ">="@,
        BinaryOperator::Add => "+"@,
        BinaryOperator::Subtract => "-"@,
        BinaryOperator::Multiply => "*"@,
        BinaryOperator::Divide => "/"@,
    }
}

/// The symbol of a unary operator, as written in SQL.
pub open spec fn unary_symbol(op: UnaryOperator) -> Seq<char> {
    match op {
        UnaryOperator::Not => "NOT"@,
        UnaryOperator::Negate => "-"@,
    }
}

fn binary_symbol_text(op: BinaryOperator) -> (r: &'static str)
    ensures
        r@ == binary_symbol(op),
{
    match op {
        BinaryOperator::Or => "OR",
        BinaryOperator::And => "AND",
        BinaryOperator::Equal => "=",
        BinaryOperator::NotEqual => "!=",
        BinaryOperator::LessThan => "<",
        BinaryOperator::LessThanOrEqual => "<=",
        BinaryOperator::GreaterThan => ">",
        BinaryOperator::GreaterThanOrEqual => ">=",
        BinaryOperator::Add => "+",
        BinaryOperator::Subtract => "-",
        BinaryOperator::Multiply => "*",
        BinaryOperator::Divide => "/",
    }
}

fn unary_symbol_text(op: UnaryOperator) -> (r: &'static str)
    ensures
        r@ == unary_symbol(op),
{
    match op {
        UnaryOperator::Not => "NOT",
        UnaryOperator::Negate => "-",
    }
}

/// The text that describes a binding error to a person.
pub open spec fn bind_message(e: SpecBindError) -> Seq<char> {
    match e {
        SpecBindError::TableAlreadyExists { table } => "table '"@ + table + "' already exists"@,
        SpecBindError::TableNotFound { table } => "table '"@ + table + "' does not exist"@,
        SpecBindError::ColumnNotFound { table, column } => "column '"@ + column
            + "' does not exist in table '"@ + table + "'"@,
        SpecBindError::AmbiguousColumn { column } => "column '"@ + column + "' is ambiguous"@,
        SpecBindError::DuplicateColumn { column } => "column '"@ + column
            + "' is defined more than once"@,
        SpecBindError::DuplicateAssignment { column } => "column '"@ + column
            + "' is assigned more than once"@,
        SpecBindError::WrongColumnCount { table, expected, actual } => "table '"@ + table
            + "' expects "@ + crate::text::decimal(expected as nat) + " values, but received "@
            + crate::text::decimal(actual as nat),
        SpecBindError::TypeMismatch { context, expected, actual } => context + " expects "@
            + crate::value::spec_type_name(expected) + ", but received "@
            + crate::value::spec_type_name(actual),
        SpecBindError::NullNotAllowed { table, column } => "column '"@ + column + "' in table '"@
            + table + "' does not allow NULL"@,
        SpecBindError::IncompatibleTypes { operator, left, right } => if is_comparison(operator) {
            "Cannot compare "@ + crate::value::spec_type_name(left) + " with "@
                + crate::value::spec_type_name(right)
        } else {
            "operator "@ + binary_symbol(operator) + " cannot be applied to "@
                + crate::value::spec_type_name(left) + " and "@ + crate::value::spec_type_name(right)
        },
        SpecBindError::InvalidUnaryOperand { operator, expected, actual } => match actual {
            Some(a) => "operator "@ + unary_symbol(operator) + " expects "@
                + crate::value::spec_type_name(expected) + ", but received "@
                + crate::value::spec_type_name(a),
            None => "operator "@ + unary_symbol(operator) + " cannot be applied to untyped NULL"@,
        },
        SpecBindError::ExpectedBoolean { clause, actual } => match actual {
            Some(a) => clause + " must be BOOLEAN, but received "@ + crate::value::spec_type_name(a),
            None => clause + " cannot be an untyped NULL"@,
        },
    }
}

impl BindError {
    /// The text that describes this error to a person.
    pub fn message(&self) -> (r: String)
        ensures
            r@ == bind_message(self@),
    {
        let mut s = String::new();
        match self {
            BindError::TableAlreadyExists { table } => {
                push_str(&mut s, "table '");
                push_str(&mut s, table.as_str());
                push_str(&mut s, "' already exists");
            },
            BindError::TableNotFound { table } => {
                push_str(&mut s, "table '");
                push_str(&mut s, table.as_str());
                push_str(&mut s, "' does not exist");
            },
            BindError::ColumnNotFound { table, column } => {
                push_str(&mut s, "column '");
                push_str(&mut s, column.as_str());
                push_str(&mut s, "' does not exist in table '");
                push_str(&mut s, table.as_str());
                push_str(&mut s, "'");
            },
            BindError::AmbiguousColumn { column } => {
                push_str(&mut s, "column '");
                push_str(&mut s, column.as_str());
                push_str(&mut s, "' is ambiguous");
            },
            BindError::DuplicateColumn { column } => {
                push_str(&mut s, "column '");
                push_str(&mut s, column.as_str());
                push_str(&mut s, "' is defined more than once");
            },
            BindError::DuplicateAssignment { column } => {
                push_str(&mut s, "column '");
                push_str(&mut s, column.as_str());
                push_str(&mut s, "' is assigned more than once");
            },
            BindError::WrongColumnCount { table, expected, actual } => {
                push_str(&mut s, "table '");
                push_str(&mut s, table.as_str());
                push_str(&mut s, "' expects ");
                crate::text::push_decimal(&mut s, *expected as u64);
                push_str(&mut s, " values, but received ");
                crate::text::push_decimal(&mut s, *actual as u64);
            },
            BindError::TypeMismatch { context, expected, actual } => {
                push_str(&mut s, context.as_str());
                push_str(&mut s, " expects ");
                push_str(&mut s, expected.name().as_str());
                push_str(&mut s, ", but received ");
                push_str(&mut s, actual.name().as_str());
            },
            BindError::NullNotAllowed { table, column } => {
                push_str(&mut s, "column '");
                push_str(&mut s, column.as_str());
                push_str(&mut s, "' in table '");
                push_str(&mut s, table.as_str());
                push_str(&mut s, "' does not allow NULL");
            },
            BindError::IncompatibleTypes { operator, left, right } => {
                if is_comparison_operator(*operator) {
                    push_str(&mut s, "Cannot compare ");
                    push_str(&mut s, left.name().as_str());
                    push_str(&mut s, " with ");
                    push_str(&mut s, right.name().as_str());
                } else {
                    push_str(&mut s, "operator ");
                    push_str(&mut s, binary_symbol_text(*operator));
                    push_str(&mut s, " cannot be applied to ");
                    push_str(&mut s, left.name().as_str());
                    push_str(&mut s, " and ");
                    push_str(&mut s, right.name().as_str());
                }
            },
            BindError::InvalidUnaryOperand { operator, expected, actual } => {
                push_str(&mut s, "operator ");
                push_str(&mut s, unary_symbol_text(*operator));
                match actual {
                    Some(a) => {
                        push_str(&mut s, " expects ");
                        push_str(&mut s, expected.name().as_str());
                        push_str(&mut s, ", but received ");
                        push_str(&mut s, a.name().as_str());
                    },
                    None => {
                        push_str(&mut s, " cannot be applied to untyped NULL");
                    },
                }
            },
            BindError::ExpectedBoolean { clause, actual } => {
                push_str(&mut s, clause);
                match actual {
                    Some(a) => {
                        push_str(&mut s, " must be BOOLEAN, but received ");
                        push_str(&mut s, a.name().as_str());
                    },
                    None => {
                        push_str(&mut s, " cannot be an untyped NULL");
                    },
                }
            },
        }
        s
    }
}

} // verus!
