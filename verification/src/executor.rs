use crate::row::Row;
use crate::sql::ast::{BinaryOperator, ColumnDefinition, CreateTableStatement, SpecColumnDefinition, UnaryOperator};
use crate::sql::binder::{
    bound_filter_view, bounds_view, bound_assignments_view, BindError, BoundDeleteStatement, BoundExpression, BoundInsertStatement,
    BoundSelectStatement, BoundStatement, BoundUpdateStatement, SpecBindError, SpecBound,
    SpecBoundAssignment, SpecBoundStatement,
};
use crate::sql::binder::{bound_type, well_typed};
use crate::value::{spec_data_type, DataType};
use crate::sql::ast::{statements_view, SpecStatement, Statement};
use crate::sql::binder::{spec_bind, Binder};
use crate::sql::parser::{
    parse_sql, parse_sql_statements, spec_parse_sql, spec_parse_sql_statements, SpecSqlError, SqlError,
};
use crate::storage::database::{
    catalog_page_holds, created, find_table, inserted, replaced, rows_view, same_error, spec_select_all,
    Database,
};
use crate::storage::error::{DbError, SpecDbError};
use crate::storage::page::RecordId;
use crate::storage::schema::{check_row, is_duplicate_error, names_distinct, Column, Schema, SpecColumn};
use crate::storage::table::SpecTable;
use crate::value::{SpecValue, Value};
use crate::sql::binder::bind_message;
use crate::sql::parser::sql_message;
use crate::storage::error::db_message;
use crate::text::{decimal, push_decimal, push_str};
use crate::value::value_text;
use vstd::prelude::*;
use vstd::utf8::encode_utf8;

verus! {

/// Everything that can go wrong while running SQL.
#[derive(Debug, Clone, PartialEq, Eq)]
pub enum DatabaseError {
    Sql(SqlError),
    Bind(BindError),
    Storage(DbError),
    DivisionByZero,
    IntegerOverflow,
    InvalidColumnIndex { index: usize, row_len: usize },
    ExpectedBoolean { actual: Value },
}

impl From<SqlError> for DatabaseError {
    fn from(value: SqlError) -> (r: Self) {
        DatabaseError::Sql(value)
    }
}

impl vstd::std_specs::convert::FromSpecImpl<SqlError> for DatabaseError {
    open spec fn obeys_from_spec() -> bool {
        true
    }

    open spec fn from_spec(v: SqlError) -> DatabaseError {
        DatabaseError::Sql(v)
    }
}

impl From<BindError> for DatabaseError {
    fn from(value: BindError) -> (r: Self) {
        DatabaseError::Bind(value)
    }
}

impl vstd::std_specs::convert::FromSpecImpl<BindError> for DatabaseError {
    open spec fn obeys_from_spec() -> bool {
        true
    }

    open spec fn from_spec(v: BindError) -> DatabaseError {
        DatabaseError::Bind(v)
    }
}

impl From<DbError> for DatabaseError {
    fn from(value: DbError) -> (r: Self) {
        DatabaseError::Storage(value)
    }
}

impl vstd::std_specs::convert::FromSpecImpl<DbError> for DatabaseError {
    open spec fn obeys_from_spec() -> bool {
        true
    }

    open spec fn from_spec(v: DbError) -> DatabaseError {
        DatabaseError::Storage(v)
    }
}

/// The content of a `DatabaseError`.
pub enum SpecDatabaseError {
    Sql(SpecSqlError),
    Bind(SpecBindError),
    Storage(SpecDbError),
    DivisionByZero,
    IntegerOverflow,
    InvalidColumnIndex { index: usize, row_len: usize },
    ExpectedBoolean { actual: SpecValue },
}

impl View for DatabaseError {
    type V = SpecDatabaseError;

    open spec fn view(&self) -> SpecDatabaseError {
        match self {
            DatabaseError::Sql(e) => SpecDatabaseError::Sql(e@),
            DatabaseError::Bind(e) => SpecDatabaseError::Bind(e@),
            DatabaseError::Storage(e) => SpecDatabaseError::Storage(e@),
            DatabaseError::DivisionByZero => SpecDatabaseError::DivisionByZero,
            DatabaseError::IntegerOverflow => SpecDatabaseError::IntegerOverflow,
            DatabaseError::InvalidColumnIndex { index, row_len } =>
                SpecDatabaseError::InvalidColumnIndex { index: *index, row_len: *row_len },
            DatabaseError::ExpectedBoolean { actual } => SpecDatabaseError::ExpectedBoolean {
                actual: actual@,
            },
        }
    }
}

/// The text that describes an error of running SQL to a person.
pub open spec fn database_message(e: SpecDatabaseError) -> Seq<char> {
    match e {
        SpecDatabaseError::Sql(x) => sql_message(x),
        SpecDatabaseError::Bind(x) => "binding error: "@ + bind_message(x),
        SpecDatabaseError::Storage(x) => "storage error: "@ + db_message(x),
        SpecDatabaseError::DivisionByZero => "division by zero"@,
        SpecDatabaseError::IntegerOverflow => "integer arithmetic overflow"@,
        SpecDatabaseError::InvalidColumnIndex { index, row_len } => "column index "@ + decimal(index as nat)
            + " is outside a row of length "@ + decimal(row_len as nat),
        SpecDatabaseError::ExpectedBoolean { actual } => "predicate evaluated to "@ + value_text(actual)
            + ", not BOOLEAN"@,
    }
}

impl DatabaseError {
    /// The text that describes this error to a person.
    pub fn message(&self) -> (r: String)
        ensures
            r@ == database_message(self@),
    {
        let mut s = String::new();
        match self {
            DatabaseError::Sql(e) => {
                push_str(&mut s, e.message().as_str());
            },
            DatabaseError::Bind(e) => {
                push_str(&mut s, "binding error: ");
                push_str(&mut s, e.message().as_str());
            },
            DatabaseError::Storage(e) => {
                push_str(&mut s, "storage error: ");
                push_str(&mut s, e.message().as_str());
            },
            DatabaseError::DivisionByZero => {
                push_str(&mut s, "division by zero");
            },
            DatabaseError::IntegerOverflow => {
                push_str(&mut s, "integer arithmetic overflow");
            },
            DatabaseError::InvalidColumnIndex { index, row_len } => {
                push_str(&mut s, "column index ");
                push_decimal(&mut s, *index as u64);
                push_str(&mut s, " is outside a row of length ");
                push_decimal(&mut s, *row_len as u64);
            },
            DatabaseError::ExpectedBoolean { actual } => {
                push_str(&mut s, "predicate evaluated to ");
                push_str(&mut s, actual.to_text().as_str());
                push_str(&mut s, ", not BOOLEAN");
            },
        }
        s
    }
}

/// Byte strings in lexicographic order: a proper prefix comes first.
pub open spec fn bytes_lt(a: Seq<u8>, b: Seq<u8>) -> bool
    decreases a.len(),
{
    if a.len() == 0 {
        b.len() > 0
    } else if b.len() == 0 {
        false
    } else if a[0] != b[0] {
        a[0] < b[0]
    } else {
        bytes_lt(a.drop_first(), b.drop_first())
    }
}

/// Text order: the order of the UTF-8 bytes.
pub open spec fn text_lt(a: Seq<char>, b: Seq<char>) -> bool {
    bytes_lt(encode_utf8(a), encode_utf8(b))
}

/// An integer result, or overflow when it does not fit 64 bits.
pub open spec fn checked_int(v: int) -> Result<SpecValue, SpecDatabaseError> {
    if i64::MIN <= v <= i64::MAX {
        Ok(SpecValue::Integer(v as i64))
    } else {
        Err(SpecDatabaseError::IntegerOverflow)
    }
}

/// Integer division that rounds toward zero.
pub open spec fn trunc_div(x: int, d: int) -> int {
    if x == 0 {
        0
    } else if x > 0 && d > 0 {
        x / d
    } else if x < 0 && d < 0 {
        (x * -1) / (d * -1)
    } else if x < 0 {
        ((x * -1) / d) * -1
    } else {
        (x / (d * -1)) * -1
    }
}

/// What a unary operator gives for `v`: NULL stays NULL, `NOT` hands a
/// boolean back unchanged, and `-` negates an integer.
pub open spec fn spec_unary(op: UnaryOperator, v: SpecValue) -> Result<SpecValue, SpecDatabaseError> {
    match (op, v) {
        (_, SpecValue::Null) => Ok(SpecValue::Null),
        (UnaryOperator::Not, SpecValue::Boolean(b)) => Ok(SpecValue::Boolean(b)),
        (UnaryOperator::Negate, SpecValue::Integer(i)) => checked_int(-i),
        (_, actual) => Err(SpecDatabaseError::ExpectedBoolean { actual }),
    }
}

/// What a binary operator gives for two NULL-free operands.
pub open spec fn spec_binary_values(l: SpecValue, op: BinaryOperator, r: SpecValue) -> Result<
    SpecValue,
    SpecDatabaseError,
> {
    match (op, l, r) {
        (BinaryOperator::And, SpecValue::Boolean(a), SpecValue::Boolean(b)) => Ok(
            SpecValue::Boolean(a && b),
        ),
        (BinaryOperator::Or, SpecValue::Boolean(a), SpecValue::Boolean(b)) => Ok(
            SpecValue::Boolean(a || b),
        ),
        (BinaryOperator::Equal, a, b) => Ok(SpecValue::Boolean(a == b)),
        (BinaryOperator::NotEqual, a, b) => Ok(SpecValue::Boolean(a != b)),
        (BinaryOperator::LessThan, SpecValue::Integer(a), SpecValue::Integer(b)) => Ok(
            SpecValue::Boolean(a < b),
        ),
        (BinaryOperator::LessThanOrEqual, SpecValue::Integer(a), SpecValue::Integer(b)) => Ok(
            SpecValue::Boolean(a <= b),
        ),
        (BinaryOperator::GreaterThan, SpecValue::Integer(a), SpecValue::Integer(b)) => Ok(
            SpecValue::Boolean(a > b),
        ),
        (BinaryOperator::GreaterThanOrEqual, SpecValue::Integer(a), SpecValue::Integer(b)) => Ok(
            SpecValue::Boolean(a >= b),
        ),
        (BinaryOperator::LessThan, SpecValue::Text(a), SpecValue::Text(b)) => Ok(
            SpecValue::Boolean(text_lt(a, b)),
        ),
        (BinaryOperator::LessThanOrEqual, SpecValue::Text(a), SpecValue::Text(b)) => Ok(
            SpecValue::Boolean(!text_lt(b, a)),
        ),
        (BinaryOperator::GreaterThan, SpecValue::Text(a), SpecValue::Text(b)) => Ok(
            SpecValue::Boolean(text_lt(b, a)),
        ),
        (BinaryOperator::GreaterThanOrEqual, SpecValue::Text(a), SpecValue::Text(b)) => Ok(
            SpecValue::Boolean(!text_lt(a, b)),
        ),
        (BinaryOperator::LessThan, SpecValue::Boolean(a), SpecValue::Boolean(b)) => Ok(
            SpecValue::Boolean(!a && b),
        ),
        (BinaryOperator::LessThanOrEqual, SpecValue::Boolean(a), SpecValue::Boolean(b)) => Ok(
            SpecValue::Boolean(!a || b),
        ),
        (BinaryOperator::GreaterThan, SpecValue::Boolean(a), SpecValue::Boolean(b)) => Ok(
            SpecValue::Boolean(a && !b),
        ),
        (BinaryOperator::GreaterThanOrEqual, SpecValue::Boolean(a), SpecValue::Boolean(b)) => Ok(
            SpecValue::Boolean(a || !b),
        ),
        (BinaryOperator::Add, SpecValue::Integer(a), SpecValue::Integer(b)) => checked_int(a + b),
        (BinaryOperator::Subtract, SpecValue::Integer(a), SpecValue::Integer(b)) => checked_int(
            a - b,
        ),
        (BinaryOperator::Multiply, SpecValue::Integer(a), SpecValue::Integer(b)) => checked_int(
            a * b,
        ),
        (BinaryOperator::Divide, SpecValue::Integer(a), SpecValue::Integer(b)) => if b == 0 {
            Err(SpecDatabaseError::DivisionByZero)
        } else {
            checked_int(trunc_div(a as int, b as int))
        },
        (_, actual, _) => Err(SpecDatabaseError::ExpectedBoolean { actual }),
    }
}

/// What a binary operator gives, with SQL's three-valued logic for NULL:
/// false AND unknown is false, true OR unknown is true, anything else with a
/// NULL operand is NULL.
pub open spec fn spec_binary(l: SpecValue, op: BinaryOperator, r: SpecValue) -> Result<
    SpecValue,
    SpecDatabaseError,
> {
    if l is Null || r is Null {
        if op == BinaryOperator::And && (l == SpecValue::Boolean(false) || r == SpecValue::Boolean(
            false,
        )) {
            Ok(SpecValue::Boolean(false))
        } else if op == BinaryOperator::Or && (l == SpecValue::Boolean(true) || r
            == SpecValue::Boolean(true)) {
            Ok(SpecValue::Boolean(true))
        } else {
            Ok(SpecValue::Null)
        }
    } else {
        spec_binary_values(l, op, r)
    }
}

/// The order that comparisons use: integers by value, texts by their UTF-8
/// bytes, and false before true.
pub open spec fn value_lt(a: SpecValue, b: SpecValue) -> bool {
    match (a, b) {
        (SpecValue::Integer(x), SpecValue::Integer(y)) => x < y,
        (SpecValue::Text(x), SpecValue::Text(y)) => text_lt(x, y),
        (SpecValue::Boolean(x), SpecValue::Boolean(y)) => !x && y,
        _ => false,
    }
}

/// Two values that comparisons accept together: both integers, both texts,
/// or both booleans.
pub open spec fn comparable(a: SpecValue, b: SpecValue) -> bool {
    ||| a is Integer && b is Integer
    ||| a is Text && b is Text
    ||| a is Boolean && b is Boolean
}

/// Comparing two non-NULL values of one type: `=` and `<>` test equality;
/// `a < b` and `b > a` give the same answer, as do `a <= b` and `b >= a`;
/// `a <= b` holds exactly when `a = b` or `a < b`; and the order is strict
/// and total, so exactly one of `a < b`, `a = b`, `b < a` holds.
pub proof fn lemma_comparisons(a: SpecValue, b: SpecValue)
    requires
        comparable(a, b),
    ensures
        spec_binary(a, BinaryOperator::Equal, b) == Ok::<SpecValue, SpecDatabaseError>(SpecValue::Boolean(a == b)),
        spec_binary(a, BinaryOperator::NotEqual, b) == Ok::<SpecValue, SpecDatabaseError>(SpecValue::Boolean(a != b)),
        spec_binary(a, BinaryOperator::LessThan, b) == Ok::<SpecValue, SpecDatabaseError>(
            SpecValue::Boolean(value_lt(a, b)),
        ),
        spec_binary(b, BinaryOperator::GreaterThan, a) == spec_binary(a, BinaryOperator::LessThan, b),
        spec_binary(a, BinaryOperator::LessThanOrEqual, b) == Ok::<SpecValue, SpecDatabaseError>(
            SpecValue::Boolean(a == b || value_lt(a, b)),
        ),
        spec_binary(b, BinaryOperator::GreaterThanOrEqual, a) == spec_binary(
            a,
            BinaryOperator::LessThanOrEqual,
            b,
        ),
        value_lt(a, b) ==> !value_lt(b, a) && a != b,
        a != b ==> value_lt(a, b) || value_lt(b, a),
{
    if let (SpecValue::Text(x), SpecValue::Text(y)) = (a, b) {
        crate::storage::properties::lemma_bytes_lt_irreflexive(encode_utf8(x));
        crate::storage::properties::lemma_bytes_lt_irreflexive(encode_utf8(y));
        if text_lt(x, y) {
            crate::storage::properties::lemma_bytes_lt_asymmetric(encode_utf8(x), encode_utf8(y));
        }
        if text_lt(y, x) {
            crate::storage::properties::lemma_bytes_lt_asymmetric(encode_utf8(y), encode_utf8(x));
        }
        if x != y {
            crate::storage::properties::lemma_text_lt_total(x, y);
        }
    }
}

/// An integer operand.
pub open spec fn int_value(a: i64) -> SpecValue {
    SpecValue::Integer(a)
}

/// Integer addition is commutative, and subtraction and addition undo each
/// other: when `a + b` gives `s`, `s - b` gives `a`; when `a - b` gives `d`,
/// `d + b` gives `a`. Each succeeds exactly when the mathematical result fits
/// 64 bits, and fails with overflow otherwise.
pub proof fn lemma_add_subtract(a: i64, b: i64)
    ensures
        spec_binary(int_value(a), BinaryOperator::Add, int_value(b)) == spec_binary(
            int_value(b),
            BinaryOperator::Add,
            int_value(a),
        ),
        match spec_binary(int_value(a), BinaryOperator::Add, int_value(b)) {
            Ok(SpecValue::Integer(s)) => spec_binary(int_value(s), BinaryOperator::Subtract, int_value(b))
                == Ok::<SpecValue, SpecDatabaseError>(int_value(a)),
            Ok(_) => false,
            Err(e) => e == SpecDatabaseError::IntegerOverflow && !(i64::MIN <= a + b <= i64::MAX),
        },
        match spec_binary(int_value(a), BinaryOperator::Subtract, int_value(b)) {
            Ok(SpecValue::Integer(d)) => spec_binary(int_value(d), BinaryOperator::Add, int_value(b))
                == Ok::<SpecValue, SpecDatabaseError>(int_value(a)),
            Ok(_) => false,
            Err(e) => e == SpecDatabaseError::IntegerOverflow && !(i64::MIN <= a - b <= i64::MAX),
        },
{
}

/// Negation gives the integer that adds to zero, and fails only on the
/// smallest integer, whose negation does not fit 64 bits.
pub proof fn lemma_negate(a: i64)
    ensures
        match spec_unary(UnaryOperator::Negate, int_value(a)) {
            Ok(SpecValue::Integer(n)) => spec_binary(int_value(a), BinaryOperator::Add, int_value(n))
                == Ok::<SpecValue, SpecDatabaseError>(int_value(0)),
            Ok(_) => false,
            Err(e) => e == SpecDatabaseError::IntegerOverflow && a == i64::MIN,
        },
{
}

/// Truncating division gives back a factor of an exact product.
proof fn lemma_trunc_div_product(q: int, b: int)
    requires
        b != 0,
    ensures
        trunc_div(q * b, b) == q,
{
    if q == 0 {
        assert(q * b == 0) by (nonlinear_arith)
            requires
                q == 0,
        ;
    } else if q > 0 && b > 0 {
        assert(q * b > 0) by (nonlinear_arith)
            requires
                q > 0,
                b > 0,
        ;
        assert(q * b == b * q) by (nonlinear_arith);
        vstd::arithmetic::div_mod::lemma_div_multiples_vanish(q, b);
    } else if q < 0 && b < 0 {
        assert(q * b > 0) by (nonlinear_arith)
            requires
                q < 0,
                b < 0,
        ;
        assert(q * b == (b * -1) * (q * -1)) by (nonlinear_arith);
        vstd::arithmetic::div_mod::lemma_div_multiples_vanish(q * -1, b * -1);
    } else if q > 0 {
        assert(q * b < 0) by (nonlinear_arith)
            requires
                q > 0,
                b < 0,
        ;
        assert(q * b * -1 == (b * -1) * q) by (nonlinear_arith);
        vstd::arithmetic::div_mod::lemma_div_multiples_vanish(q, b * -1);
    } else {
        assert(q * b < 0) by (nonlinear_arith)
            requires
                q < 0,
                b > 0,
        ;
        assert(q * b * -1 == b * (q * -1)) by (nonlinear_arith);
        vstd::arithmetic::div_mod::lemma_div_multiples_vanish(q * -1, b);
    }
}

/// Integer multiplication is commutative, and division undoes it: when
/// `q * b` gives `m` and `b` is not zero, `m / b` gives `q`. Dividing by zero
/// fails with a division-by-zero error.
pub proof fn lemma_multiply_divide(q: i64, b: i64)
    ensures
        spec_binary(int_value(q), BinaryOperator::Multiply, int_value(b)) == spec_binary(
            int_value(b),
            BinaryOperator::Multiply,
            int_value(q),
        ),
        b != 0 ==> match spec_binary(int_value(q), BinaryOperator::Multiply, int_value(b)) {
            Ok(SpecValue::Integer(m)) => spec_binary(int_value(m), BinaryOperator::Divide, int_value(b))
                == Ok::<SpecValue, SpecDatabaseError>(int_value(q)),
            _ => true,
        },
        spec_binary(int_value(q), BinaryOperator::Divide, int_value(0)) == Err::<
            SpecValue,
            SpecDatabaseError,
        >(SpecDatabaseError::DivisionByZero),
{
    assert(q * b == b * q) by (nonlinear_arith);
    if b != 0 {
        lemma_trunc_div_product(q as int, b as int);
    }
}

/// A truth value of three-valued logic: true, false, or NULL (unknown).
pub open spec fn truth(x: SpecValue) -> bool {
    x is Boolean || x is Null
}

/// AND and OR on truth values are commutative; AND is true exactly when
/// both sides are true and false exactly when one side is false; OR is true
/// exactly when one side is true and false exactly when both are false;
/// anything else is NULL.
pub proof fn lemma_three_valued_logic(x: SpecValue, y: SpecValue)
    requires
        truth(x),
        truth(y),
    ensures
        spec_binary(x, BinaryOperator::And, y) == spec_binary(y, BinaryOperator::And, x),
        spec_binary(x, BinaryOperator::Or, y) == spec_binary(y, BinaryOperator::Or, x),
        spec_binary(x, BinaryOperator::And, y) == Ok::<SpecValue, SpecDatabaseError>(
            if x == SpecValue::Boolean(false) || y == SpecValue::Boolean(false) {
                SpecValue::Boolean(false)
            } else if x == SpecValue::Boolean(true) && y == SpecValue::Boolean(true) {
                SpecValue::Boolean(true)
            } else {
                SpecValue::Null
            },
        ),
        spec_binary(x, BinaryOperator::Or, y) == Ok::<SpecValue, SpecDatabaseError>(
            if x == SpecValue::Boolean(true) || y == SpecValue::Boolean(true) {
                SpecValue::Boolean(true)
            } else if x == SpecValue::Boolean(false) && y == SpecValue::Boolean(false) {
                SpecValue::Boolean(false)
            } else {
                SpecValue::Null
            },
        ),
{
}

/// The value of a bound expression on a row. The right operand of AND and
/// OR is not evaluated when the left one decides the result.
pub open spec fn spec_eval(e: SpecBound, row: Seq<SpecValue>) -> Result<SpecValue, SpecDatabaseError>
    decreases e,
{
    match e {
        SpecBound::Literal(v) => Ok(v),
        SpecBound::Column { column_index, .. } => if column_index < row.len() {
            Ok(row[column_index as int])
        } else {
            Err(
                SpecDatabaseError::InvalidColumnIndex {
                    index: column_index,
                    row_len: row.len() as usize,
                },
            )
        },
        SpecBound::Unary { operator, expression, .. } => match spec_eval(*expression, row) {
            Ok(v) => spec_unary(operator, v),
            Err(err) => Err(err),
        },
        SpecBound::Binary { left, operator, right, .. } => match spec_eval(*left, row) {
            Err(err) => Err(err),
            Ok(l) => if (operator == BinaryOperator::And && l == SpecValue::Boolean(false)) || (
            operator == BinaryOperator::Or && l == SpecValue::Boolean(true)) {
                Ok(l)
            } else {
                match spec_eval(*right, row) {
                    Err(err) => Err(err),
                    Ok(r) => spec_binary(l, operator, r),
                }
            },
        },
    }
}

/// Whether a row passes a WHERE filter: only a true result keeps it.
pub open spec fn spec_matches(filter: Option<SpecBound>, row: Seq<SpecValue>) -> Result<
    bool,
    SpecDatabaseError,
> {
    match filter {
        None => Ok(true),
        Some(f) => match spec_eval(f, row) {
            Ok(SpecValue::Boolean(b)) => Ok(b),
            Ok(SpecValue::Null) => Ok(false),
            Ok(actual) => Err(SpecDatabaseError::ExpectedBoolean { actual }),
            Err(err) => Err(err),
        },
    }
}

pub open spec fn value_result(r: Result<Value, DatabaseError>) -> Result<SpecValue, SpecDatabaseError> {
    match r {
        Ok(v) => Ok(v@),
        Err(e) => Err(e@),
    }
}

pub open spec fn bool_result(r: Result<bool, DatabaseError>) -> Result<bool, SpecDatabaseError> {
    match r {
        Ok(b) => Ok(b),
        Err(e) => Err(e@),
    }
}

/// Whether `a` comes before `b` in text order.
pub fn text_less(a: &str, b: &str) -> (r: bool)
    ensures
        r == text_lt(a@, b@),
{
    let x = a.as_bytes();
    let y = b.as_bytes();
    let ghost xs = x@;
    let ghost ys = y@;
    let mut i: usize = 0;
    assert(xs.skip(0) =~= xs);
    assert(ys.skip(0) =~= ys);
    while i < x.len() && i < y.len()
        invariant
            xs == x@,
            ys == y@,
            xs == encode_utf8(a@),
            ys == encode_utf8(b@),
            i <= xs.len(),
            i <= ys.len(),
            bytes_lt(xs, ys) == bytes_lt(xs.skip(i as int), ys.skip(i as int)),
        decreases xs.len() - i,
    {
        assert(xs.skip(i as int)[0] == xs[i as int]);
        assert(ys.skip(i as int)[0] == ys[i as int]);
        if x[i] != y[i] {
            return x[i] < y[i];
        }
        assert(xs.skip(i as int).drop_first() =~= xs.skip(i + 1));
        assert(ys.skip(i as int).drop_first() =~= ys.skip(i + 1));
        i += 1;
    }
    i < y.len()
}

fn checked_result(value: Option<i64>) -> (r: Result<Value, DatabaseError>)
    ensures
        match value {
            Some(v) => r matches Ok(x) && x@ == SpecValue::Integer(v),
            None => r matches Err(e) && e@ == SpecDatabaseError::IntegerOverflow,
        },
{
    match value {
        Some(v) => Ok(Value::Integer(v)),
        None => Err(DatabaseError::IntegerOverflow),
    }
}

fn evaluate_unary(operator: UnaryOperator, value: Value) -> (r: Result<Value, DatabaseError>)
    ensures
        value_result(r) == spec_unary(operator, value@),
{
    match (operator, value) {
        (_, Value::Null) => Ok(Value::Null),
        (UnaryOperator::Not, Value::Boolean(b)) => Ok(Value::Boolean(b)),
        (UnaryOperator::Negate, Value::Integer(i)) => {
            if i == i64::MIN {
                Err(DatabaseError::IntegerOverflow)
            } else {
                Ok(Value::Integer(-i))
            }
        },
        (_, actual) => Err(DatabaseError::ExpectedBoolean { actual }),
    }
}

fn evaluate_binary(left: Value, operator: BinaryOperator, right: Value) -> (r: Result<
    Value,
    DatabaseError,
>)
    ensures
        value_result(r) == spec_binary(left@, operator, right@),
{
    let left_null = match &left {
        Value::Null => true,
        _ => false,
    };
    let right_null = match &right {
        Value::Null => true,
        _ => false,
    };
    if left_null || right_null {
        let left_false = match &left {
            Value::Boolean(b) => !*b,
            _ => false,
        };
        let right_false = match &right {
            Value::Boolean(b) => !*b,
            _ => false,
        };
        let left_true = match &left {
            Value::Boolean(b) => *b,
            _ => false,
        };
        let right_true = match &right {
            Value::Boolean(b) => *b,
            _ => false,
        };
        return if operator == BinaryOperator::And && (left_false || right_false) {
            Ok(Value::Boolean(false))
        } else if operator == BinaryOperator::Or && (left_true || right_true) {
            Ok(Value::Boolean(true))
        } else {
            Ok(Value::Null)
        };
    }
    match (operator, left, right) {
        (BinaryOperator::And, Value::Boolean(a), Value::Boolean(b)) => Ok(Value::Boolean(a && b)),
        (BinaryOperator::Or, Value::Boolean(a), Value::Boolean(b)) => Ok(Value::Boolean(a || b)),
        (BinaryOperator::Equal, a, b) => Ok(Value::Boolean(a.same_as(&b))),
        (BinaryOperator::NotEqual, a, b) => Ok(Value::Boolean(!a.same_as(&b))),
        (BinaryOperator::LessThan, Value::Integer(a), Value::Integer(b)) => Ok(Value::Boolean(a < b)),
        (BinaryOperator::LessThanOrEqual, Value::Integer(a), Value::Integer(b)) => Ok(
            Value::Boolean(a <= b),
        ),
        (BinaryOperator::GreaterThan, Value::Integer(a), Value::Integer(b)) => Ok(
            Value::Boolean(a > b),
        ),
        (BinaryOperator::GreaterThanOrEqual, Value::Integer(a), Value::Integer(b)) => Ok(
            Value::Boolean(a >= b),
        ),
        (BinaryOperator::LessThan, Value::Text(a), Value::Text(b)) => Ok(
            Value::Boolean(text_less(a.as_str(), b.as_str())),
        ),
        (BinaryOperator::LessThanOrEqual, Value::Text(a), Value::Text(b)) => Ok(
            Value::Boolean(!text_less(b.as_str(), a.as_str())),
        ),
        (BinaryOperator::GreaterThan, Value::Text(a), Value::Text(b)) => Ok(
            Value::Boolean(text_less(b.as_str(), a.as_str())),
        ),
        (BinaryOperator::GreaterThanOrEqual, Value::Text(a), Value::Text(b)) => Ok(
            Value::Boolean(!text_less(a.as_str(), b.as_str())),
        ),
        (BinaryOperator::LessThan, Value::Boolean(a), Value::Boolean(b)) => Ok(
            Value::Boolean(!a && b),
        ),
        (BinaryOperator::LessThanOrEqual, Value::Boolean(a), Value::Boolean(b)) => Ok(
            Value::Boolean(!a || b),
        ),
        (BinaryOperator::GreaterThan, Value::Boolean(a), Value::Boolean(b)) => Ok(
            Value::Boolean(a && !b),
        ),
        (BinaryOperator::GreaterThanOrEqual, Value::Boolean(a), Value::Boolean(b)) => Ok(
            Value::Boolean(a || !b),
        ),
        (BinaryOperator::Add, Value::Integer(a), Value::Integer(b)) => checked_result(
            a.checked_add(b),
        ),
        (BinaryOperator::Subtract, Value::Integer(a), Value::Integer(b)) => checked_result(
            a.checked_sub(b),
        ),
        (BinaryOperator::Multiply, Value::Integer(a), Value::Integer(b)) => checked_result(
            a.checked_mul(b),
        ),
        (BinaryOperator::Divide, Value::Integer(a), Value::Integer(b)) => {
            if b == 0 {
                Err(DatabaseError::DivisionByZero)
            } else {
                checked_result(a.checked_div(b))
            }
        },
        (_, actual, _) => Err(DatabaseError::ExpectedBoolean { actual }),
    }
}

impl BoundExpression {
    /// Evaluates the expression against one row.
    pub fn evaluate(&self, row: &Row) -> (r: Result<Value, DatabaseError>)
        ensures
            value_result(r) == spec_eval(self@, row@),
        decreases self,
    {
        match self {
            BoundExpression::Literal(value) => Ok(value.clone()),
            BoundExpression::Column { column_index, .. } => match row.get(*column_index) {
                Some(value) => Ok(value.clone()),
                None => Err(
                    DatabaseError::InvalidColumnIndex { index: *column_index, row_len: row.len() },
                ),
            },
            BoundExpression::Unary { operator, expression, .. } => {
                let value = expression.evaluate(row)?;
                evaluate_unary(*operator, value)
            },
            BoundExpression::Binary { left, operator, right, .. } => {
                let left = left.evaluate(row)?;
                // The right operand is not evaluated when the left one decides the
                // result, so `false AND 1 / 0` is false rather than an error.
                let decided = match &left {
                    Value::Boolean(b) => (*operator == BinaryOperator::And && !*b) || (*operator
                        == BinaryOperator::Or && *b),
                    _ => false,
                };
                if decided {
                    return Ok(left);
                }
                let right = right.evaluate(row)?;
                evaluate_binary(left, *operator, right)
            },
        }
    }
}

/// Whether `row` passes `filter`: only rows for which it is true pass.
pub fn matches_filter(filter: Option<&BoundExpression>, row: &Row) -> (r: Result<bool, DatabaseError>)
    ensures
        bool_result(r) == spec_matches(
            match filter {
                Some(f) => Some(f@),
                None => None,
            },
            row@,
        ),
{
    match filter {
        None => Ok(true),
        Some(filter) => match filter.evaluate(row)? {
            Value::Boolean(value) => Ok(value),
            Value::Null => Ok(false),
            actual => Err(DatabaseError::ExpectedBoolean { actual }),
        },
    }
}


/// The rows an executor still produces, and the error that ends its output.
pub struct Stream {
    pub rows: Seq<Seq<SpecValue>>,
    pub error: Option<SpecDatabaseError>,
}

/// One call of `next` took the first row of `before`, reported the end (and
/// stays there), or reported the error that ends the rows.
pub open spec fn next_step(before: Stream, r: Result<Option<Row>, DatabaseError>, after: Stream) -> bool {
    match r {
        Ok(Some(row)) => before.rows.len() > 0 && row@ == before.rows[0] && after == (Stream {
            rows: before.rows.drop_first(),
            error: before.error,
        }),
        Ok(None) => before.rows.len() == 0 && before.error is None && after == before,
        Err(e) => before.rows.len() == 0 && before.error == Some(e@),
    }
}

/// A pull-based producer of rows.
pub trait Executor {
    /// Whether what the executor produces is settled. An executor of a
    /// statement that changes the database runs it on the first call of
    /// `next`, which settles the output unless it fails.
    spec fn started(&self) -> bool;

    /// What a settled executor still produces.
    spec fn upcoming(&self) -> Stream;

    /// The next row, `None` at the end, or the error that stops the output.
    fn next(&mut self) -> (r: Result<Option<Row>, DatabaseError>)
        ensures
            old(self).started() ==> final(self).started() && next_step(
                old(self).upcoming(),
                r,
                final(self).upcoming(),
            ),
            r is Ok ==> final(self).started(),
    ;
}

/// Produces the rows it was given, in order.
pub struct TableScanExecutor {
    rows: Vec<Row>,
    position: usize,
}


impl TableScanExecutor {
    pub fn new(rows: Vec<Row>) -> (r: Self)
        ensures
            r.upcoming() == (Stream { rows: rows_view(rows@), error: None }),
    {
        let r = TableScanExecutor { rows, position: 0 };
        assert(rows_view(r.rows@).skip(0) =~= rows_view(r.rows@));
        r
    }

    /// A scan over every row of the table called `table`.
    pub fn from_table(database: &Database, table: &str) -> (r: Result<Self, DatabaseError>)
        requires
            database.wf(),
        ensures
            match spec_select_all(database.catalog(), database.pages(), table@) {
                Ok(rows) => r matches Ok(x) && x.upcoming() == (Stream { rows, error: None }),
                Err(s) => r matches Err(e) && same_db_error(e@, SpecDatabaseError::Storage(s)),
            },
    {
        match database.select_all(table) {
            Ok(rows) => Ok(TableScanExecutor::new(rows)),
            Err(e) => Err(DatabaseError::Storage(e)),
        }
    }
}

impl Executor for TableScanExecutor {
    open spec fn started(&self) -> bool {
        true
    }

    closed spec fn upcoming(&self) -> Stream {
        Stream {
            rows: if self.position <= self.rows@.len() {
                rows_view(self.rows@).skip(self.position as int)
            } else {
                Seq::empty()
            },
            error: None,
        }
    }

    fn next(&mut self) -> (r: Result<Option<Row>, DatabaseError>) {
        if self.position >= self.rows.len() {
            return Ok(None);
        }
        let row = self.rows[self.position].clone();
        let ghost before = rows_view(self.rows@).skip(self.position as int);
        self.position = self.position + 1;
        assert(before.drop_first() =~= rows_view(self.rows@).skip(self.position as int));
        Ok(Some(row))
    }
}

/// Evaluating a well-typed expression on a row that its table accepts fails
/// only on division by zero or overflow, and otherwise gives NULL or a value
/// of the expression's type.
pub proof fn lemma_eval_type_safe(e: SpecBound, cols: Seq<SpecColumn>, table: Seq<char>, row: Seq<SpecValue>)
    requires
        well_typed(e, cols),
        check_row(table, cols, row) is None,
    ensures
        match spec_eval(e, row) {
            Ok(v) => v is Null || spec_data_type(v) == bound_type(e),
            Err(err) => err is DivisionByZero || err is IntegerOverflow,
        },
    decreases e,
{
    crate::storage::schema::lemma_valid_row_types(table, cols, row);
    match e {
        SpecBound::Column { column_index, .. } => {
            assert(spec_data_type(row[column_index as int]) is None || spec_data_type(row[column_index as int])
                == Some(cols[column_index as int].data_type));
        },
        SpecBound::Unary { expression, .. } => {
            lemma_eval_type_safe(*expression, cols, table, row);
        },
        SpecBound::Binary { left, right, .. } => {
            lemma_eval_type_safe(*left, cols, table, row);
            lemma_eval_type_safe(*right, cols, table, row);
        },
        _ => {},
    }
}

/// AND and OR do not look at their right side once the left decides: when
/// the left side is false, `left AND right` is false, and when it is true,
/// `left OR right` is true, whatever the right side is, even one whose
/// evaluation fails.
pub proof fn lemma_short_circuit(
    left: SpecBound,
    right1: SpecBound,
    right2: SpecBound,
    t: DataType,
    row: Seq<SpecValue>,
)
    ensures
        spec_eval(left, row) == Ok::<SpecValue, SpecDatabaseError>(SpecValue::Boolean(false)) ==> {
            &&& spec_eval(
                SpecBound::Binary { left: Box::new(left), operator: BinaryOperator::And, right: Box::new(right1), data_type: t },
                row,
            ) == Ok::<SpecValue, SpecDatabaseError>(SpecValue::Boolean(false))
            &&& spec_eval(
                SpecBound::Binary { left: Box::new(left), operator: BinaryOperator::And, right: Box::new(right2), data_type: t },
                row,
            ) == Ok::<SpecValue, SpecDatabaseError>(SpecValue::Boolean(false))
        },
        spec_eval(left, row) == Ok::<SpecValue, SpecDatabaseError>(SpecValue::Boolean(true)) ==> {
            &&& spec_eval(
                SpecBound::Binary { left: Box::new(left), operator: BinaryOperator::Or, right: Box::new(right1), data_type: t },
                row,
            ) == Ok::<SpecValue, SpecDatabaseError>(SpecValue::Boolean(true))
            &&& spec_eval(
                SpecBound::Binary { left: Box::new(left), operator: BinaryOperator::Or, right: Box::new(right2), data_type: t },
                row,
            ) == Ok::<SpecValue, SpecDatabaseError>(SpecValue::Boolean(true))
        },
{
}

/// The stream left after `n` calls of `next` on a stream of `rows` that ends
/// without an error.
proof fn lemma_drain_state(
    rows: Seq<Seq<SpecValue>>,
    states: Seq<Stream>,
    results: Seq<Result<Option<Row>, DatabaseError>>,
    n: int,
)
    requires
        states.len() == results.len() + 1,
        states[0] == (Stream { rows, error: None }),
        forall|i: int| 0 <= i < results.len() ==> next_step(#[trigger] states[i], results[i], states[i + 1]),
        0 <= n <= results.len(),
    ensures
        states[n] == (Stream {
            rows: if n <= rows.len() { rows.skip(n) } else { Seq::empty() },
            error: None,
        }),
    decreases n,
{
    if n == 0 {
        assert(rows.skip(0) =~= rows);
    } else {
        lemma_drain_state(rows, states, results, n - 1);
        let before = states[n - 1];
        let after = states[n];
        assert(next_step(before, results[n - 1], after));
        if n - 1 < rows.len() {
            assert(rows.skip(n - 1).drop_first() =~= rows.skip(n));
            assert(before.rows.len() > 0);
        } else {
            if n - 1 == rows.len() {
                assert(rows.skip(n - 1) =~= Seq::<Seq<SpecValue>>::empty());
            }
            assert(before.rows.len() == 0);
            assert(results[n - 1] matches Ok(None));
        }
    }
}

/// Draining a stream of `rows` that ends without an error, such as a new
/// `TableScanExecutor`: over any number of calls of `next`, call `i` gives row
/// `i` while rows remain and `None` on every call after the last row, and no
/// call fails.
pub proof fn lemma_drain(
    rows: Seq<Seq<SpecValue>>,
    states: Seq<Stream>,
    results: Seq<Result<Option<Row>, DatabaseError>>,
)
    requires
        states.len() == results.len() + 1,
        states[0] == (Stream { rows, error: None }),
        forall|i: int| 0 <= i < results.len() ==> next_step(#[trigger] states[i], results[i], states[i + 1]),
    ensures
        forall|i: int|
            0 <= i < results.len() ==> match #[trigger] results[i] {
                Ok(Some(row)) => i < rows.len() && row@ == rows[i],
                Ok(None) => i >= rows.len(),
                Err(_) => false,
            },
{
    assert forall|i: int|
        0 <= i < results.len() implies match #[trigger] results[i] {
            Ok(Some(row)) => i < rows.len() && row@ == rows[i],
            Ok(None) => i >= rows.len(),
            Err(_) => false,
        } by {
        lemma_drain_state(rows, states, results, i);
        assert(next_step(states[i], results[i], states[i + 1]));
    }
}

/// The rows of `s` that pass `filter`, stopping at the first evaluation error.
pub open spec fn stream_filter(s: Stream, filter: SpecBound) -> Stream
    decreases s.rows.len(),
{
    if s.rows.len() == 0 {
        s
    } else {
        let rest = stream_filter(Stream { rows: s.rows.drop_first(), error: s.error }, filter);
        match spec_matches(Some(filter), s.rows[0]) {
            Ok(true) => Stream { rows: seq![s.rows[0]] + rest.rows, error: rest.error },
            Ok(false) => rest,
            Err(e) => Stream { rows: Seq::empty(), error: Some(e) },
        }
    }
}

/// Passes on the rows of its child for which the predicate is true.
pub struct FilterExecutor<C: Executor> {
    child: C,
    predicate: BoundExpression,
}

impl<C: Executor> FilterExecutor<C> {
    pub fn new(child: C, predicate: BoundExpression) -> (r: Self)
        ensures
            r.started() == child.started(),
            r.upcoming() == stream_filter(child.upcoming(), predicate@),
    {
        FilterExecutor { child, predicate }
    }
}

impl<C: Executor> Executor for FilterExecutor<C> {
    closed spec fn started(&self) -> bool {
        self.child.started()
    }

    closed spec fn upcoming(&self) -> Stream {
        stream_filter(self.child.upcoming(), self.predicate@)
    }

    fn next(&mut self) -> (r: Result<Option<Row>, DatabaseError>) {
        loop
            invariant
                old(self).child.started() ==> self.child.started() && stream_filter(
                    self.child.upcoming(),
                    self.predicate@,
                ) == stream_filter(old(self).child.upcoming(), old(self).predicate@),
                self.predicate@ == old(self).predicate@,
            decreases (if self.child.started() { 0int } else { 1int }), self.child.upcoming().rows.len(),
        {
            let ghost before = self.child.upcoming();
            let row = match self.child.next() {
                Ok(Some(row)) => row,
                Ok(None) => {
                    return Ok(None);
                },
                Err(e) => {
                    return Err(e);
                },
            };
            let keep = matches_filter(Some(&self.predicate), &row)?;
            if keep {
                assert((seq![row@] + stream_filter(self.child.upcoming(), self.predicate@).rows).drop_first()
                    =~= stream_filter(self.child.upcoming(), self.predicate@).rows);
                return Ok(Some(row));
            }
        }
    }
}

/// The values of the expressions on a row, left to right, or the first error.
pub open spec fn spec_eval_all(es: Seq<SpecBound>, row: Seq<SpecValue>) -> Result<
    Seq<SpecValue>,
    SpecDatabaseError,
>
    decreases es.len(),
{
    if es.len() == 0 {
        Ok(Seq::empty())
    } else {
        match spec_eval_all(es.drop_last(), row) {
            Err(e) => Err(e),
            Ok(vs) => match spec_eval(es.last(), row) {
                Ok(v) => Ok(vs.push(v)),
                Err(e) => Err(e),
            },
        }
    }
}

/// An error among the first expressions is the error of all of them.
proof fn lemma_eval_all_error(es: Seq<SpecBound>, row: Seq<SpecValue>, k: int)
    requires
        0 <= k <= es.len(),
        spec_eval_all(es.take(k), row) is Err,
    ensures
        spec_eval_all(es, row) == spec_eval_all(es.take(k), row),
    decreases es.len(),
{
    if k < es.len() {
        assert(es.drop_last().take(k) =~= es.take(k));
        lemma_eval_all_error(es.drop_last(), row, k);
    } else {
        assert(es.take(k) =~= es);
    }
}


/// The rows of `s` with the expressions evaluated on each, stopping at the
/// first evaluation error.
pub open spec fn stream_project(s: Stream, es: Seq<SpecBound>) -> Stream
    decreases s.rows.len(),
{
    if s.rows.len() == 0 {
        s
    } else {
        let rest = stream_project(Stream { rows: s.rows.drop_first(), error: s.error }, es);
        match spec_eval_all(es, s.rows[0]) {
            Ok(vs) => Stream { rows: seq![vs] + rest.rows, error: rest.error },
            Err(e) => Stream { rows: Seq::empty(), error: Some(e) },
        }
    }
}

/// Evaluates the expressions on `row`, left to right.
pub fn evaluate_all(es: &Vec<BoundExpression>, row: &Row) -> (r: Result<Vec<Value>, DatabaseError>)
    ensures
        match r {
            Ok(vs) => spec_eval_all(bounds_view(es@), row@) == Ok::<Seq<SpecValue>, SpecDatabaseError>(
                crate::row::values_view(vs@),
            ),
            Err(e) => spec_eval_all(bounds_view(es@), row@) == Err::<Seq<SpecValue>, SpecDatabaseError>(
                e@,
            ),
        },
{
    let ghost bs = bounds_view(es@);
    let mut values: Vec<Value> = Vec::new();
    let mut i: usize = 0;
    assert(bs.take(0) =~= Seq::<SpecBound>::empty());
    assert(crate::row::values_view(values@) =~= Seq::<SpecValue>::empty());
    while i < es.len()
        invariant
            bs == bounds_view(es@),
            i <= es@.len(),
            spec_eval_all(bs.take(i as int), row@) == Ok::<Seq<SpecValue>, SpecDatabaseError>(
                crate::row::values_view(values@),
            ),
        decreases es@.len() - i,
    {
        assert(bs.take(i + 1).drop_last() =~= bs.take(i as int));
        assert(bs.take(i + 1).last() == es@[i as int]@);
        match es[i].evaluate(row) {
            Ok(v) => {
                let ghost before = crate::row::values_view(values@);
                let ghost vv = v@;
                values.push(v);
                assert(crate::row::values_view(values@) =~= before.push(vv));
            },
            Err(e) => {
                proof {
                    lemma_eval_all_error(bs, row@, i + 1);
                }
                return Err(e);
            },
        }
        i += 1;
    }
    assert(bs.take(es@.len() as int) =~= bs);
    Ok(values)
}

/// Evaluates the projection expressions on every row of its child.
pub struct ProjectionExecutor<C: Executor> {
    child: C,
    projections: Vec<BoundExpression>,
}

impl<C: Executor> ProjectionExecutor<C> {
    pub fn new(child: C, projections: Vec<BoundExpression>) -> (r: Self)
        ensures
            r.started() == child.started(),
            r.upcoming() == stream_project(child.upcoming(), bounds_view(projections@)),
    {
        ProjectionExecutor { child, projections }
    }
}

impl<C: Executor> Executor for ProjectionExecutor<C> {
    closed spec fn started(&self) -> bool {
        self.child.started()
    }

    closed spec fn upcoming(&self) -> Stream {
        stream_project(self.child.upcoming(), bounds_view(self.projections@))
    }

    fn next(&mut self) -> (r: Result<Option<Row>, DatabaseError>) {
        let row = match self.child.next() {
            Ok(Some(row)) => row,
            Ok(None) => {
                return Ok(None);
            },
            Err(e) => {
                return Err(e);
            },
        };
        let values = evaluate_all(&self.projections, &row)?;
        let out = Row::new(values);
        assert((seq![out@] + stream_project(self.child.upcoming(), bounds_view(self.projections@)).rows).drop_first()
            =~= stream_project(self.child.upcoming(), bounds_view(self.projections@)).rows);
        Ok(Some(out))
    }
}

/// Two statement errors that agree, where a storage error of corruption,
/// encoding or I/O may carry any message.
pub open spec fn same_db_error(e: SpecDatabaseError, s: SpecDatabaseError) -> bool {
    match (e, s) {
        (SpecDatabaseError::Storage(a), SpecDatabaseError::Storage(b)) => same_error(a, b),
        _ => e == s,
    }
}

/// The output `out` of a statement that gave `res`: its rows, or no rows
/// and its error.
pub open spec fn stream_is(out: Stream, res: Result<Seq<Seq<SpecValue>>, SpecDatabaseError>) -> bool {
    match res {
        Ok(rows) => out == (Stream { rows, error: None }),
        Err(e) => out.rows.len() == 0 && (out.error matches Some(x) && same_db_error(x, e)),
    }
}

/// The columns a CREATE TABLE makes: every one of them NOT NULL.
pub open spec fn created_columns(cs: Seq<SpecColumnDefinition>) -> Seq<SpecColumn> {
    cs.map_values(
        |c: SpecColumnDefinition|
            SpecColumn { name: c.name, data_type: c.data_type, nullable: false, identity: false },
    )
}

/// Applies the assignments to `updated` left to right, each value computed
/// on the row as it was before the update.
pub open spec fn assign_all(updated: Seq<SpecValue>, original: Seq<SpecValue>, asg: Seq<SpecBoundAssignment>) -> Result<
    Seq<SpecValue>,
    SpecDatabaseError,
>
    decreases asg.len(),
{
    if asg.len() == 0 {
        Ok(updated)
    } else {
        match assign_all(updated, original, asg.drop_last()) {
            Err(e) => Err(e),
            Ok(u) => {
                let a = asg.last();
                if a.column_index >= u.len() {
                    Err(SpecDatabaseError::InvalidColumnIndex { index: a.column_index, row_len: u.len() as usize })
                } else {
                    match spec_eval(a.value, original) {
                        Err(e) => Err(e),
                        Ok(v) => Ok(u.update(a.column_index as int, v)),
                    }
                }
            },
        }
    }
}

/// An UPDATE over `rows`, in order: all rows afterwards, and the changed
/// ones. Every changed row must still fit table `t`.
pub open spec fn update_rows(
    rows: Seq<Seq<SpecValue>>,
    filter: Option<SpecBound>,
    asg: Seq<SpecBoundAssignment>,
    t: SpecTable,
) -> Result<(Seq<Seq<SpecValue>>, Seq<Seq<SpecValue>>), SpecDatabaseError>
    decreases rows.len(),
{
    if rows.len() == 0 {
        Ok((Seq::empty(), Seq::empty()))
    } else {
        match update_rows(rows.drop_last(), filter, asg, t) {
            Err(e) => Err(e),
            Ok((all, changed)) => {
                let row = rows.last();
                match spec_matches(filter, row) {
                    Err(e) => Err(e),
                    Ok(false) => Ok((all.push(row), changed)),
                    Ok(true) => match assign_all(row, row, asg) {
                        Err(e) => Err(e),
                        Ok(u) => match check_row(t.name, t.columns, u) {
                            Some(e) => Err(SpecDatabaseError::Storage(e)),
                            None => Ok((all.push(u), changed.push(u))),
                        },
                    },
                }
            },
        }
    }
}

/// A DELETE over `rows`, in order: the rows kept, and the rows removed.
pub open spec fn delete_rows(rows: Seq<Seq<SpecValue>>, filter: Option<SpecBound>) -> Result<
    (Seq<Seq<SpecValue>>, Seq<Seq<SpecValue>>),
    SpecDatabaseError,
>
    decreases rows.len(),
{
    if rows.len() == 0 {
        Ok((Seq::empty(), Seq::empty()))
    } else {
        match delete_rows(rows.drop_last(), filter) {
            Err(e) => Err(e),
            Ok((kept, deleted)) => match spec_matches(filter, rows.last()) {
                Err(e) => Err(e),
                Ok(true) => Ok((kept, deleted.push(rows.last()))),
                Ok(false) => Ok((kept.push(rows.last()), deleted)),
            },
        }
    }
}


/// Creating the table gave `cr`, and the output tells of it.
pub open spec fn create_step(
    cat: Seq<SpecTable>,
    pages: Seq<Seq<u8>>,
    table: Seq<char>,
    cols: Seq<SpecColumn>,
    cat2: Seq<SpecTable>,
    pages2: Seq<Seq<u8>>,
    cr: Result<(), DbError>,
    out: Stream,
) -> bool {
    created(cat, pages, table, cols, cat2, pages2, cr) && match cr {
        Ok(_) => stream_is(out, Ok(Seq::empty())),
        Err(e) => stream_is(out, Err(SpecDatabaseError::Storage(e@))),
    }
}

/// What a CREATE TABLE does, with the output `out`.
pub open spec fn create_outcome(
    cat: Seq<SpecTable>,
    pages: Seq<Seq<u8>>,
    table: Seq<char>,
    columns: Seq<SpecColumnDefinition>,
    cat2: Seq<SpecTable>,
    pages2: Seq<Seq<u8>>,
    out: Stream,
) -> bool {
    let cols = created_columns(columns);
    if !names_distinct(cols) {
        &&& out.rows.len() == 0
        &&& out.error matches Some(SpecDatabaseError::Storage(e)) && is_duplicate_error(cols, e)
        &&& cat2 == cat
        &&& pages2 == pages
    } else {
        exists|cr: Result<(), DbError>| #[trigger] create_step(cat, pages, table, cols, cat2, pages2, cr, out)
    }
}

/// What an INSERT does, with the output `out`.
pub open spec fn insert_outcome(
    cat: Seq<SpecTable>,
    pages: Seq<Seq<u8>>,
    table: Seq<char>,
    values: Seq<SpecBound>,
    cat2: Seq<SpecTable>,
    pages2: Seq<Seq<u8>>,
    out: Stream,
) -> bool {
    match spec_eval_all(values, Seq::empty()) {
        Err(e) => stream_is(out, Err(e)) && cat2 == cat && pages2 == pages,
        Ok(vs) => insert_stored(cat, pages, table, vs, cat2, pages2, out),
    }
}

/// Storing the row `vs` gave some result, and the output tells of it.
pub open spec fn insert_stored(
    cat: Seq<SpecTable>,
    pages: Seq<Seq<u8>>,
    table: Seq<char>,
    vs: Seq<SpecValue>,
    cat2: Seq<SpecTable>,
    pages2: Seq<Seq<u8>>,
    out: Stream,
) -> bool {
    exists|ir: Result<RecordId, DbError>| #[trigger] insert_step(cat, pages, table, vs, cat2, pages2, ir, out)
}

/// Storing the row `vs` gave `ir`, and the output tells of it.
pub open spec fn insert_step(
    cat: Seq<SpecTable>,
    pages: Seq<Seq<u8>>,
    table: Seq<char>,
    vs: Seq<SpecValue>,
    cat2: Seq<SpecTable>,
    pages2: Seq<Seq<u8>>,
    ir: Result<RecordId, DbError>,
    out: Stream,
) -> bool {
    inserted(cat, pages, table, vs, cat2, pages2, ir) && match ir {
        Ok(_) => stream_is(out, Ok(seq![vs])),
        Err(e) => stream_is(out, Err(SpecDatabaseError::Storage(e@))),
    }
}

/// What a SELECT gives, with the output `out`; nothing changes.
pub open spec fn select_outcome(
    cat: Seq<SpecTable>,
    pages: Seq<Seq<u8>>,
    table: Seq<char>,
    projections: Seq<SpecBound>,
    filter: Option<SpecBound>,
    out: Stream,
) -> bool {
    match spec_select_all(cat, pages, table) {
        Err(e) => stream_is(out, Err(SpecDatabaseError::Storage(e))),
        Ok(rows) => {
            let scan = Stream { rows, error: None };
            let source = match filter {
                Some(f) => stream_filter(scan, f),
                None => scan,
            };
            out == stream_project(source, projections)
        },
    }
}


/// Replacing the rows of `table` by `rows` gave `rr`; the output is `shown`,
/// or the error.
pub open spec fn replace_step(
    cat: Seq<SpecTable>,
    pages: Seq<Seq<u8>>,
    table: Seq<char>,
    rows: Seq<Seq<SpecValue>>,
    cat2: Seq<SpecTable>,
    pages2: Seq<Seq<u8>>,
    rr: Result<(), DbError>,
    shown: Seq<Seq<SpecValue>>,
    out: Stream,
) -> bool {
    replaced(cat, pages, table, rows, cat2, pages2, rr) && match rr {
        Ok(_) => stream_is(out, Ok(shown)),
        Err(e) => stream_is(out, Err(SpecDatabaseError::Storage(e@))),
    }
}

/// The rows of `table` were replaced by `rows`, with some result.
pub open spec fn rows_stored(
    cat: Seq<SpecTable>,
    pages: Seq<Seq<u8>>,
    table: Seq<char>,
    rows: Seq<Seq<SpecValue>>,
    cat2: Seq<SpecTable>,
    pages2: Seq<Seq<u8>>,
    shown: Seq<Seq<SpecValue>>,
    out: Stream,
) -> bool {
    exists|rr: Result<(), DbError>| #[trigger] replace_step(cat, pages, table, rows, cat2, pages2, rr, shown, out)
}

/// What an UPDATE does, with the output `out`: the changed rows.
pub open spec fn update_outcome(
    cat: Seq<SpecTable>,
    pages: Seq<Seq<u8>>,
    table: Seq<char>,
    assignments: Seq<SpecBoundAssignment>,
    filter: Option<SpecBound>,
    cat2: Seq<SpecTable>,
    pages2: Seq<Seq<u8>>,
    out: Stream,
) -> bool {
    match spec_select_all(cat, pages, table) {
        Err(e) => stream_is(out, Err(SpecDatabaseError::Storage(e))) && cat2 == cat && pages2 == pages,
        Ok(rows) => match update_rows(rows, filter, assignments, cat[find_table(cat, table)->0]) {
            Err(e) => stream_is(out, Err(e)) && cat2 == cat && pages2 == pages,
            Ok((all, changed)) => if changed.len() == 0 {
                stream_is(out, Ok(changed)) && cat2 == cat && pages2 == pages
            } else {
                rows_stored(cat, pages, table, all, cat2, pages2, changed, out)
            },
        },
    }
}

/// What a DELETE does, with the output `out`: the removed rows.
pub open spec fn delete_outcome(
    cat: Seq<SpecTable>,
    pages: Seq<Seq<u8>>,
    table: Seq<char>,
    filter: Option<SpecBound>,
    cat2: Seq<SpecTable>,
    pages2: Seq<Seq<u8>>,
    out: Stream,
) -> bool {
    match spec_select_all(cat, pages, table) {
        Err(e) => stream_is(out, Err(SpecDatabaseError::Storage(e))) && cat2 == cat && pages2 == pages,
        Ok(rows) => match delete_rows(rows, filter) {
            Err(e) => stream_is(out, Err(e)) && cat2 == cat && pages2 == pages,
            Ok((kept, deleted)) => if deleted.len() == 0 {
                stream_is(out, Ok(deleted)) && cat2 == cat && pages2 == pages
            } else {
                rows_stored(cat, pages, table, kept, cat2, pages2, deleted, out)
            },
        },
    }
}

/// What running the bound statement `b` does: from the catalog `cat` and
/// pages `pages` to `cat2` and `pages2`, with the output `out`.
pub open spec fn statement_outcome(
    cat: Seq<SpecTable>,
    pages: Seq<Seq<u8>>,
    b: SpecBoundStatement,
    cat2: Seq<SpecTable>,
    pages2: Seq<Seq<u8>>,
    out: Stream,
) -> bool {
    match b {
        SpecBoundStatement::CreateTable { table, columns } => create_outcome(cat, pages, table, columns, cat2, pages2, out),
        SpecBoundStatement::Insert { table, values } => insert_outcome(cat, pages, table, values, cat2, pages2, out),
        SpecBoundStatement::Select { table, projections, filter } => cat2 == cat && pages2 == pages
            && select_outcome(cat, pages, table, projections, filter, out),
        SpecBoundStatement::Update { table, assignments, filter } => update_outcome(
            cat,
            pages,
            table,
            assignments,
            filter,
            cat2,
            pages2,
            out,
        ),
        SpecBoundStatement::Delete { table, filter } => delete_outcome(cat, pages, table, filter, cat2, pages2, out),
    }
}


/// The rows a statement produced, handed out one at a time, then its error.
struct Output {
    rows: Vec<Row>,
    position: usize,
    error: Option<DatabaseError>,
}

impl Output {
    spec fn stream(&self) -> Stream {
        Stream {
            rows: if self.position <= self.rows@.len() {
                rows_view(self.rows@).skip(self.position as int)
            } else {
                Seq::empty()
            },
            error: match self.error {
                Some(e) => Some(e@),
                None => None,
            },
        }
    }

    fn rows(rows: Vec<Row>) -> (r: Self)
        ensures
            r.stream() == (Stream { rows: rows_view(rows@), error: None }),
    {
        let r = Output { rows, position: 0, error: None };
        assert(rows_view(r.rows@).skip(0) =~= rows_view(r.rows@));
        r
    }

    fn failed(e: DatabaseError) -> (r: Self)
        ensures
            r.stream() == (Stream { rows: Seq::empty(), error: Some(e@) }),
    {
        let r = Output { rows: Vec::new(), position: 0, error: Some(e) };
        assert(rows_view(r.rows@).skip(0) =~= Seq::<Seq<SpecValue>>::empty());
        r
    }

    /// Whether the output is an error and nothing before it.
    fn is_failure(&self) -> (b: bool)
        ensures
            b == (self.stream().rows.len() == 0 && self.stream().error is Some),
    {
        self.position >= self.rows.len() && self.error.is_some()
    }

    fn next(&mut self) -> (r: Result<Option<Row>, DatabaseError>)
        ensures
            next_step(old(self).stream(), r, final(self).stream()),
    {
        if self.position < self.rows.len() {
            let row = self.rows[self.position].clone();
            let ghost before = rows_view(self.rows@).skip(self.position as int);
            self.position = self.position + 1;
            assert(before.drop_first() =~= rows_view(self.rows@).skip(self.position as int));
            return Ok(Some(row));
        }
        let mut error: Option<DatabaseError> = None;
        std::mem::swap(&mut error, &mut self.error);
        match error {
            Some(e) => Err(e),
            None => Ok(None),
        }
    }
}


proof fn lemma_insert_outcome_eval_error(
    cat: Seq<SpecTable>,
    pages: Seq<Seq<u8>>,
    table: Seq<char>,
    values: Seq<SpecBound>,
    out: Stream,
    e: SpecDatabaseError,
)
    requires
        spec_eval_all(values, Seq::empty()) == Err::<Seq<SpecValue>, SpecDatabaseError>(e),
        out == (Stream { rows: Seq::empty(), error: Some(e) }),
    ensures
        insert_outcome(cat, pages, table, values, cat, pages, out),
{
}

proof fn lemma_insert_outcome(
    cat: Seq<SpecTable>,
    pages: Seq<Seq<u8>>,
    table: Seq<char>,
    values: Seq<SpecBound>,
    cat2: Seq<SpecTable>,
    pages2: Seq<Seq<u8>>,
    out: Stream,
    vs: Seq<SpecValue>,
    ir: Result<RecordId, DbError>,
)
    requires
        spec_eval_all(values, Seq::empty()) == Ok::<Seq<SpecValue>, SpecDatabaseError>(vs),
        inserted(cat, pages, table, vs, cat2, pages2, ir),
        match ir {
            Ok(_) => out == (Stream { rows: seq![vs], error: None }),
            Err(e) => out == (Stream { rows: Seq::empty(), error: Some(SpecDatabaseError::Storage(e@)) }),
        },
    ensures
        insert_outcome(cat, pages, table, values, cat2, pages2, out),
{
    assert(insert_step(cat, pages, table, vs, cat2, pages2, ir, out));
    assert(insert_stored(cat, pages, table, vs, cat2, pages2, out));
}

/// Evaluates the values and stores them as a row of the table; the output is
/// that row.
fn run_insert(database: &mut Database, statement: &BoundInsertStatement) -> (out: Output)
    requires
        old(database).wf(),
    ensures
        final(database).wf(),
        insert_outcome(
            old(database).catalog(),
            old(database).pages(),
            statement.table@,
            bounds_view(statement.values@),
            final(database).catalog(),
            final(database).pages(),
            out.stream(),
        ),
{
    let ghost cat = database.catalog();
    let ghost pages = database.pages();
    let empty = Row::new(Vec::new());
    assert(empty@ =~= Seq::<SpecValue>::empty());
    let values = match evaluate_all(&statement.values, &empty) {
        Ok(v) => v,
        Err(e) => {
            let r = Output::failed(e);
            proof {
                lemma_insert_outcome_eval_error(cat, pages, statement.table@, bounds_view(statement.values@), r.stream(), e@);
            }
            return r;
        },
    };
    let row = Row::new(values);
    let copy = row.clone();
    let ghost vs = row@;
    let done = database.insert_row(statement.table.as_str(), row);
    let ghost outcome = done;
    let r = match done {
        Ok(_) => {
            let mut rows: Vec<Row> = Vec::new();
            rows.push(copy);
            assert(rows_view(rows@) =~= seq![vs]);
            Output::rows(rows)
        },
        Err(e) => Output::failed(DatabaseError::Storage(e)),
    };
    proof {
        lemma_insert_outcome(
            cat,
            pages,
            statement.table@,
            bounds_view(statement.values@),
            database.catalog(),
            database.pages(),
            r.stream(),
            vs,
            outcome,
        );
    }
    r
}

/// Creates the table, every column NOT NULL; the output has no rows.
fn run_create(database: &mut Database, statement: &CreateTableStatement) -> (out: Output)
    requires
        old(database).wf(),
    ensures
        final(database).wf(),
        create_outcome(
            old(database).catalog(),
            old(database).pages(),
            statement.table@,
            crate::sql::ast::columns_view(statement.columns@),
            final(database).catalog(),
            final(database).pages(),
            out.stream(),
        ),
{
    let ghost defs = crate::sql::ast::columns_view(statement.columns@);
    let mut columns: Vec<Column> = Vec::new();
    let mut k: usize = 0;
    while k < statement.columns.len()
        invariant
            k <= statement.columns@.len(),
            defs == crate::sql::ast::columns_view(statement.columns@),
            crate::storage::schema::columns_view(columns@) == created_columns(defs).take(k as int),
        decreases statement.columns@.len() - k,
    {
        let c = Column::required(statement.columns[k].name.as_str(), statement.columns[k].data_type);
        let ghost before = crate::storage::schema::columns_view(columns@);
        let ghost cv = c@;
        columns.push(c);
        assert(crate::storage::schema::columns_view(columns@) =~= before.push(cv));
        assert(created_columns(defs).take(k + 1) =~= created_columns(defs).take(k as int).push(
            created_columns(defs)[k as int],
        ));
        k += 1;
    }
    assert(created_columns(defs).take(statement.columns@.len() as int) =~= created_columns(defs));
    let schema = match Schema::new(columns) {
        Ok(s) => s,
        Err(e) => {
            return Output::failed(DatabaseError::Storage(e));
        },
    };
    let done = database.create_table(statement.table.as_str(), schema);
    assert(created(
        old(database).catalog(),
        old(database).pages(),
        statement.table@,
        created_columns(defs),
        database.catalog(),
        database.pages(),
        done,
    ));
    let ghost outcome = done;
    let r = match done {
        Ok(()) => {
            let rows: Vec<Row> = Vec::new();
            assert(rows_view(rows@) =~= Seq::<Seq<SpecValue>>::empty());
            Output::rows(rows)
        },
        Err(e) => Output::failed(DatabaseError::Storage(e)),
    };
    assert(create_step(
        old(database).catalog(),
        old(database).pages(),
        statement.table@,
        created_columns(defs),
        database.catalog(),
        database.pages(),
        outcome,
        r.stream(),
    ));
    r
}

/// An UPDATE fails as soon as a prefix of the rows fails.
proof fn lemma_update_rows_prefix(
    rows: Seq<Seq<SpecValue>>,
    filter: Option<SpecBound>,
    asg: Seq<SpecBoundAssignment>,
    t: SpecTable,
    n: int,
)
    requires
        0 <= n <= rows.len(),
        update_rows(rows.take(n), filter, asg, t) is Err,
    ensures
        update_rows(rows, filter, asg, t) == update_rows(rows.take(n), filter, asg, t),
    decreases rows.len() - n,
{
    if n < rows.len() {
        assert(rows.take(n + 1).drop_last() =~= rows.take(n));
        lemma_update_rows_prefix(rows, filter, asg, t, n + 1);
    } else {
        assert(rows.take(n) =~= rows);
    }
}

/// A DELETE fails as soon as a prefix of the rows fails.
proof fn lemma_delete_rows_prefix(rows: Seq<Seq<SpecValue>>, filter: Option<SpecBound>, n: int)
    requires
        0 <= n <= rows.len(),
        delete_rows(rows.take(n), filter) is Err,
    ensures
        delete_rows(rows, filter) == delete_rows(rows.take(n), filter),
    decreases rows.len() - n,
{
    if n < rows.len() {
        assert(rows.take(n + 1).drop_last() =~= rows.take(n));
        lemma_delete_rows_prefix(rows, filter, n + 1);
    } else {
        assert(rows.take(n) =~= rows);
    }
}

/// The assignments fail as soon as a prefix of them fails.
proof fn lemma_assign_all_prefix(
    updated: Seq<SpecValue>,
    original: Seq<SpecValue>,
    asg: Seq<SpecBoundAssignment>,
    n: int,
)
    requires
        0 <= n <= asg.len(),
        assign_all(updated, original, asg.take(n)) is Err,
    ensures
        assign_all(updated, original, asg) == assign_all(updated, original, asg.take(n)),
    decreases asg.len() - n,
{
    if n < asg.len() {
        assert(asg.take(n + 1).drop_last() =~= asg.take(n));
        lemma_assign_all_prefix(updated, original, asg, n + 1);
    } else {
        assert(asg.take(n) =~= asg);
    }
}

/// The filter of an optional bound expression, as plain values.
pub open spec fn filter_of(f: Option<BoundExpression>) -> Option<SpecBound> {
    bound_filter_view(f)
}

/// Applies the assignments to a copy of `original`.
fn apply_assignments(original: &Row, assignments: &Vec<crate::sql::binder::BoundAssignment>) -> (r: Result<
    Row,
    DatabaseError,
>)
    ensures
        match assign_all(original@, original@, bound_assignments_view(assignments@)) {
            Ok(u) => r matches Ok(row) && row@ == u,
            Err(e) => r matches Err(x) && x@ == e,
        },
{
    let ghost asg = bound_assignments_view(assignments@);
    let mut updated = original.clone();
    let mut j: usize = 0;
    assert(asg.take(0) =~= Seq::<SpecBoundAssignment>::empty());
    while j < assignments.len()
        invariant
            j <= assignments@.len(),
            asg == bound_assignments_view(assignments@),
            assign_all(original@, original@, asg.take(j as int)) == Ok::<Seq<SpecValue>, SpecDatabaseError>(updated@),
        decreases assignments@.len() - j,
    {
        assert(asg.take(j + 1).drop_last() =~= asg.take(j as int));
        assert(asg.take(j + 1).last() == assignments@[j as int]@);
        let a = &assignments[j];
        // Every assignment sees the old row, as SQL prescribes.
        if a.column_index >= updated.len() {
            let e = DatabaseError::InvalidColumnIndex { index: a.column_index, row_len: updated.len() };
            proof {
                lemma_assign_all_prefix(original@, original@, asg, j + 1);
            }
            return Err(e);
        }
        let v = match a.value.evaluate(original) {
            Ok(v) => v,
            Err(e) => {
                proof {
                    lemma_assign_all_prefix(original@, original@, asg, j + 1);
                }
                return Err(e);
            },
        };
        updated.set(a.column_index, v);
        j += 1;
    }
    assert(asg.take(assignments@.len() as int) =~= asg);
    Ok(updated)
}

/// A reference to the filter, if there is one.
fn filter_ref(f: &Option<BoundExpression>) -> (r: Option<&BoundExpression>)
    ensures
        match r {
            Some(e) => f == Some(*e),
            None => f is None,
        },
{
    match f {
        Some(e) => Some(e),
        None => None,
    }
}

/// Rewrites the rows that pass the filter; the output is the new rows. No
/// row changes unless every row could be checked and rewritten.
fn run_update(database: &mut Database, statement: &BoundUpdateStatement) -> (out: Output)
    requires
        old(database).wf(),
    ensures
        final(database).wf(),
        update_outcome(
            old(database).catalog(),
            old(database).pages(),
            statement.table@,
            bound_assignments_view(statement.assignments@),
            filter_of(statement.filter),
            final(database).catalog(),
            final(database).pages(),
            out.stream(),
        ),
{
    let ghost cat = database.catalog();
    let ghost pages = database.pages();
    let ghost asg = bound_assignments_view(statement.assignments@);
    let ghost filter = filter_of(statement.filter);
    let rows = match database.select_all(statement.table.as_str()) {
        Ok(rows) => rows,
        Err(e) => {
            return Output::failed(DatabaseError::Storage(e));
        },
    };
    let table = match database.table(statement.table.as_str()) {
        Ok(t) => t.clone(),
        Err(e) => {
            return Output::failed(DatabaseError::Storage(e));
        },
    };
    let ghost t = table@;
    assert(t == cat[find_table(cat, statement.table@)->0]);
    let ghost stored = rows_view(rows@);
    let f = filter_ref(&statement.filter);
    let mut all: Vec<Row> = Vec::new();
    let mut changed: Vec<Row> = Vec::new();
    let mut k: usize = 0;
    assert(stored.take(0) =~= Seq::<Seq<SpecValue>>::empty());
    assert(rows_view(all@) =~= Seq::<Seq<SpecValue>>::empty());
    assert(rows_view(changed@) =~= Seq::<Seq<SpecValue>>::empty());
    while k < rows.len()
        invariant
            k <= rows@.len(),
            stored == rows_view(rows@),
            t == table@,
            database.wf(),
            database.catalog() == cat,
            database.pages() == pages,
            spec_select_all(cat, pages, statement.table@) == Ok::<Seq<Seq<SpecValue>>, SpecDbError>(stored),
            t == cat[find_table(cat, statement.table@)->0],
            filter == match f {
                Some(e) => Some(e@),
                None => None::<SpecBound>,
            },
            asg == bound_assignments_view(statement.assignments@),
            filter == filter_of(statement.filter),
            update_rows(stored.take(k as int), filter, asg, t) == Ok::<
                (Seq<Seq<SpecValue>>, Seq<Seq<SpecValue>>),
                SpecDatabaseError,
            >((rows_view(all@), rows_view(changed@))),
        decreases rows@.len() - k,
    {
        assert(stored.take(k + 1).drop_last() =~= stored.take(k as int));
        assert(stored.take(k + 1).last() == rows@[k as int]@);
        let original = &rows[k];
        let hit = match matches_filter(f, original) {
            Ok(b) => b,
            Err(e) => {
                proof {
                    lemma_update_rows_prefix(stored, filter, asg, t, k + 1);
                }
                return Output::failed(e);
            },
        };
        if !hit {
            let ghost before = rows_view(all@);
            all.push(original.clone());
            assert(rows_view(all@) =~= before.push(stored[k as int]));
        } else {
            let updated = match apply_assignments(original, &statement.assignments) {
                Ok(u) => u,
                Err(e) => {
                    proof {
                        lemma_update_rows_prefix(stored, filter, asg, t, k + 1);
                    }
                    return Output::failed(e);
                },
            };
            match table.schema().validate_row(table.name(), &updated) {
                Ok(()) => {},
                Err(e) => {
                    proof {
                        lemma_update_rows_prefix(stored, filter, asg, t, k + 1);
                    }
                    return Output::failed(DatabaseError::Storage(e));
                },
            }
            let ghost before_all = rows_view(all@);
            let ghost before_changed = rows_view(changed@);
            let ghost u = updated@;
            all.push(updated.clone());
            changed.push(updated);
            assert(rows_view(all@) =~= before_all.push(u));
            assert(rows_view(changed@) =~= before_changed.push(u));
        }
        k += 1;
    }
    assert(stored.take(rows@.len() as int) =~= stored);
    let ghost shown = rows_view(changed@);
    let ghost new_rows = rows_view(all@);
    if changed.len() == 0 {
        return Output::rows(changed);
    }
    let rr = database.replace_rows(statement.table.as_str(), all);
    let ghost outcome = rr;
    let r = match rr {
        Ok(()) => Output::rows(changed),
        Err(e) => Output::failed(DatabaseError::Storage(e)),
    };
    assert(replace_step(cat, pages, statement.table@, new_rows, database.catalog(), database.pages(), outcome, shown, r.stream()));
    r
}

/// Removes the rows that pass the filter; the output is the removed rows. No
/// row is removed unless the filter could be evaluated on every row.
fn run_delete(database: &mut Database, statement: &BoundDeleteStatement) -> (out: Output)
    requires
        old(database).wf(),
    ensures
        final(database).wf(),
        delete_outcome(
            old(database).catalog(),
            old(database).pages(),
            statement.table@,
            filter_of(statement.filter),
            final(database).catalog(),
            final(database).pages(),
            out.stream(),
        ),
{
    let ghost cat = database.catalog();
    let ghost pages = database.pages();
    let ghost filter = filter_of(statement.filter);
    let rows = match database.select_all(statement.table.as_str()) {
        Ok(rows) => rows,
        Err(e) => {
            return Output::failed(DatabaseError::Storage(e));
        },
    };
    let ghost stored = rows_view(rows@);
    let f = filter_ref(&statement.filter);
    let mut kept: Vec<Row> = Vec::new();
    let mut deleted: Vec<Row> = Vec::new();
    let mut k: usize = 0;
    assert(stored.take(0) =~= Seq::<Seq<SpecValue>>::empty());
    assert(rows_view(kept@) =~= Seq::<Seq<SpecValue>>::empty());
    assert(rows_view(deleted@) =~= Seq::<Seq<SpecValue>>::empty());
    while k < rows.len()
        invariant
            k <= rows@.len(),
            stored == rows_view(rows@),
            database.wf(),
            database.catalog() == cat,
            database.pages() == pages,
            spec_select_all(cat, pages, statement.table@) == Ok::<Seq<Seq<SpecValue>>, SpecDbError>(stored),
            filter == match f {
                Some(e) => Some(e@),
                None => None::<SpecBound>,
            },
            filter == filter_of(statement.filter),
            delete_rows(stored.take(k as int), filter) == Ok::<
                (Seq<Seq<SpecValue>>, Seq<Seq<SpecValue>>),
                SpecDatabaseError,
            >((rows_view(kept@), rows_view(deleted@))),
        decreases rows@.len() - k,
    {
        assert(stored.take(k + 1).drop_last() =~= stored.take(k as int));
        assert(stored.take(k + 1).last() == rows@[k as int]@);
        let hit = match matches_filter(f, &rows[k]) {
            Ok(b) => b,
            Err(e) => {
                proof {
                    lemma_delete_rows_prefix(stored, filter, k + 1);
                }
                return Output::failed(e);
            },
        };
        if hit {
            let ghost before = rows_view(deleted@);
            deleted.push(rows[k].clone());
            assert(rows_view(deleted@) =~= before.push(stored[k as int]));
        } else {
            let ghost before = rows_view(kept@);
            kept.push(rows[k].clone());
            assert(rows_view(kept@) =~= before.push(stored[k as int]));
        }
        k += 1;
    }
    assert(stored.take(rows@.len() as int) =~= stored);
    let ghost shown = rows_view(deleted@);
    let ghost new_rows = rows_view(kept@);
    if deleted.len() == 0 {
        return Output::rows(deleted);
    }
    let rr = database.replace_rows(statement.table.as_str(), kept);
    let ghost outcome = rr;
    let r = match rr {
        Ok(()) => Output::rows(deleted),
        Err(e) => Output::failed(DatabaseError::Storage(e)),
    };
    assert(replace_step(cat, pages, statement.table@, new_rows, database.catalog(), database.pages(), outcome, shown, r.stream()));
    r
}


/// A statement that changes the database, held with the database until the
/// first call of `pull` runs it.
struct Job<'a> {
    database: &'a mut Database,
    statement: BoundStatement,
    started: bool,
    output: Output,
    produced: Ghost<Stream>,
}

/// The stream of a job: its output once it ran, nothing before.
spec fn job_stream(started: bool, output: Output) -> Stream {
    if started {
        output.stream()
    } else {
        Stream { rows: Seq::empty(), error: None }
    }
}

impl<'a> Job<'a> {
    #[verifier::type_invariant]
    spec fn inv(&self) -> bool {
        &&& self.database.wf()
        &&& !(self.statement is Select)
    }

    fn new(database: &'a mut Database, statement: BoundStatement) -> (r: Self)
        requires
            old(database).wf(),
            !(statement is Select),
        ensures
            !r.started,
            *r.database == *old(database),
            *final(database) == *final(r.database),
            r.statement == statement,
    {
        Job {
            database,
            statement,
            started: false,
            output: Output::rows(Vec::new()),
            produced: Ghost(Stream { rows: Seq::empty(), error: None }),
        }
    }

    /// Runs the statement on the first call, and again after an UPDATE or
    /// DELETE failed; then hands out its output.
    fn pull(self) -> (r: (Self, Result<Option<Row>, DatabaseError>))
        ensures
            *final(r.0.database) == *final(self.database),
            r.0.statement == self.statement,
            self.started ==> r.0.started && *r.0.database == *old(self.database) && next_step(
                job_stream(self.started, self.output),
                r.1,
                job_stream(r.0.started, r.0.output),
            ),
            !self.started ==> statement_outcome(
                old(self.database).catalog(),
                old(self.database).pages(),
                self.statement@,
                r.0.database.catalog(),
                r.0.database.pages(),
                r.0.produced@,
            ) && next_step(r.0.produced@, r.1, job_stream(r.0.started, r.0.output)),
            r.1 is Ok ==> r.0.started,
            !r.0.started ==> r.1 is Err,
    {
        proof {
            use_type_invariant(&self);
        }
        let Job { database, statement, started, output, produced } = self;
        let mut output = output;
        let mut started = started;
        let mut produced = produced;
        if !started {
            let retry = match &statement {
                BoundStatement::Update(_) => true,
                BoundStatement::Delete(_) => true,
                _ => false,
            };
            let out = match &statement {
                BoundStatement::CreateTable(s) => run_create(&mut *database, s),
                BoundStatement::Insert(s) => run_insert(&mut *database, s),
                BoundStatement::Update(s) => run_update(&mut *database, s),
                BoundStatement::Delete(s) => run_delete(&mut *database, s),
                BoundStatement::Select(_) => {
                    proof {
                        assert(false);
                    }
                    Output::rows(Vec::new())
                },
            };
            produced = Ghost(out.stream());
            if retry && out.is_failure() {
                let mut failed = out;
                let r = failed.next();
                return (Job { database, statement, started, output, produced }, r);
            }
            output = out;
            started = true;
        }
        let r = output.next();
        (Job { database, statement, started, output, produced }, r)
    }
}

/// Runs a job to the end and collects its rows, or the error that stopped it.
fn drain_job<'a>(job: Job<'a>) -> (r: Result<Vec<Row>, DatabaseError>)
    requires
        !job.started,
    ensures
        final(job.database).wf(),
        bound_run(
            old(job.database).catalog(),
            old(job.database).pages(),
            job.statement@,
            final(job.database).catalog(),
            final(job.database).pages(),
            rows_result(r),
        ),
{
    let mut j = job;
    let ghost cat = j.database.catalog();
    let ghost pages = j.database.pages();
    let ghost b = j.statement@;
    let (j1, first) = j.pull();
    j = j1;
    let ghost out = j.produced@;
    proof {
        use_type_invariant(&j);
    }
    assert(*final(j.database) == *final(job.database));
    let mut rows: Vec<Row> = Vec::new();
    match first {
        Err(e) => {
            assert(*j.database == *final(job.database));
            assert(statement_outcome(
                cat,
                pages,
                b,
                final(job.database).catalog(),
                final(job.database).pages(),
                out,
            ));
            return Err(e);
        },
        Ok(None) => {
            assert(rows_view(rows@) =~= out.rows);
            assert(*j.database == *final(job.database));
            assert(statement_outcome(
                cat,
                pages,
                b,
                final(job.database).catalog(),
                final(job.database).pages(),
                out,
            ));
            return Ok(rows);
        },
        Ok(Some(row)) => {
            rows.push(row);
            assert(rows_view(rows@) + job_stream(j.started, j.output).rows =~= out.rows);
        },
    }
    let ghost cat2 = j.database.catalog();
    let ghost pages2 = j.database.pages();
    loop
        invariant
            j.started,
            *final(j.database) == *final(job.database),
            j.database.catalog() == cat2,
            j.database.pages() == pages2,
            j.database.wf(),
            statement_outcome(cat, pages, b, cat2, pages2, out),
            cat == old(job.database).catalog(),
            pages == old(job.database).pages(),
            b == job.statement@,
            rows_view(rows@) + job_stream(j.started, j.output).rows == out.rows,
            job_stream(j.started, j.output).error == out.error,
        decreases job_stream(j.started, j.output).rows.len(),
    {
        let ghost before = job_stream(j.started, j.output);
        let (j1, step) = j.pull();
        j = j1;
        match step {
            Ok(Some(row)) => {
                let ghost seen = rows_view(rows@);
                rows.push(row);
                assert(rows_view(rows@) =~= seen.push(before.rows[0]));
                assert(rows_view(rows@) + job_stream(j.started, j.output).rows =~= seen + before.rows);
            },
            Ok(None) => {
                assert(rows_view(rows@) =~= out.rows);
                assert(*j.database == *final(job.database));
                assert(statement_outcome(
                    cat,
                    pages,
                    b,
                    final(job.database).catalog(),
                    final(job.database).pages(),
                    out,
                ));
                return Ok(rows);
            },
            Err(e) => {
                assert(*j.database == *final(job.database));
                assert(statement_outcome(
                    cat,
                    pages,
                    b,
                    final(job.database).catalog(),
                    final(job.database).pages(),
                    out,
                ));
                return Err(e);
            },
        }
    }
}

/// Runs a CREATE TABLE; it produces no rows. It holds the database and
/// runs on the first call of `next`, not when it is built.
pub struct CreateTableExecutor<'a> {
    job: Option<Job<'a>>,
}

impl<'a> CreateTableExecutor<'a> {
    /// The catalog of the database the executor holds.
    pub closed spec fn catalog(&self) -> Seq<SpecTable> {
        match self.job {
            Some(j) => j.database.catalog(),
            None => Seq::empty(),
        }
    }

    /// The pages of the database the executor holds.
    pub closed spec fn pages(&self) -> Seq<Seq<u8>> {
        match self.job {
            Some(j) => j.database.pages(),
            None => Seq::empty(),
        }
    }

    /// The statement the executor runs.
    pub closed spec fn statement(&self) -> Option<SpecBoundStatement> {
        match self.job {
            Some(j) => Some(j.statement@),
            None => None,
        }
    }

    /// The output of the last run of the statement.
    pub closed spec fn produced(&self) -> Stream {
        match self.job {
            Some(j) => j.produced@,
            None => Stream { rows: Seq::empty(), error: None },
        }
    }

    /// Holds the statement and the database; nothing runs yet.
    pub fn new(database: &'a mut Database, statement: CreateTableStatement) -> (r: Self)
        requires
            old(database).wf(),
        ensures
            !r.started(),
            r.catalog() == old(database).catalog(),
            r.pages() == old(database).pages(),
            r.statement() == Some(BoundStatement::CreateTable(statement)@),
    {
        CreateTableExecutor { job: Some(Job::new(database, BoundStatement::CreateTable(statement))) }
    }
}

impl<'a> Executor for CreateTableExecutor<'a> {
    closed spec fn started(&self) -> bool {
        match self.job {
            Some(j) => j.started,
            None => true,
        }
    }

    closed spec fn upcoming(&self) -> Stream {
        match self.job {
            Some(j) => job_stream(j.started, j.output),
            None => Stream { rows: Seq::empty(), error: None },
        }
    }

    /// The first call runs the statement: the database goes from its state
    /// before to its state after as the statement's outcome says, with the
    /// output `produced()`.
    fn next(&mut self) -> (r: Result<Option<Row>, DatabaseError>)
        ensures
            final(self).statement() == old(self).statement(),
            old(self).started() ==> final(self).catalog() == old(self).catalog() && final(self).pages()
                == old(self).pages(),
            !old(self).started() ==> statement_outcome(
                old(self).catalog(),
                old(self).pages(),
                old(self).statement()->Some_0,
                final(self).catalog(),
                final(self).pages(),
                final(self).produced(),
            ) && next_step(final(self).produced(), r, final(self).upcoming()),
    {
        match self.job.take() {
            Some(job) => {
                let (job, r) = job.pull();
                self.job = Some(job);
                r
            },
            None => Ok(None),
        }
    }
}

/// Runs an INSERT; its output is the inserted row. It holds the database and
/// runs on the first call of `next`, not when it is built.
pub struct InsertExecutor<'a> {
    job: Option<Job<'a>>,
}

impl<'a> InsertExecutor<'a> {
    /// The catalog of the database the executor holds.
    pub closed spec fn catalog(&self) -> Seq<SpecTable> {
        match self.job {
            Some(j) => j.database.catalog(),
            None => Seq::empty(),
        }
    }

    /// The pages of the database the executor holds.
    pub closed spec fn pages(&self) -> Seq<Seq<u8>> {
        match self.job {
            Some(j) => j.database.pages(),
            None => Seq::empty(),
        }
    }

    /// The statement the executor runs.
    pub closed spec fn statement(&self) -> Option<SpecBoundStatement> {
        match self.job {
            Some(j) => Some(j.statement@),
            None => None,
        }
    }

    /// The output of the last run of the statement.
    pub closed spec fn produced(&self) -> Stream {
        match self.job {
            Some(j) => j.produced@,
            None => Stream { rows: Seq::empty(), error: None },
        }
    }

    /// Holds the statement and the database; nothing runs yet.
    pub fn new(database: &'a mut Database, statement: BoundInsertStatement) -> (r: Self)
        requires
            old(database).wf(),
        ensures
            !r.started(),
            r.catalog() == old(database).catalog(),
            r.pages() == old(database).pages(),
            r.statement() == Some(BoundStatement::Insert(statement)@),
    {
        InsertExecutor { job: Some(Job::new(database, BoundStatement::Insert(statement))) }
    }
}

impl<'a> Executor for InsertExecutor<'a> {
    closed spec fn started(&self) -> bool {
        match self.job {
            Some(j) => j.started,
            None => true,
        }
    }

    closed spec fn upcoming(&self) -> Stream {
        match self.job {
            Some(j) => job_stream(j.started, j.output),
            None => Stream { rows: Seq::empty(), error: None },
        }
    }

    /// The first call runs the statement: the database goes from its state
    /// before to its state after as the statement's outcome says, with the
    /// output `produced()`.
    fn next(&mut self) -> (r: Result<Option<Row>, DatabaseError>)
        ensures
            final(self).statement() == old(self).statement(),
            old(self).started() ==> final(self).catalog() == old(self).catalog() && final(self).pages()
                == old(self).pages(),
            !old(self).started() ==> statement_outcome(
                old(self).catalog(),
                old(self).pages(),
                old(self).statement()->Some_0,
                final(self).catalog(),
                final(self).pages(),
                final(self).produced(),
            ) && next_step(final(self).produced(), r, final(self).upcoming()),
    {
        match self.job.take() {
            Some(job) => {
                let (job, r) = job.pull();
                self.job = Some(job);
                r
            },
            None => Ok(None),
        }
    }
}

/// Runs an UPDATE; its output is the new rows. No row
/// changes unless every row could be checked and rewritten; a failed run is
/// tried again on the next call. It holds the database and
/// runs on the first call of `next`, not when it is built.
pub struct UpdateExecutor<'a> {
    job: Option<Job<'a>>,
}

impl<'a> UpdateExecutor<'a> {
    /// The catalog of the database the executor holds.
    pub closed spec fn catalog(&self) -> Seq<SpecTable> {
        match self.job {
            Some(j) => j.database.catalog(),
            None => Seq::empty(),
        }
    }

    /// The pages of the database the executor holds.
    pub closed spec fn pages(&self) -> Seq<Seq<u8>> {
        match self.job {
            Some(j) => j.database.pages(),
            None => Seq::empty(),
        }
    }

    /// The statement the executor runs.
    pub closed spec fn statement(&self) -> Option<SpecBoundStatement> {
        match self.job {
            Some(j) => Some(j.statement@),
            None => None,
        }
    }

    /// The output of the last run of the statement.
    pub closed spec fn produced(&self) -> Stream {
        match self.job {
            Some(j) => j.produced@,
            None => Stream { rows: Seq::empty(), error: None },
        }
    }

    /// Holds the statement and the database; nothing runs yet.
    pub fn new(database: &'a mut Database, statement: BoundUpdateStatement) -> (r: Self)
        requires
            old(database).wf(),
        ensures
            !r.started(),
            r.catalog() == old(database).catalog(),
            r.pages() == old(database).pages(),
            r.statement() == Some(BoundStatement::Update(statement)@),
    {
        UpdateExecutor { job: Some(Job::new(database, BoundStatement::Update(statement))) }
    }
}

impl<'a> Executor for UpdateExecutor<'a> {
    closed spec fn started(&self) -> bool {
        match self.job {
            Some(j) => j.started,
            None => true,
        }
    }

    closed spec fn upcoming(&self) -> Stream {
        match self.job {
            Some(j) => job_stream(j.started, j.output),
            None => Stream { rows: Seq::empty(), error: None },
        }
    }

    /// The first call runs the statement: the database goes from its state
    /// before to its state after as the statement's outcome says, with the
    /// output `produced()`.
    fn next(&mut self) -> (r: Result<Option<Row>, DatabaseError>)
        ensures
            final(self).statement() == old(self).statement(),
            old(self).started() ==> final(self).catalog() == old(self).catalog() && final(self).pages()
                == old(self).pages(),
            !old(self).started() ==> statement_outcome(
                old(self).catalog(),
                old(self).pages(),
                old(self).statement()->Some_0,
                final(self).catalog(),
                final(self).pages(),
                final(self).produced(),
            ) && next_step(final(self).produced(), r, final(self).upcoming()),
    {
        match self.job.take() {
            Some(job) => {
                let (job, r) = job.pull();
                self.job = Some(job);
                r
            },
            None => Ok(None),
        }
    }
}

/// Runs a DELETE; its output is the removed rows. No row
/// is removed unless the filter could be evaluated on every row; a failed run
/// is tried again on the next call. It holds the database and
/// runs on the first call of `next`, not when it is built.
pub struct DeleteExecutor<'a> {
    job: Option<Job<'a>>,
}

impl<'a> DeleteExecutor<'a> {
    /// The catalog of the database the executor holds.
    pub closed spec fn catalog(&self) -> Seq<SpecTable> {
        match self.job {
            Some(j) => j.database.catalog(),
            None => Seq::empty(),
        }
    }

    /// The pages of the database the executor holds.
    pub closed spec fn pages(&self) -> Seq<Seq<u8>> {
        match self.job {
            Some(j) => j.database.pages(),
            None => Seq::empty(),
        }
    }

    /// The statement the executor runs.
    pub closed spec fn statement(&self) -> Option<SpecBoundStatement> {
        match self.job {
            Some(j) => Some(j.statement@),
            None => None,
        }
    }

    /// The output of the last run of the statement.
    pub closed spec fn produced(&self) -> Stream {
        match self.job {
            Some(j) => j.produced@,
            None => Stream { rows: Seq::empty(), error: None },
        }
    }

    /// Holds the statement and the database; nothing runs yet.
    pub fn new(database: &'a mut Database, statement: BoundDeleteStatement) -> (r: Self)
        requires
            old(database).wf(),
        ensures
            !r.started(),
            r.catalog() == old(database).catalog(),
            r.pages() == old(database).pages(),
            r.statement() == Some(BoundStatement::Delete(statement)@),
    {
        DeleteExecutor { job: Some(Job::new(database, BoundStatement::Delete(statement))) }
    }
}

impl<'a> Executor for DeleteExecutor<'a> {
    closed spec fn started(&self) -> bool {
        match self.job {
            Some(j) => j.started,
            None => true,
        }
    }

    closed spec fn upcoming(&self) -> Stream {
        match self.job {
            Some(j) => job_stream(j.started, j.output),
            None => Stream { rows: Seq::empty(), error: None },
        }
    }

    /// The first call runs the statement: the database goes from its state
    /// before to its state after as the statement's outcome says, with the
    /// output `produced()`.
    fn next(&mut self) -> (r: Result<Option<Row>, DatabaseError>)
        ensures
            final(self).statement() == old(self).statement(),
            old(self).started() ==> final(self).catalog() == old(self).catalog() && final(self).pages()
                == old(self).pages(),
            !old(self).started() ==> statement_outcome(
                old(self).catalog(),
                old(self).pages(),
                old(self).statement()->Some_0,
                final(self).catalog(),
                final(self).pages(),
                final(self).produced(),
            ) && next_step(final(self).produced(), r, final(self).upcoming()),
    {
        match self.job.take() {
            Some(job) => {
                let (job, r) = job.pull();
                self.job = Some(job);
                r
            },
            None => Ok(None),
        }
    }
}

/// The rows a SELECT reads: the whole table, or the rows that pass its filter.
pub enum SelectSource {
    Scan(TableScanExecutor),
    Filter(FilterExecutor<TableScanExecutor>),
}

impl Executor for SelectSource {
    closed spec fn started(&self) -> bool {
        match self {
            SelectSource::Scan(s) => s.started(),
            SelectSource::Filter(f) => f.started(),
        }
    }

    closed spec fn upcoming(&self) -> Stream {
        match self {
            SelectSource::Scan(s) => s.upcoming(),
            SelectSource::Filter(f) => f.upcoming(),
        }
    }

    fn next(&mut self) -> (r: Result<Option<Row>, DatabaseError>) {
        match self {
            SelectSource::Scan(s) => s.next(),
            SelectSource::Filter(f) => f.next(),
        }
    }
}

/// The executor of one bound statement.
pub enum StatementExecutor<'a> {
    CreateTable(CreateTableExecutor<'a>),
    Insert(InsertExecutor<'a>),
    Update(UpdateExecutor<'a>),
    Delete(DeleteExecutor<'a>),
    Select(ProjectionExecutor<SelectSource>),
}

impl<'a> Executor for StatementExecutor<'a> {
    closed spec fn started(&self) -> bool {
        match self {
            StatementExecutor::CreateTable(x) => x.started(),
            StatementExecutor::Insert(x) => x.started(),
            StatementExecutor::Update(x) => x.started(),
            StatementExecutor::Delete(x) => x.started(),
            StatementExecutor::Select(x) => x.started(),
        }
    }

    closed spec fn upcoming(&self) -> Stream {
        match self {
            StatementExecutor::CreateTable(x) => x.upcoming(),
            StatementExecutor::Insert(x) => x.upcoming(),
            StatementExecutor::Update(x) => x.upcoming(),
            StatementExecutor::Delete(x) => x.upcoming(),
            StatementExecutor::Select(x) => x.upcoming(),
        }
    }

    fn next(&mut self) -> (r: Result<Option<Row>, DatabaseError>) {
        match self {
            StatementExecutor::CreateTable(x) => x.next(),
            StatementExecutor::Insert(x) => x.next(),
            StatementExecutor::Update(x) => x.next(),
            StatementExecutor::Delete(x) => x.next(),
            StatementExecutor::Select(x) => x.next(),
        }
    }
}

/// The output of a statement that could not even start: no rows, the error.
pub open spec fn failed_stream(e: SpecDatabaseError) -> Stream {
    Stream { rows: Seq::empty(), error: Some(e) }
}

/// Builds the executor of a SELECT: it reads the table now and produces the
/// rows that pass the filter, projected; only a table that cannot be read
/// fails.
fn build_select(database: &Database, statement: BoundSelectStatement) -> (r: Result<
    ProjectionExecutor<SelectSource>,
    DatabaseError,
>)
    requires
        database.wf(),
    ensures
        match r {
            Ok(x) => x.started() && select_outcome(
                database.catalog(),
                database.pages(),
                statement.table@,
                bounds_view(statement.projections@),
                bound_filter_view(statement.filter),
                x.upcoming(),
            ),
            Err(e) => select_outcome(
                database.catalog(),
                database.pages(),
                statement.table@,
                bounds_view(statement.projections@),
                bound_filter_view(statement.filter),
                failed_stream(e@),
            ),
        },
{
    let BoundSelectStatement { table, projections, filter } = statement;
    let scan = match TableScanExecutor::from_table(database, table.as_str()) {
        Ok(x) => x,
        Err(e) => {
            return Err(e);
        },
    };
    let source = match filter {
        Some(p) => SelectSource::Filter(FilterExecutor::new(scan, p)),
        None => SelectSource::Scan(scan),
    };
    Ok(ProjectionExecutor::new(source, projections))
}

/// Builds the executor of a bound statement. A SELECT reads its table here,
/// and only a SELECT whose table cannot be read fails; a statement that
/// changes the database holds it and runs on the first call of `next`.
pub fn build_executor<'a>(database: &'a mut Database, statement: BoundStatement) -> (r: Result<
    StatementExecutor<'a>,
    DatabaseError,
>)
    requires
        old(database).wf(),
    ensures
        statement@ is Select ==> *final(database) == *old(database) && statement_outcome(
            old(database).catalog(),
            old(database).pages(),
            statement@,
            old(database).catalog(),
            old(database).pages(),
            match r {
                Ok(x) => x.upcoming(),
                Err(e) => failed_stream(e@),
            },
        ) && (r matches Ok(x) ==> x.started()),
        !(statement@ is Select) ==> match r {
            Ok(StatementExecutor::CreateTable(x)) => statement is CreateTable && !x.started()
                && x.catalog() == old(database).catalog() && x.pages() == old(database).pages()
                && x.statement() == Some(statement@),
            Ok(StatementExecutor::Insert(x)) => statement is Insert && !x.started() && x.catalog()
                == old(database).catalog() && x.pages() == old(database).pages() && x.statement()
                == Some(statement@),
            Ok(StatementExecutor::Update(x)) => statement is Update && !x.started() && x.catalog()
                == old(database).catalog() && x.pages() == old(database).pages() && x.statement()
                == Some(statement@),
            Ok(StatementExecutor::Delete(x)) => statement is Delete && !x.started() && x.catalog()
                == old(database).catalog() && x.pages() == old(database).pages() && x.statement()
                == Some(statement@),
            _ => false,
        },
{
    match statement {
        BoundStatement::CreateTable(s) => Ok(StatementExecutor::CreateTable(CreateTableExecutor::new(database, s))),
        BoundStatement::Insert(s) => Ok(StatementExecutor::Insert(InsertExecutor::new(database, s))),
        BoundStatement::Update(s) => Ok(StatementExecutor::Update(UpdateExecutor::new(database, s))),
        BoundStatement::Delete(s) => Ok(StatementExecutor::Delete(DeleteExecutor::new(database, s))),
        BoundStatement::Select(s) => match build_select(database, s) {
            Ok(x) => Ok(StatementExecutor::Select(x)),
            Err(e) => Err(e),
        },
    }
}

/// The rows of a result, as plain values.
pub open spec fn rows_result(r: Result<Vec<Row>, DatabaseError>) -> Result<
    Seq<Seq<SpecValue>>,
    SpecDatabaseError,
> {
    match r {
        Ok(v) => Ok(rows_view(v@)),
        Err(e) => Err(e@),
    }
}

/// Draining the output `out` gives `res`: all its rows, or its error.
pub open spec fn drained(out: Stream, res: Result<Seq<Seq<SpecValue>>, SpecDatabaseError>) -> bool {
    match out.error {
        None => res == Ok::<Seq<Seq<SpecValue>>, SpecDatabaseError>(out.rows),
        Some(e) => res == Err::<Seq<Seq<SpecValue>>, SpecDatabaseError>(e),
    }
}

/// Running the bound statement `b` took the database from `cat`, `pages`
/// to `cat2`, `pages2` and gave `res`.
pub open spec fn bound_run(
    cat: Seq<SpecTable>,
    pages: Seq<Seq<u8>>,
    b: SpecBoundStatement,
    cat2: Seq<SpecTable>,
    pages2: Seq<Seq<u8>>,
    res: Result<Seq<Seq<SpecValue>>, SpecDatabaseError>,
) -> bool {
    exists|out: Stream| #[trigger] statement_outcome(cat, pages, b, cat2, pages2, out) && drained(out, res)
}

/// Pulls every row out of an executor, stopping at its error.
fn drain<E: Executor>(executor: &mut E) -> (r: Result<Vec<Row>, DatabaseError>)
    requires
        old(executor).started(),
    ensures
        drained(old(executor).upcoming(), rows_result(r)),
{
    let ghost out = executor.upcoming();
    let mut rows: Vec<Row> = Vec::new();
    assert(rows_view(rows@) + executor.upcoming().rows =~= out.rows);
    loop
        invariant
            out == old(executor).upcoming(),
            executor.started(),
            rows_view(rows@) + executor.upcoming().rows == out.rows,
            executor.upcoming().error == out.error,
        decreases executor.upcoming().rows.len(),
    {
        let ghost before = executor.upcoming();
        match executor.next() {
            Ok(Some(row)) => {
                let ghost seen = rows_view(rows@);
                rows.push(row);
                assert(rows_view(rows@) =~= seen.push(before.rows[0]));
                assert(rows_view(rows@) + executor.upcoming().rows =~= seen + before.rows);
            },
            Ok(None) => {
                assert(rows_view(rows@) =~= out.rows);
                return Ok(rows);
            },
            Err(e) => {
                return Err(e);
            },
        }
    }
}

/// Runs a bound statement and collects every row it produces.
pub fn execute_bound(database: &mut Database, statement: BoundStatement) -> (r: Result<
    Vec<Row>,
    DatabaseError,
>)
    requires
        old(database).wf(),
    ensures
        final(database).wf(),
        bound_run(
            old(database).catalog(),
            old(database).pages(),
            statement@,
            final(database).catalog(),
            final(database).pages(),
            rows_result(r),
        ),
{
    let ghost cat = database.catalog();
    let ghost pages = database.pages();
    let ghost b = statement@;
    match statement {
        BoundStatement::Select(s) => {
            let mut executor = match build_select(database, s) {
                Ok(x) => x,
                Err(e) => {
                    assert(drained(failed_stream(e@), rows_result(Err(e))));
                    assert(statement_outcome(cat, pages, b, cat, pages, failed_stream(e@)));
                    return Err(e);
                },
            };
            let ghost out = executor.upcoming();
            let r = drain(&mut executor);
            assert(statement_outcome(cat, pages, b, database.catalog(), database.pages(), out));
            r
        },
        other => {
            let job = Job::new(database, other);
            drain_job(job)
        },
    }
}

/// Binding `s` against the catalog `cat` and running it took the database
/// from `cat`, `pages` to `cat2`, `pages2` and gave `res`. A statement that
/// does not bind changes nothing.
#[verifier::opaque]
pub open spec fn statement_run(
    cat: Seq<SpecTable>,
    pages: Seq<Seq<u8>>,
    s: SpecStatement,
    cat2: Seq<SpecTable>,
    pages2: Seq<Seq<u8>>,
    res: Result<Seq<Seq<SpecValue>>, SpecDatabaseError>,
) -> bool {
    match spec_bind(cat, s) {
        Err(e) => res == Err::<Seq<Seq<SpecValue>>, SpecDatabaseError>(SpecDatabaseError::Bind(e))
            && cat2 == cat && pages2 == pages,
        Ok(b) => bound_run(cat, pages, b, cat2, pages2, res),
    }
}

/// Running the SQL text `input` took the database from `cat`, `pages` to
/// `cat2`, `pages2` and gave `res`. Text that does not parse changes nothing.
pub open spec fn sql_run(
    cat: Seq<SpecTable>,
    pages: Seq<Seq<u8>>,
    input: Seq<char>,
    cat2: Seq<SpecTable>,
    pages2: Seq<Seq<u8>>,
    res: Result<Seq<Seq<SpecValue>>, SpecDatabaseError>,
) -> bool {
    match spec_parse_sql(input) {
        Err(e) => res == Err::<Seq<Seq<SpecValue>>, SpecDatabaseError>(SpecDatabaseError::Sql(e))
            && cat2 == cat && pages2 == pages,
        Ok(s) => statement_run(cat, pages, s, cat2, pages2, res),
    }
}

/// Parses, binds and runs one SQL statement, and collects its rows.
pub fn execute_sql(database: &mut Database, sql: &str) -> (r: Result<Vec<Row>, DatabaseError>)
    requires
        old(database).wf(),
    ensures
        final(database).wf(),
        sql_run(
            old(database).catalog(),
            old(database).pages(),
            sql@,
            final(database).catalog(),
            final(database).pages(),
            rows_result(r),
        ),
{
    let statement = match parse_sql(sql) {
        Ok(s) => s,
        Err(e) => {
            return Err(DatabaseError::Sql(e));
        },
    };
    run_statement(database, statement)
}

/// The statements `stmts` all ran, one after another, from `cat`, `pages`
/// to `cat2`, `pages2`, and `results` holds the rows of each.
pub open spec fn batch_done(
    cat: Seq<SpecTable>,
    pages: Seq<Seq<u8>>,
    stmts: Seq<SpecStatement>,
    cat2: Seq<SpecTable>,
    pages2: Seq<Seq<u8>>,
    results: Seq<Seq<Seq<SpecValue>>>,
) -> bool
    decreases stmts.len(),
{
    if stmts.len() == 0 {
        cat2 == cat && pages2 == pages && results.len() == 0
    } else {
        &&& results.len() == stmts.len()
        &&& exists|mc: Seq<SpecTable>, mp: Seq<Seq<u8>>|
            #[trigger] statement_run(
                mc,
                mp,
                stmts.last(),
                cat2,
                pages2,
                Ok::<Seq<Seq<SpecValue>>, SpecDatabaseError>(results.last()),
            ) && batch_done(cat, pages, stmts.drop_last(), mc, mp, results.drop_last())
    }
}

/// The first `k` statements ran, and then statement `k` failed with `e`,
/// leaving the database at `cat2`, `pages2`.
pub open spec fn batch_failed(
    cat: Seq<SpecTable>,
    pages: Seq<Seq<u8>>,
    stmts: Seq<SpecStatement>,
    cat2: Seq<SpecTable>,
    pages2: Seq<Seq<u8>>,
    e: SpecDatabaseError,
) -> bool {
    exists|k: int, mc: Seq<SpecTable>, mp: Seq<Seq<u8>>, results: Seq<Seq<Seq<SpecValue>>>|
        #![trigger batch_done(cat, pages, stmts.take(k), mc, mp, results), statement_run(mc, mp, stmts[k], cat2, pages2, Err::<Seq<Seq<SpecValue>>, SpecDatabaseError>(e))]
        0 <= k < stmts.len() && batch_done(cat, pages, stmts.take(k), mc, mp, results)
            && statement_run(mc, mp, stmts[k], cat2, pages2, Err::<Seq<Seq<SpecValue>>, SpecDatabaseError>(e))
}

/// The result sets of a batch, as plain values.
pub open spec fn batch_result(r: Result<Vec<Vec<Row>>, DatabaseError>) -> Result<
    Seq<Seq<Seq<SpecValue>>>,
    SpecDatabaseError,
> {
    match r {
        Ok(v) => Ok(results_view(v@)),
        Err(e) => Err(e@),
    }
}

/// Result sets as plain values.
pub open spec fn results_view(v: Seq<Vec<Row>>) -> Seq<Seq<Seq<SpecValue>>> {
    v.map_values(|rows: Vec<Row>| rows_view(rows@))
}

/// Running the SQL text `input` as a batch took the database from `cat`,
/// `pages` to `cat2`, `pages2` and gave `res`: text that does not parse
/// changes nothing; otherwise the statements run in order until one fails.
pub open spec fn batch_run(
    cat: Seq<SpecTable>,
    pages: Seq<Seq<u8>>,
    input: Seq<char>,
    cat2: Seq<SpecTable>,
    pages2: Seq<Seq<u8>>,
    res: Result<Seq<Seq<Seq<SpecValue>>>, SpecDatabaseError>,
) -> bool {
    match spec_parse_sql_statements(input) {
        Err(e) => res == Err::<Seq<Seq<Seq<SpecValue>>>, SpecDatabaseError>(SpecDatabaseError::Sql(e))
            && cat2 == cat && pages2 == pages,
        Ok(stmts) => match res {
            Ok(results) => batch_done(cat, pages, stmts, cat2, pages2, results),
            Err(e) => batch_failed(cat, pages, stmts, cat2, pages2, e),
        },
    }
}

/// Binds and runs one parsed statement.
fn run_statement(database: &mut Database, statement: Statement) -> (r: Result<Vec<Row>, DatabaseError>)
    requires
        old(database).wf(),
    ensures
        final(database).wf(),
        statement_run(
            old(database).catalog(),
            old(database).pages(),
            statement@,
            final(database).catalog(),
            final(database).pages(),
            rows_result(r),
        ),
{
    reveal(statement_run);
    let bound = match Binder::new(database).bind(statement) {
        Ok(b) => b,
        Err(e) => {
            return Err(DatabaseError::Bind(e));
        },
    };
    execute_bound(database, bound)
}

/// Parses a batch of SQL statements and runs them in order, each bound
/// against the catalog as the statements before it left it. The first
/// failure stops the batch; what ran before it stays done.
pub fn execute_sql_batch(database: &mut Database, sql: &str) -> (r: Result<
    Vec<Vec<Row>>,
    DatabaseError,
>)
    requires
        old(database).wf(),
    ensures
        final(database).wf(),
        batch_run(
            old(database).catalog(),
            old(database).pages(),
            sql@,
            final(database).catalog(),
            final(database).pages(),
            batch_result(r),
        ),
{
    let ghost cat = database.catalog();
    let ghost pages = database.pages();
    let mut statements = match parse_sql_statements(sql) {
        Ok(s) => s,
        Err(e) => {
            return Err(DatabaseError::Sql(e));
        },
    };
    let ghost stmts = statements_view(statements@);
    let mut results: Vec<Vec<Row>> = Vec::new();
    let mut k: usize = 0;
    assert(stmts.len() == statements.len());
    assert(stmts.take(0) =~= Seq::<SpecStatement>::empty());
    assert(statements_view(statements@) =~= stmts.skip(0));
    assert(results_view(results@) =~= Seq::<Seq<Seq<SpecValue>>>::empty());
    while statements.len() > 0
        invariant
            database.wf(),
            k <= stmts.len(),
            stmts.len() <= usize::MAX,
            cat == old(database).catalog(),
            pages == old(database).pages(),
            spec_parse_sql_statements(sql@) == Ok::<Seq<SpecStatement>, SpecSqlError>(stmts),
            statements_view(statements@) == stmts.skip(k as int),
            batch_done(cat, pages, stmts.take(k as int), database.catalog(), database.pages(), results_view(results@)),
        decreases statements@.len(),
    {
        let ghost mc = database.catalog();
        let ghost mp = database.pages();
        let ghost done = results_view(results@);
        let ghost rest = statements@;
        let statement = statements.remove(0);
        proof {
            lemma_skip_step(stmts, k as int, rest);
        }
        let out = run_statement(database, statement);
        match out {
            Ok(rows) => {
                let ghost shown = rows_view(rows@);
                results.push(rows);
                proof {
                    assert(results_view(results@) =~= done.push(shown));
                    lemma_batch_step(cat, pages, stmts, k as int, mc, mp, done, database.catalog(), database.pages(), shown);
                }
            },
            Err(e) => {
                proof {
                    lemma_batch_fail(cat, pages, stmts, k as int, mc, mp, done, database.catalog(), database.pages(), e@);
                }
                return Err(e);
            },
        }
        k += 1;
    }
    assert(stmts.take(k as int) =~= stmts);
    Ok(results)
}

/// Taking the first statement of the rest moves one statement further.
proof fn lemma_skip_step(stmts: Seq<SpecStatement>, k: int, rest: Seq<Statement>)
    requires
        0 <= k <= stmts.len(),
        statements_view(rest) == stmts.skip(k),
        rest.len() > 0,
    ensures
        k < stmts.len(),
        rest[0]@ == stmts[k],
        statements_view(rest.remove(0)) == stmts.skip(k + 1),
{
    assert(statements_view(rest).len() == rest.len());
    assert(statements_view(rest)[0] == rest[0]@);
    assert(stmts.skip(k)[0] == stmts[k]);
    let v = statements_view(rest.remove(0));
    assert forall|i: int| 0 <= i < v.len() implies v[i] == stmts.skip(k + 1)[i] by {
        assert(rest.remove(0)[i] == rest[i + 1]);
        assert(statements_view(rest)[i + 1] == rest[i + 1]@);
        assert(stmts.skip(k)[i + 1] == stmts[k + 1 + i]);
    }
    assert(v =~= stmts.skip(k + 1));
}

/// One more statement that ran extends the batch.
proof fn lemma_batch_step(
    cat: Seq<SpecTable>,
    pages: Seq<Seq<u8>>,
    stmts: Seq<SpecStatement>,
    k: int,
    mc: Seq<SpecTable>,
    mp: Seq<Seq<u8>>,
    done: Seq<Seq<Seq<SpecValue>>>,
    cat2: Seq<SpecTable>,
    pages2: Seq<Seq<u8>>,
    shown: Seq<Seq<SpecValue>>,
)
    requires
        0 <= k < stmts.len(),
        batch_done(cat, pages, stmts.take(k), mc, mp, done),
        statement_run(mc, mp, stmts[k], cat2, pages2, Ok::<Seq<Seq<SpecValue>>, SpecDatabaseError>(shown)),
    ensures
        batch_done(cat, pages, stmts.take(k + 1), cat2, pages2, done.push(shown)),
{
    let t = stmts.take(k + 1);
    assert(t.drop_last() =~= stmts.take(k));
    assert(t.last() == stmts[k]);
    assert(done.push(shown).drop_last() =~= done);
    assert(done.len() == k);
    assert(statement_run(mc, mp, t.last(), cat2, pages2, Ok::<Seq<Seq<SpecValue>>, SpecDatabaseError>(done.push(shown).last())));
}

/// A statement that failed ends the batch with its error.
proof fn lemma_batch_fail(
    cat: Seq<SpecTable>,
    pages: Seq<Seq<u8>>,
    stmts: Seq<SpecStatement>,
    k: int,
    mc: Seq<SpecTable>,
    mp: Seq<Seq<u8>>,
    done: Seq<Seq<Seq<SpecValue>>>,
    cat2: Seq<SpecTable>,
    pages2: Seq<Seq<u8>>,
    e: SpecDatabaseError,
)
    requires
        0 <= k < stmts.len(),
        batch_done(cat, pages, stmts.take(k), mc, mp, done),
        statement_run(mc, mp, stmts[k], cat2, pages2, Err::<Seq<Seq<SpecValue>>, SpecDatabaseError>(e)),
    ensures
        batch_failed(cat, pages, stmts, cat2, pages2, e),
{
}

/// A SELECT changes nothing: running SQL text that parses as a SELECT
/// leaves the catalog and every page as they were, whatever it returns.
pub proof fn lemma_select_changes_nothing(
    cat: Seq<SpecTable>,
    pages: Seq<Seq<u8>>,
    input: Seq<char>,
    cat2: Seq<SpecTable>,
    pages2: Seq<Seq<u8>>,
    res: Result<Seq<Seq<SpecValue>>, SpecDatabaseError>,
)
    requires
        sql_run(cat, pages, input, cat2, pages2, res),
        spec_parse_sql(input) is Ok,
        spec_parse_sql(input)->Ok_0 is Select,
    ensures
        cat2 == cat,
        pages2 == pages,
{
    reveal(statement_run);
}

/// The values of the expressions `es` on a row, as a function on rows.
pub open spec fn project_row(es: Seq<SpecBound>) -> spec_fn(Seq<SpecValue>) -> Seq<SpecValue> {
    |row: Seq<SpecValue>| spec_eval_all(es, row)->Ok_0
}

/// A filtered stream that ends without an error read every row without an
/// error and kept exactly the rows that pass.
proof fn lemma_stream_filter_rows(s: Stream, f: SpecBound)
    requires
        stream_filter(s, f).error is None,
    ensures
        s.error is None,
        forall|i: int| 0 <= i < s.rows.len() ==> spec_matches(Some(f), #[trigger] s.rows[i]) is Ok,
        stream_filter(s, f).rows == s.rows.filter(passes_filter(Some(f))),
    decreases s.rows.len(),
{
    reveal(Seq::filter);
    if s.rows.len() > 0 {
        let tail = Stream { rows: s.rows.drop_first(), error: s.error };
        lemma_stream_filter_rows(tail, f);
        assert(s.rows =~= seq![s.rows[0]] + s.rows.drop_first());
        s.rows.drop_first().lemma_filter_prepend(s.rows[0], passes_filter(Some(f)));
        assert forall|i: int| 0 <= i < s.rows.len() implies spec_matches(Some(f), #[trigger] s.rows[i]) is Ok by {
            if i > 0 {
                assert(s.rows[i] == tail.rows[i - 1]);
            }
        }
    }
}

/// A projected stream that ends without an error evaluated the expressions
/// on every row without an error, and gives their values row by row.
proof fn lemma_stream_project_rows(s: Stream, es: Seq<SpecBound>)
    requires
        stream_project(s, es).error is None,
    ensures
        s.error is None,
        forall|i: int| 0 <= i < s.rows.len() ==> spec_eval_all(es, #[trigger] s.rows[i]) is Ok,
        stream_project(s, es).rows == s.rows.map_values(project_row(es)),
    decreases s.rows.len(),
{
    if s.rows.len() > 0 {
        let tail = Stream { rows: s.rows.drop_first(), error: s.error };
        lemma_stream_project_rows(tail, es);
        assert(s.rows.map_values(project_row(es)) =~= seq![project_row(es)(s.rows[0])]
            + tail.rows.map_values(project_row(es)));
        assert forall|i: int| 0 <= i < s.rows.len() implies spec_eval_all(es, #[trigger] s.rows[i]) is Ok by {
            if i > 0 {
                assert(s.rows[i] == tail.rows[i - 1]);
            }
        }
    }
}

/// A successful SELECT changes nothing and gives, in table order, the values
/// of its projections on exactly the rows that pass its filter (every row
/// without a filter); the filter and the projections were evaluated without
/// an error on every row they were asked of.
pub proof fn lemma_select_law(
    cat: Seq<SpecTable>,
    pages: Seq<Seq<u8>>,
    table: Seq<char>,
    projections: Seq<SpecBound>,
    filter: Option<SpecBound>,
    cat2: Seq<SpecTable>,
    pages2: Seq<Seq<u8>>,
    shown: Seq<Seq<SpecValue>>,
)
    requires
        bound_run(
            cat,
            pages,
            SpecBoundStatement::Select { table, projections, filter },
            cat2,
            pages2,
            Ok::<Seq<Seq<SpecValue>>, SpecDatabaseError>(shown),
        ),
    ensures
        cat2 == cat,
        pages2 == pages,
        spec_select_all(cat, pages, table) is Ok,
        ({
            let rows = spec_select_all(cat, pages, table)->Ok_0;
            &&& forall|i: int| 0 <= i < rows.len() ==> spec_matches(filter, #[trigger] rows[i]) is Ok
            &&& forall|i: int|
                0 <= i < rows.len() && passes(filter, #[trigger] rows[i]) ==> spec_eval_all(projections, rows[i]) is Ok
            &&& shown == rows.filter(passes_filter(filter)).map_values(project_row(projections))
        }),
{
    reveal(Seq::filter);
    let b = SpecBoundStatement::Select { table, projections, filter };
    let out = choose|out: Stream|
        #[trigger] statement_outcome(cat, pages, b, cat2, pages2, out) && drained(
            out,
            Ok::<Seq<Seq<SpecValue>>, SpecDatabaseError>(shown),
        );
    assert(statement_outcome(cat, pages, b, cat2, pages2, out));
    let rows = spec_select_all(cat, pages, table)->Ok_0;
    let scan = Stream { rows, error: None };
    let source = match filter {
        Some(f) => stream_filter(scan, f),
        None => scan,
    };
    lemma_stream_project_rows(source, projections);
    match filter {
        Some(f) => {
            lemma_stream_filter_rows(scan, f);
        },
        None => {
            lemma_filter_all(rows, passes_filter(filter));
        },
    }
    let kept = rows.filter(passes_filter(filter));
    assert forall|i: int|
        0 <= i < rows.len() && passes(filter, #[trigger] rows[i]) implies spec_eval_all(projections, rows[i]) is Ok by {
        rows.lemma_filter_contains(passes_filter(filter), i);
        let j = choose|j: int| 0 <= j < kept.len() && kept[j] == rows[i];
        assert(spec_eval_all(projections, kept[j]) is Ok);
    }
}

/// An UPDATE is all or nothing: when evaluating its assignments or filter,
/// or checking a changed row against the schema, fails on any row, no row
/// changes and the error is returned.
pub proof fn lemma_failed_update_changes_nothing(
    cat: Seq<SpecTable>,
    pages: Seq<Seq<u8>>,
    table: Seq<char>,
    assignments: Seq<SpecBoundAssignment>,
    filter: Option<SpecBound>,
    rows: Seq<Seq<SpecValue>>,
    cat2: Seq<SpecTable>,
    pages2: Seq<Seq<u8>>,
    res: Result<Seq<Seq<SpecValue>>, SpecDatabaseError>,
)
    requires
        bound_run(cat, pages, SpecBoundStatement::Update { table, assignments, filter }, cat2, pages2, res),
        spec_select_all(cat, pages, table) == Ok::<Seq<Seq<SpecValue>>, SpecDbError>(rows),
        update_rows(rows, filter, assignments, cat[find_table(cat, table)->0]) is Err,
    ensures
        cat2 == cat,
        pages2 == pages,
        res matches Err(e) && same_db_error(
            e,
            update_rows(rows, filter, assignments, cat[find_table(cat, table)->0])->Err_0,
        ),
{
    let b = SpecBoundStatement::Update { table, assignments, filter };
    let out = choose|out: Stream| #[trigger] statement_outcome(cat, pages, b, cat2, pages2, out) && drained(out, res);
    assert(statement_outcome(cat, pages, b, cat2, pages2, out));
}

/// A DELETE is all or nothing: when its filter fails on any row, no row is
/// removed and the error is returned.
pub proof fn lemma_failed_delete_changes_nothing(
    cat: Seq<SpecTable>,
    pages: Seq<Seq<u8>>,
    table: Seq<char>,
    filter: Option<SpecBound>,
    rows: Seq<Seq<SpecValue>>,
    cat2: Seq<SpecTable>,
    pages2: Seq<Seq<u8>>,
    res: Result<Seq<Seq<SpecValue>>, SpecDatabaseError>,
)
    requires
        bound_run(cat, pages, SpecBoundStatement::Delete { table, filter }, cat2, pages2, res),
        spec_select_all(cat, pages, table) == Ok::<Seq<Seq<SpecValue>>, SpecDbError>(rows),
        delete_rows(rows, filter) is Err,
    ensures
        cat2 == cat,
        pages2 == pages,
        res matches Err(e) && same_db_error(e, delete_rows(rows, filter)->Err_0),
{
    let b = SpecBoundStatement::Delete { table, filter };
    let out = choose|out: Stream| #[trigger] statement_outcome(cat, pages, b, cat2, pages2, out) && drained(out, res);
    assert(statement_outcome(cat, pages, b, cat2, pages2, out));
}

/// An INSERT that succeeded shows the row it stored, and afterwards the
/// table reads back its earlier rows with that row among them.
pub proof fn lemma_insert_statement_then_select(
    before: Database,
    after: Database,
    table: Seq<char>,
    values: Seq<SpecBound>,
    shown: Seq<Seq<SpecValue>>,
    rows: Seq<Seq<SpecValue>>,
)
    requires
        before.wf(),
        bound_run(
            before.catalog(),
            before.pages(),
            SpecBoundStatement::Insert { table, values },
            after.catalog(),
            after.pages(),
            Ok::<Seq<Seq<SpecValue>>, SpecDatabaseError>(shown),
        ),
        spec_select_all(before.catalog(), before.pages(), table) == Ok::<Seq<Seq<SpecValue>>, SpecDbError>(rows),
    ensures
        spec_eval_all(values, Seq::empty()) is Ok,
        shown == seq![spec_eval_all(values, Seq::empty())->Ok_0],
        exists|k: int|
            0 <= k <= rows.len() && #[trigger] rows.insert(k, spec_eval_all(values, Seq::empty())->Ok_0)
                == spec_select_all(after.catalog(), after.pages(), table)->Ok_0 && spec_select_all(
                after.catalog(),
                after.pages(),
                table,
            ) is Ok,
{
    let cat = before.catalog();
    let pages = before.pages();
    let b = SpecBoundStatement::Insert { table, values };
    let out = choose|out: Stream|
        #[trigger] statement_outcome(cat, pages, b, after.catalog(), after.pages(), out) && drained(
            out,
            Ok::<Seq<Seq<SpecValue>>, SpecDatabaseError>(shown),
        );
    assert(statement_outcome(cat, pages, b, after.catalog(), after.pages(), out));
    let vs = spec_eval_all(values, Seq::empty())->Ok_0;
    let ir = choose|ir: Result<RecordId, DbError>|
        #[trigger] insert_step(cat, pages, table, vs, after.catalog(), after.pages(), ir, out);
    assert(insert_step(cat, pages, table, vs, after.catalog(), after.pages(), ir, out));
    let rid = ir->Ok_0;
    assert(ir == Ok::<RecordId, DbError>(rid));
    crate::storage::properties::lemma_insert_then_select(before, after, table, vs, rid, rows);
}

/// A statement that succeeded leaves the catalog page holding the catalog,
/// when it did before: every change of the catalog that succeeds is
/// written to its page.
pub proof fn lemma_statement_keeps_catalog_page(
    cat: Seq<SpecTable>,
    pages: Seq<Seq<u8>>,
    b: SpecBoundStatement,
    cat2: Seq<SpecTable>,
    pages2: Seq<Seq<u8>>,
    shown: Seq<Seq<SpecValue>>,
)
    requires
        bound_run(cat, pages, b, cat2, pages2, Ok::<Seq<Seq<SpecValue>>, SpecDatabaseError>(shown)),
        catalog_page_holds(cat, pages),
    ensures
        catalog_page_holds(cat2, pages2),
{
    reveal(inserted);
    reveal(replaced);
    let out = choose|out: Stream|
        #[trigger] statement_outcome(cat, pages, b, cat2, pages2, out) && drained(
            out,
            Ok::<Seq<Seq<SpecValue>>, SpecDatabaseError>(shown),
        );
    assert(statement_outcome(cat, pages, b, cat2, pages2, out));
    match b {
        SpecBoundStatement::CreateTable { table, columns } => {
            let cols = created_columns(columns);
            if names_distinct(cols) {
                let cr = choose|cr: Result<(), DbError>| #[trigger] create_step(cat, pages, table, cols, cat2, pages2, cr, out);
                assert(create_step(cat, pages, table, cols, cat2, pages2, cr, out));
            }
        },
        SpecBoundStatement::Insert { table, values } => {
            if spec_eval_all(values, Seq::empty()) is Ok {
                let vs = spec_eval_all(values, Seq::empty())->Ok_0;
                let ir = choose|ir: Result<RecordId, DbError>|
                    #[trigger] insert_step(cat, pages, table, vs, cat2, pages2, ir, out);
                assert(insert_step(cat, pages, table, vs, cat2, pages2, ir, out));
            }
        },
        SpecBoundStatement::Select { .. } => {},
        SpecBoundStatement::Update { table, assignments, filter } => {
            if spec_select_all(cat, pages, table) is Ok {
                let rows = spec_select_all(cat, pages, table)->Ok_0;
                let t = cat[find_table(cat, table)->0];
                if update_rows(rows, filter, assignments, t) is Ok {
                    let (all, changed) = update_rows(rows, filter, assignments, t)->Ok_0;
                    if changed.len() > 0 {
                        let rr = choose|rr: Result<(), DbError>|
                            #[trigger] replace_step(cat, pages, table, all, cat2, pages2, rr, changed, out);
                        assert(replace_step(cat, pages, table, all, cat2, pages2, rr, changed, out));
                    }
                }
            }
        },
        SpecBoundStatement::Delete { table, filter } => {
            if spec_select_all(cat, pages, table) is Ok {
                let rows = spec_select_all(cat, pages, table)->Ok_0;
                if delete_rows(rows, filter) is Ok {
                    let (kept, deleted) = delete_rows(rows, filter)->Ok_0;
                    if deleted.len() > 0 {
                        let rr = choose|rr: Result<(), DbError>|
                            #[trigger] replace_step(cat, pages, table, kept, cat2, pages2, rr, deleted, out);
                        assert(replace_step(cat, pages, table, kept, cat2, pages2, rr, deleted, out));
                    }
                }
            }
        },
    }
}

/// SQL text that ran without error leaves the catalog page holding the
/// catalog, when it did before.
pub proof fn lemma_sql_keeps_catalog_page(
    cat: Seq<SpecTable>,
    pages: Seq<Seq<u8>>,
    input: Seq<char>,
    cat2: Seq<SpecTable>,
    pages2: Seq<Seq<u8>>,
    shown: Seq<Seq<SpecValue>>,
)
    requires
        sql_run(cat, pages, input, cat2, pages2, Ok::<Seq<Seq<SpecValue>>, SpecDatabaseError>(shown)),
        catalog_page_holds(cat, pages),
    ensures
        catalog_page_holds(cat2, pages2),
{
    reveal(statement_run);
    let s = spec_parse_sql(input)->Ok_0;
    let b = spec_bind(cat, s)->Ok_0;
    lemma_statement_keeps_catalog_page(cat, pages, b, cat2, pages2, shown);
}

/// A batch that ran without error leaves the catalog page holding the
/// catalog, when it did before.
pub proof fn lemma_batch_keeps_catalog_page(
    cat: Seq<SpecTable>,
    pages: Seq<Seq<u8>>,
    stmts: Seq<SpecStatement>,
    cat2: Seq<SpecTable>,
    pages2: Seq<Seq<u8>>,
    results: Seq<Seq<Seq<SpecValue>>>,
)
    requires
        batch_done(cat, pages, stmts, cat2, pages2, results),
        catalog_page_holds(cat, pages),
    ensures
        catalog_page_holds(cat2, pages2),
    decreases stmts.len(),
{
    if stmts.len() > 0 {
        let (mc, mp): (Seq<SpecTable>, Seq<Seq<u8>>) = choose|mc: Seq<SpecTable>, mp: Seq<Seq<u8>>|
            #[trigger] statement_run(
                mc,
                mp,
                stmts.last(),
                cat2,
                pages2,
                Ok::<Seq<Seq<SpecValue>>, SpecDatabaseError>(results.last()),
            ) && batch_done(cat, pages, stmts.drop_last(), mc, mp, results.drop_last());
        lemma_batch_keeps_catalog_page(cat, pages, stmts.drop_last(), mc, mp, results.drop_last());
        reveal(statement_run);
        let b = spec_bind(mc, stmts.last())->Ok_0;
        lemma_statement_keeps_catalog_page(mc, mp, b, cat2, pages2, results.last());
    }
}

/// An UPDATE keeps every row: it gives back as many rows as it was given.
proof fn lemma_update_rows_len(
    rows: Seq<Seq<SpecValue>>,
    filter: Option<SpecBound>,
    asg: Seq<SpecBoundAssignment>,
    t: SpecTable,
)
    requires
        update_rows(rows, filter, asg, t) is Ok,
    ensures
        update_rows(rows, filter, asg, t)->Ok_0.0.len() == rows.len(),
    decreases rows.len(),
{
    if rows.len() > 0 {
        lemma_update_rows_len(rows.drop_last(), filter, asg, t);
    }
}

/// A DELETE keeps at most the rows it was given.
proof fn lemma_delete_rows_len(rows: Seq<Seq<SpecValue>>, filter: Option<SpecBound>)
    requires
        delete_rows(rows, filter) is Ok,
    ensures
        delete_rows(rows, filter)->Ok_0.0.len() <= rows.len(),
    decreases rows.len(),
{
    if rows.len() > 0 {
        lemma_delete_rows_len(rows.drop_last(), filter);
    }
}

/// A table never reads as more rows than its row count can hold.
proof fn lemma_select_all_len(cat: Seq<SpecTable>, pages: Seq<Seq<u8>>, name: Seq<char>)
    requires
        spec_select_all(cat, pages, name) is Ok,
    ensures
        spec_select_all(cat, pages, name)->Ok_0.len() <= u64::MAX,
{
}

/// An UPDATE that succeeded shows the rows it changed, and afterwards the
/// table reads back as every row after the update, each as often as it
/// occurs (first-fit may store them in another order). An UPDATE that
/// changed no row changes nothing.
pub proof fn lemma_update_then_select(
    before: Database,
    after: Database,
    table: Seq<char>,
    assignments: Seq<SpecBoundAssignment>,
    filter: Option<SpecBound>,
    shown: Seq<Seq<SpecValue>>,
)
    requires
        before.wf(),
        bound_run(
            before.catalog(),
            before.pages(),
            SpecBoundStatement::Update { table, assignments, filter },
            after.catalog(),
            after.pages(),
            Ok::<Seq<Seq<SpecValue>>, SpecDatabaseError>(shown),
        ),
    ensures
        spec_select_all(before.catalog(), before.pages(), table) is Ok,
        ({
            let rows = spec_select_all(before.catalog(), before.pages(), table)->Ok_0;
            let t = before.catalog()[find_table(before.catalog(), table)->0];
            &&& update_rows(rows, filter, assignments, t) is Ok
            &&& shown == update_rows(rows, filter, assignments, t)->Ok_0.1
            &&& if shown.len() == 0 {
                after.catalog() == before.catalog() && after.pages() == before.pages()
            } else {
                &&& spec_select_all(after.catalog(), after.pages(), table) is Ok
                &&& spec_select_all(after.catalog(), after.pages(), table)->Ok_0.to_multiset()
                    == update_rows(rows, filter, assignments, t)->Ok_0.0.to_multiset()
            }
        }),
{
    let cat = before.catalog();
    let pages = before.pages();
    let b = SpecBoundStatement::Update { table, assignments, filter };
    let out = choose|out: Stream|
        #[trigger] statement_outcome(cat, pages, b, after.catalog(), after.pages(), out) && drained(
            out,
            Ok::<Seq<Seq<SpecValue>>, SpecDatabaseError>(shown),
        );
    assert(statement_outcome(cat, pages, b, after.catalog(), after.pages(), out));
    let rows = spec_select_all(cat, pages, table)->Ok_0;
    let t = cat[find_table(cat, table)->0];
    let (all, changed) = update_rows(rows, filter, assignments, t)->Ok_0;
    if changed.len() > 0 {
        let rr = choose|rr: Result<(), DbError>|
            #[trigger] replace_step(cat, pages, table, all, after.catalog(), after.pages(), rr, changed, out);
        assert(replace_step(cat, pages, table, all, after.catalog(), after.pages(), rr, changed, out));
        assert(rr is Ok);
        assert(rr->Ok_0 == ());
        assert(rr == Ok::<(), DbError>(()));
        lemma_select_all_len(cat, pages, table);
        lemma_update_rows_len(rows, filter, assignments, t);
        crate::storage::properties::lemma_replace_then_select(before, after, table, all);
    }
}

/// A DELETE that succeeded shows the rows it removed, and afterwards the
/// table reads back as the rows it kept, each as often as it occurs
/// (first-fit may store them in another order). A DELETE that removed no
/// row changes nothing.
pub proof fn lemma_delete_then_select(
    before: Database,
    after: Database,
    table: Seq<char>,
    filter: Option<SpecBound>,
    shown: Seq<Seq<SpecValue>>,
)
    requires
        before.wf(),
        bound_run(
            before.catalog(),
            before.pages(),
            SpecBoundStatement::Delete { table, filter },
            after.catalog(),
            after.pages(),
            Ok::<Seq<Seq<SpecValue>>, SpecDatabaseError>(shown),
        ),
    ensures
        spec_select_all(before.catalog(), before.pages(), table) is Ok,
        ({
            let rows = spec_select_all(before.catalog(), before.pages(), table)->Ok_0;
            &&& delete_rows(rows, filter) is Ok
            &&& shown == delete_rows(rows, filter)->Ok_0.1
            &&& if shown.len() == 0 {
                after.catalog() == before.catalog() && after.pages() == before.pages()
            } else {
                &&& spec_select_all(after.catalog(), after.pages(), table) is Ok
                &&& spec_select_all(after.catalog(), after.pages(), table)->Ok_0.to_multiset() == delete_rows(
                    rows,
                    filter,
                )->Ok_0.0.to_multiset()
            }
        }),
{
    let cat = before.catalog();
    let pages = before.pages();
    let b = SpecBoundStatement::Delete { table, filter };
    let out = choose|out: Stream|
        #[trigger] statement_outcome(cat, pages, b, after.catalog(), after.pages(), out) && drained(
            out,
            Ok::<Seq<Seq<SpecValue>>, SpecDatabaseError>(shown),
        );
    assert(statement_outcome(cat, pages, b, after.catalog(), after.pages(), out));
    let rows = spec_select_all(cat, pages, table)->Ok_0;
    let (kept, deleted) = delete_rows(rows, filter)->Ok_0;
    if deleted.len() > 0 {
        let rr = choose|rr: Result<(), DbError>|
            #[trigger] replace_step(cat, pages, table, kept, after.catalog(), after.pages(), rr, deleted, out);
        assert(replace_step(cat, pages, table, kept, after.catalog(), after.pages(), rr, deleted, out));
        assert(rr is Ok);
        assert(rr->Ok_0 == ());
        assert(rr == Ok::<(), DbError>(()));
        lemma_select_all_len(cat, pages, table);
        lemma_delete_rows_len(rows, filter);
        crate::storage::properties::lemma_replace_then_select(before, after, table, kept);
    }
}

/// A row passes a WHERE filter: the filter is true on it.
pub open spec fn passes(filter: Option<SpecBound>, row: Seq<SpecValue>) -> bool {
    spec_matches(filter, row) == Ok::<bool, SpecDatabaseError>(true)
}

/// Whether a row passes `filter`, as a predicate.
pub open spec fn passes_filter(filter: Option<SpecBound>) -> spec_fn(Seq<SpecValue>) -> bool {
    |row: Seq<SpecValue>| passes(filter, row)
}

/// Whether a row does not pass `filter`, as a predicate.
pub open spec fn fails_filter(filter: Option<SpecBound>) -> spec_fn(Seq<SpecValue>) -> bool {
    |row: Seq<SpecValue>| !passes(filter, row)
}

/// The row after the assignments, each value computed on the row as it was.
pub open spec fn assigned(row: Seq<SpecValue>, asg: Seq<SpecBoundAssignment>) -> Seq<SpecValue> {
    assign_all(row, row, asg)->Ok_0
}

/// Assigning, as a function on rows.
pub open spec fn assign_row(asg: Seq<SpecBoundAssignment>) -> spec_fn(Seq<SpecValue>) -> Seq<SpecValue> {
    |row: Seq<SpecValue>| assigned(row, asg)
}

/// What an UPDATE makes of one row: its assigned version if it passes the
/// filter, the row itself otherwise.
pub open spec fn update_row(filter: Option<SpecBound>, asg: Seq<SpecBoundAssignment>) -> spec_fn(
    Seq<SpecValue>,
) -> Seq<SpecValue> {
    |row: Seq<SpecValue>| if passes(filter, row) { assigned(row, asg) } else { row }
}

/// The position of the last assignment to column `j`, if any.
pub open spec fn last_assignment_to(asg: Seq<SpecBoundAssignment>, j: int) -> Option<int>
    decreases asg.len(),
{
    if asg.len() == 0 {
        None
    } else if asg.last().column_index == j {
        Some(asg.len() - 1)
    } else {
        last_assignment_to(asg.drop_last(), j)
    }
}

/// Assignments read the row as it was: after them, a column that some
/// assignment names holds the value of the last such assignment, computed on
/// the original row, and every other column keeps its value.
pub proof fn lemma_assignments_read_old_row(
    updated: Seq<SpecValue>,
    original: Seq<SpecValue>,
    asg: Seq<SpecBoundAssignment>,
)
    requires
        assign_all(updated, original, asg) is Ok,
    ensures
        ({
            let u = assign_all(updated, original, asg)->Ok_0;
            &&& u.len() == updated.len()
            &&& forall|j: int|
                0 <= j < u.len() ==> match #[trigger] last_assignment_to(asg, j) {
                    Some(k) => 0 <= k < asg.len() && spec_eval(asg[k].value, original) == Ok::<
                        SpecValue,
                        SpecDatabaseError,
                    >(u[j]),
                    None => u[j] == updated[j],
                }
        }),
    decreases asg.len(),
{
    if asg.len() > 0 {
        let init = asg.drop_last();
        lemma_assignments_read_old_row(updated, original, init);
        let u0 = assign_all(updated, original, init)->Ok_0;
        let u = assign_all(updated, original, asg)->Ok_0;
        assert forall|j: int| 0 <= j < u.len() implies match #[trigger] last_assignment_to(asg, j) {
            Some(k) => 0 <= k < asg.len() && spec_eval(asg[k].value, original) == Ok::<
                SpecValue,
                SpecDatabaseError,
            >(u[j]),
            None => u[j] == updated[j],
        } by {
            if asg.last().column_index != j {
                assert(u[j] == u0[j]);
                assert(last_assignment_to(asg, j) == last_assignment_to(init, j));
                match last_assignment_to(init, j) {
                    Some(k) => {
                        assert(asg[k] == init[k]);
                    },
                    None => {},
                }
            }
        }
    }
}

/// What the row-by-row UPDATE gives, stated row by row.
proof fn lemma_update_rows_shape(
    rows: Seq<Seq<SpecValue>>,
    filter: Option<SpecBound>,
    asg: Seq<SpecBoundAssignment>,
    t: SpecTable,
)
    requires
        update_rows(rows, filter, asg, t) is Ok,
    ensures
        forall|i: int| 0 <= i < rows.len() ==> spec_matches(filter, #[trigger] rows[i]) is Ok,
        update_rows(rows, filter, asg, t)->Ok_0.0 == rows.map_values(update_row(filter, asg)),
        update_rows(rows, filter, asg, t)->Ok_0.1 == rows.filter(passes_filter(filter)).map_values(
            assign_row(asg),
        ),
    decreases rows.len(),
{
    reveal(Seq::filter);
    if rows.len() > 0 {
        let init = rows.drop_last();
        let x = rows.last();
        lemma_update_rows_shape(init, filter, asg, t);
        assert(rows.map_values(update_row(filter, asg)) =~= init.map_values(update_row(filter, asg)).push(
            update_row(filter, asg)(x),
        ));
        assert forall|i: int| 0 <= i < rows.len() implies spec_matches(filter, #[trigger] rows[i]) is Ok by {
            if i < rows.len() - 1 {
                assert(rows[i] == init[i]);
            }
        }
        if passes(filter, x) {
            assert(rows.filter(passes_filter(filter)) == init.filter(passes_filter(filter)).push(x));
            assert(init.filter(passes_filter(filter)).push(x).map_values(assign_row(asg))
                =~= init.filter(passes_filter(filter)).map_values(assign_row(asg)).push(assigned(x, asg)));
        } else {
            assert(rows.filter(passes_filter(filter)) == init.filter(passes_filter(filter)));
        }
    }
}

/// What the row-by-row DELETE gives, stated row by row.
proof fn lemma_delete_rows_shape(rows: Seq<Seq<SpecValue>>, filter: Option<SpecBound>)
    requires
        delete_rows(rows, filter) is Ok,
    ensures
        forall|i: int| 0 <= i < rows.len() ==> spec_matches(filter, #[trigger] rows[i]) is Ok,
        delete_rows(rows, filter)->Ok_0.0 == rows.filter(fails_filter(filter)),
        delete_rows(rows, filter)->Ok_0.1 == rows.filter(passes_filter(filter)),
    decreases rows.len(),
{
    reveal(Seq::filter);
    if rows.len() > 0 {
        let init = rows.drop_last();
        lemma_delete_rows_shape(init, filter);
        assert forall|i: int| 0 <= i < rows.len() implies spec_matches(filter, #[trigger] rows[i]) is Ok by {
            if i < rows.len() - 1 {
                assert(rows[i] == init[i]);
            }
        }
    }
}

/// The rows that pass a filter and those that do not make up all the rows.
proof fn lemma_filter_split(rows: Seq<Seq<SpecValue>>, filter: Option<SpecBound>)
    ensures
        rows.filter(passes_filter(filter)).to_multiset().add(rows.filter(fails_filter(filter)).to_multiset())
            =~= rows.to_multiset(),
    decreases rows.len(),
{
    broadcast use vstd::seq_lib::group_to_multiset_ensures;

    reveal(Seq::filter);
    if rows.len() == 0 {
        assert(rows.to_multiset().len() == 0);
    } else {
        let init = rows.drop_last();
        let x = rows.last();
        lemma_filter_split(init, filter);
        assert(init.push(x) =~= rows);
        vstd::seq_lib::to_multiset_build(init, x);
        vstd::seq_lib::to_multiset_build(init.filter(passes_filter(filter)), x);
        vstd::seq_lib::to_multiset_build(init.filter(fails_filter(filter)), x);
    }
}

/// After a successful UPDATE, the table holds the old rows with every row
/// that passes the filter replaced by its assigned version (each value
/// computed on the old row) and every other row as it was; the output is the
/// replaced rows, in table order. The table's rows are given as a multiset:
/// rewriting places them first-fit.
pub proof fn lemma_update_law(
    before: Database,
    after: Database,
    table: Seq<char>,
    assignments: Seq<SpecBoundAssignment>,
    filter: Option<SpecBound>,
    shown: Seq<Seq<SpecValue>>,
)
    requires
        before.wf(),
        bound_run(
            before.catalog(),
            before.pages(),
            SpecBoundStatement::Update { table, assignments, filter },
            after.catalog(),
            after.pages(),
            Ok::<Seq<Seq<SpecValue>>, SpecDatabaseError>(shown),
        ),
    ensures
        spec_select_all(before.catalog(), before.pages(), table) is Ok,
        spec_select_all(after.catalog(), after.pages(), table) is Ok,
        ({
            let rows = spec_select_all(before.catalog(), before.pages(), table)->Ok_0;
            &&& forall|i: int| 0 <= i < rows.len() ==> spec_matches(filter, #[trigger] rows[i]) is Ok
            &&& shown == rows.filter(passes_filter(filter)).map_values(assign_row(assignments))
            &&& spec_select_all(after.catalog(), after.pages(), table)->Ok_0.to_multiset() == rows.map_values(
                update_row(filter, assignments),
            ).to_multiset()
        }),
{
    lemma_update_then_select(before, after, table, assignments, filter, shown);
    let rows = spec_select_all(before.catalog(), before.pages(), table)->Ok_0;
    let t = before.catalog()[find_table(before.catalog(), table)->0];
    lemma_update_rows_shape(rows, filter, assignments, t);
    if shown.len() == 0 {
        assert forall|i: int| 0 <= i < rows.len() implies !passes(filter, #[trigger] rows[i]) by {
            if passes(filter, rows[i]) {
                rows.lemma_filter_contains(passes_filter(filter), i);
            }
        }
        assert(rows.map_values(update_row(filter, assignments)) =~= rows);
    }
}

/// After a successful DELETE, the output is exactly the rows that pass the
/// filter, in table order, and the table keeps exactly the others: together
/// they make up the old rows. The kept rows are given as a multiset:
/// rewriting places them first-fit.
pub proof fn lemma_delete_law(
    before: Database,
    after: Database,
    table: Seq<char>,
    filter: Option<SpecBound>,
    shown: Seq<Seq<SpecValue>>,
)
    requires
        before.wf(),
        bound_run(
            before.catalog(),
            before.pages(),
            SpecBoundStatement::Delete { table, filter },
            after.catalog(),
            after.pages(),
            Ok::<Seq<Seq<SpecValue>>, SpecDatabaseError>(shown),
        ),
    ensures
        spec_select_all(before.catalog(), before.pages(), table) is Ok,
        spec_select_all(after.catalog(), after.pages(), table) is Ok,
        ({
            let rows = spec_select_all(before.catalog(), before.pages(), table)->Ok_0;
            let kept = spec_select_all(after.catalog(), after.pages(), table)->Ok_0;
            &&& forall|i: int| 0 <= i < rows.len() ==> spec_matches(filter, #[trigger] rows[i]) is Ok
            &&& shown == rows.filter(passes_filter(filter))
            &&& kept.to_multiset() == rows.filter(fails_filter(filter)).to_multiset()
            &&& forall|i: int| 0 <= i < shown.len() ==> passes(filter, #[trigger] shown[i])
            &&& forall|r: Seq<SpecValue>| #[trigger] kept.contains(r) ==> !passes(filter, r)
            &&& shown.to_multiset().add(kept.to_multiset()) == rows.to_multiset()
        }),
{
    lemma_delete_then_select(before, after, table, filter, shown);
    let rows = spec_select_all(before.catalog(), before.pages(), table)->Ok_0;
    lemma_delete_rows_shape(rows, filter);
    lemma_filter_split(rows, filter);
    let kept = spec_select_all(after.catalog(), after.pages(), table)->Ok_0;
    if shown.len() == 0 {
        assert forall|i: int| 0 <= i < rows.len() implies !passes(filter, #[trigger] rows[i]) by {
            if passes(filter, rows[i]) {
                rows.lemma_filter_contains(passes_filter(filter), i);
            }
        }
        reveal(Seq::filter);
        assert(rows.filter(fails_filter(filter)) =~= rows) by {
            lemma_filter_all(rows, fails_filter(filter));
        }
    }
    assert forall|i: int| 0 <= i < shown.len() implies passes(filter, #[trigger] shown[i]) by {
        rows.lemma_filter_pred(passes_filter(filter), i);
    }
    assert forall|r: Seq<SpecValue>| #[trigger] kept.contains(r) implies !passes(filter, r) by {
        kept.to_multiset_ensures();
        rows.filter(fails_filter(filter)).to_multiset_ensures();
        assert(kept.to_multiset().count(r) > 0);
        assert(rows.filter(fails_filter(filter)).to_multiset().count(r) > 0);
        assert(rows.filter(fails_filter(filter)).contains(r));
        rows.lemma_filter_contains_rev(fails_filter(filter), r);
    }
}

/// Filtering by a predicate that every element meets keeps them all.
proof fn lemma_filter_all(s: Seq<Seq<SpecValue>>, p: spec_fn(Seq<SpecValue>) -> bool)
    requires
        forall|i: int| 0 <= i < s.len() ==> p(#[trigger] s[i]),
    ensures
        s.filter(p) == s,
    decreases s.len(),
{
    reveal(Seq::filter);
    if s.len() > 0 {
        let init = s.drop_last();
        assert forall|i: int| 0 <= i < init.len() implies p(#[trigger] init[i]) by {
            assert(init[i] == s[i]);
        }
        lemma_filter_all(init, p);
        assert(init.push(s.last()) =~= s);
    }
}

impl Database {
    /// Parses, binds and runs one SQL statement.
    pub fn execute(&mut self, sql: &str) -> (r: Result<Vec<Row>, DatabaseError>)
        requires
            old(self).wf(),
        ensures
            final(self).wf(),
            sql_run(
                old(self).catalog(),
                old(self).pages(),
                sql@,
                final(self).catalog(),
                final(self).pages(),
                rows_result(r),
            ),
    {
        execute_sql(self, sql)
    }

    /// Parses and runs a batch of SQL statements, in order.
    pub fn execute_batch(&mut self, sql: &str) -> (r: Result<Vec<Vec<Row>>, DatabaseError>)
        requires
            old(self).wf(),
        ensures
            final(self).wf(),
            batch_run(
                old(self).catalog(),
                old(self).pages(),
                sql@,
                final(self).catalog(),
                final(self).pages(),
                batch_result(r),
            ),
    {
        execute_sql_batch(self, sql)
    }
}

} // verus!
