use super::error::{DbError, SpecDbError};
use crate::row::Row;
use crate::value::{spec_data_type, DataType, SpecValue, Value};
use vstd::prelude::*;

verus! {

/// A named, typed column of a table.
#[derive(Debug, PartialEq, Eq)]
pub struct Column {
    name: String,
    data_type: DataType,
    nullable: bool,
    identity: bool,
}

/// The content of a column description.
pub struct SpecColumn {
    pub name: Seq<char>,
    pub data_type: DataType,
    pub nullable: bool,
    pub identity: bool,
}

impl View for Column {
    type V = SpecColumn;

    closed spec fn view(&self) -> SpecColumn {
        SpecColumn {
            name: self.name@,
            data_type: self.data_type,
            nullable: self.nullable,
            identity: self.identity,
        }
    }
}

impl Column {
    pub fn new(name: &str, data_type: DataType, nullable: bool) -> (r: Self)
        ensures
            r@ == (SpecColumn { name: name@, data_type, nullable, identity: false }),
    {
        Column { name: name.to_owned(), data_type, nullable, identity: false }
    }

    pub fn required(name: &str, data_type: DataType) -> (r: Self)
        ensures
            r@ == (SpecColumn { name: name@, data_type, nullable: false, identity: false }),
    {
        Self::new(name, data_type, false)
    }

    pub fn nullable(name: &str, data_type: DataType) -> (r: Self)
        ensures
            r@ == (SpecColumn { name: name@, data_type, nullable: true, identity: false }),
    {
        Self::new(name, data_type, true)
    }

    /// An automatically generated, non-null integer column.
    pub fn identity(name: &str) -> (r: Self)
        ensures
            r@ == (SpecColumn {
                name: name@,
                data_type: DataType::Integer,
                nullable: false,
                identity: true,
            }),
    {
        Column { name: name.to_owned(), data_type: DataType::Integer, nullable: false, identity: true }
    }

    pub fn name(&self) -> (r: &str)
        ensures
            r@ == self@.name,
    {
        self.name.as_str()
    }

    pub fn data_type(&self) -> (r: DataType)
        ensures
            r == self@.data_type,
    {
        self.data_type
    }

    pub fn is_nullable(&self) -> (r: bool)
        ensures
            r == self@.nullable,
    {
        self.nullable
    }

    pub fn is_identity(&self) -> (r: bool)
        ensures
            r == self@.identity,
    {
        self.identity
    }

}

impl Clone for Column {
    fn clone(&self) -> (r: Self)
        ensures
            r@ == self@,
    {
        Column {
            name: self.name.clone(),
            data_type: self.data_type,
            nullable: self.nullable,
            identity: self.identity,
        }
    }
}

/// The contents of a sequence of columns.
pub open spec fn columns_view(columns: Seq<Column>) -> Seq<SpecColumn> {
    columns.map_values(|c: Column| c@)
}

/// Column `j` repeats the name of an earlier column.
pub open spec fn repeats_earlier_name(columns: Seq<SpecColumn>, j: int) -> bool {
    exists|i: int| 0 <= i < j && #[trigger] columns[i].name == columns[j].name
}

/// Column `j` is the first to repeat an earlier column's name.
pub open spec fn is_first_repeat(columns: Seq<SpecColumn>, j: int) -> bool {
    &&& 0 <= j < columns.len()
    &&& repeats_earlier_name(columns, j)
    &&& forall|k: int| 0 <= k < j ==> !repeats_earlier_name(columns, k)
}

/// `e` reports the first repeated column name.
pub open spec fn is_duplicate_error(columns: Seq<SpecColumn>, e: SpecDbError) -> bool {
    exists|j: int|
        is_first_repeat(columns, j) && e == (SpecDbError::DuplicateColumn { column: columns[j].name })
}

/// No two columns share a name.
pub open spec fn names_distinct(columns: Seq<SpecColumn>) -> bool {
    forall|i: int, j: int|
        0 <= i < columns.len() && 0 <= j < columns.len() && i != j ==> #[trigger] columns[i].name
            != #[trigger] columns[j].name
}

/// The position of the first column named `name` at or after `start`.
pub open spec fn find_column_from(columns: Seq<SpecColumn>, name: Seq<char>, start: int) -> Option<
    int,
>
    decreases columns.len() - start,
{
    if start < 0 || start >= columns.len() {
        None
    } else if columns[start].name == name {
        Some(start)
    } else {
        find_column_from(columns, name, start + 1)
    }
}

/// The position of the first column named `name`.
pub open spec fn find_column(columns: Seq<SpecColumn>, name: Seq<char>) -> Option<int> {
    find_column_from(columns, name, 0)
}

/// An executable position that stands for a mathematical one.
pub open spec fn same_position(r: Option<usize>, s: Option<int>) -> bool {
    match r {
        Some(i) => s == Some(i as int),
        None => s is None,
    }
}

/// What `find_column_from` returns: the first match at or after `start`.
pub proof fn lemma_find_column_from(columns: Seq<SpecColumn>, name: Seq<char>, start: int)
    requires
        0 <= start <= columns.len(),
    ensures
        find_column_from(columns, name, start) is Some ==> {
            let i = find_column_from(columns, name, start)->0;
            &&& start <= i < columns.len()
            &&& columns[i].name == name
            &&& forall|k: int| start <= k < i ==> #[trigger] columns[k].name != name
        },
        find_column_from(columns, name, start) is None ==> forall|k: int|
            start <= k < columns.len() ==> #[trigger] columns[k].name != name,
    decreases columns.len() - start,
{
    if start < columns.len() {
        if columns[start].name != name {
            lemma_find_column_from(columns, name, start + 1);
        }
    }
}

/// The error, if any, of storing `v` in column `c` of table `table`.
pub open spec fn check_value(table: Seq<char>, c: SpecColumn, v: SpecValue) -> Option<SpecDbError> {
    match spec_data_type(v) {
        None => if !c.nullable {
            Some(SpecDbError::NullNotAllowed { table, column: c.name })
        } else {
            None
        },
        Some(actual) => if actual != c.data_type {
            Some(
                SpecDbError::TypeMismatch {
                    table,
                    column: c.name,
                    expected: c.data_type,
                    actual,
                },
            )
        } else {
            None
        },
    }
}

/// The error of the first column, from `start` on, whose value does not fit it.
pub open spec fn first_value_error(
    table: Seq<char>,
    columns: Seq<SpecColumn>,
    values: Seq<SpecValue>,
    start: int,
) -> Option<SpecDbError>
    decreases columns.len() - start,
{
    if start < 0 || start >= columns.len() {
        None
    } else {
        match check_value(table, columns[start], values[start]) {
            Some(e) => Some(e),
            None => first_value_error(table, columns, values, start + 1),
        }
    }
}

/// The error, if any, of storing a row with `values` in a table with `columns`.
pub open spec fn check_row(table: Seq<char>, columns: Seq<SpecColumn>, values: Seq<SpecValue>) -> Option<
    SpecDbError,
> {
    if values.len() != columns.len() {
        Some(
            SpecDbError::WrongColumnCount {
                table,
                expected: columns.len() as usize,
                actual: values.len() as usize,
            },
        )
    } else {
        first_value_error(table, columns, values, 0)
    }
}

/// From `start` on, no value of a row that passes holds a value of another
/// type than its column.
proof fn lemma_no_value_error_from(table: Seq<char>, columns: Seq<SpecColumn>, values: Seq<SpecValue>, start: int)
    requires
        0 <= start,
        first_value_error(table, columns, values, start) is None,
    ensures
        forall|j: int|
            start <= j < columns.len() ==> spec_data_type(#[trigger] values[j]) is None || spec_data_type(
                values[j],
            ) == Some(columns[j].data_type),
    decreases columns.len() - start,
{
    if start < columns.len() {
        lemma_no_value_error_from(table, columns, values, start + 1);
    }
}

/// A row that its table accepts has one value per column, each NULL or of
/// its column's type.
pub proof fn lemma_valid_row_types(table: Seq<char>, columns: Seq<SpecColumn>, values: Seq<SpecValue>)
    requires
        check_row(table, columns, values) is None,
    ensures
        values.len() == columns.len(),
        forall|j: int|
            0 <= j < values.len() ==> spec_data_type(#[trigger] values[j]) is None || spec_data_type(
                values[j],
            ) == Some(columns[j].data_type),
{
    lemma_no_value_error_from(table, columns, values, 0);
}

/// A value fits a column: NULL where the column allows it, or a value of the
/// column's type.
pub open spec fn value_fits(c: SpecColumn, v: SpecValue) -> bool {
    match v {
        SpecValue::Null => c.nullable,
        SpecValue::Integer(_) => c.data_type == DataType::Integer,
        SpecValue::Boolean(_) => c.data_type == DataType::Boolean,
        SpecValue::Text(_) => c.data_type == DataType::Text,
    }
}

/// From `start` on, every value fits its column exactly when no error is found.
proof fn lemma_first_value_error_fits(
    table: Seq<char>,
    columns: Seq<SpecColumn>,
    values: Seq<SpecValue>,
    start: int,
)
    requires
        0 <= start,
        values.len() == columns.len(),
    ensures
        first_value_error(table, columns, values, start) is None <==> forall|j: int|
            start <= j < columns.len() ==> value_fits(columns[j], #[trigger] values[j]),
    decreases columns.len() - start,
{
    if start < columns.len() {
        lemma_first_value_error_fits(table, columns, values, start + 1);
    }
}

/// A table accepts a row exactly when the row has one value per column and
/// every value fits its column.
pub proof fn lemma_row_accepted(table: Seq<char>, columns: Seq<SpecColumn>, values: Seq<SpecValue>)
    ensures
        check_row(table, columns, values) is None <==> values.len() == columns.len() && forall|j: int|
            0 <= j < values.len() ==> value_fits(columns[j], #[trigger] values[j]),
{
    if values.len() == columns.len() {
        lemma_first_value_error_fits(table, columns, values, 0);
    }
}

/// The ordered columns of a table. Column names are unique.
#[derive(Debug, PartialEq, Eq)]
pub struct Schema {
    columns: Vec<Column>,
}

impl View for Schema {
    type V = Seq<SpecColumn>;

    closed spec fn view(&self) -> Seq<SpecColumn> {
        columns_view(self.columns@)
    }
}

impl Clone for Schema {
    fn clone(&self) -> (r: Self)
        ensures
            r@ == self@,
    {
        proof {
            use_type_invariant(self);
        }
        let mut columns: Vec<Column> = Vec::new();
        let mut i: usize = 0;
        while i < self.columns.len()
            invariant
                i <= self.columns@.len(),
                columns@.len() == i,
                forall|j: int| 0 <= j < i ==> columns@[j]@ == self.columns@[j]@,
            decreases self.columns@.len() - i,
        {
            columns.push(self.columns[i].clone());
            i += 1;
        }
        assert(columns_view(columns@) =~= columns_view(self.columns@));
        Schema { columns }
    }
}

impl Schema {
    /// No two columns share a name.
    #[verifier::type_invariant]
    pub closed spec fn distinct(&self) -> bool {
        names_distinct(columns_view(self.columns@))
    }

    /// What `distinct` says of the columns.
    pub proof fn lemma_distinct(s: Schema)
        requires
            s.distinct(),
        ensures
            names_distinct(s@),
    {
    }

    /// Builds a schema; fails on the first column whose name was already used.
    pub fn new(columns: Vec<Column>) -> (r: Result<Self, DbError>)
        ensures
            r is Ok <==> names_distinct(columns_view(columns@)),
            r matches Ok(s) ==> s@ == columns_view(columns@),
            r matches Err(e) ==> is_duplicate_error(columns_view(columns@), e@),
    {
        let ghost cv = columns_view(columns@);
        let mut j: usize = 0;
        while j < columns.len()
            invariant
                j <= columns@.len(),
                cv == columns_view(columns@),
                forall|k: int| 0 <= k < j ==> !repeats_earlier_name(cv, k),
            decreases columns@.len() - j,
        {
            let mut i: usize = 0;
            while i < j
                invariant
                    i <= j < columns@.len(),
                    cv == columns_view(columns@),
                    forall|k: int| 0 <= k < i ==> cv[k].name != cv[j as int].name,
                    forall|k: int| 0 <= k < j ==> !repeats_earlier_name(cv, k),
                decreases j - i,
            {
                if columns[i].name == columns[j].name {
                    assert(cv[i as int].name == cv[j as int].name);
                    assert(is_first_repeat(cv, j as int));
                    let name = columns[j].name.clone();
                    return Err(DbError::DuplicateColumn { column: name });
                }
                i += 1;
            }
            j += 1;
        }
        assert forall|a: int, b: int|
            0 <= a < cv.len() && 0 <= b < cv.len() && a != b implies #[trigger] cv[a].name
            != #[trigger] cv[b].name by {
            if a < b {
                assert(!repeats_earlier_name(cv, b));
            } else {
                assert(!repeats_earlier_name(cv, a));
            }
        }
        Ok(Schema { columns })
    }

    pub fn columns(&self) -> (r: &[Column])
        ensures
            columns_view(r@) == self@,
            names_distinct(self@),
    {
        proof {
            use_type_invariant(self);
        }
        self.columns.as_slice()
    }

    pub fn len(&self) -> (r: usize)
        ensures
            r == self@.len(),
    {
        self.columns.len()
    }

    pub fn is_empty(&self) -> (r: bool)
        ensures
            r == (self@.len() == 0),
    {
        self.columns.len() == 0
    }

    /// The position of the column named `column_name`.
    pub fn column_index(&self, column_name: &str) -> (r: Option<usize>)
        ensures
            same_position(r, find_column(self@, column_name@)),
    {
        let ghost cv = self@;
        let target = column_name.to_owned();
        let mut i: usize = 0;
        while i < self.columns.len()
            invariant
                i <= cv.len(),
                cv == self@,
                target@ == column_name@,
                find_column(cv, column_name@) == find_column_from(cv, column_name@, i as int),
            decreases cv.len() - i,
        {
            if self.columns[i].name == target {
                return Some(i);
            }
            i += 1;
        }
        None
    }

    /// Checks that `value` may be stored in `column`.
    pub fn validate_value(&self, table_name: &str, column: &Column, value: &Value) -> (r: Result<
        (),
        DbError,
    >)
        ensures
            r is Ok <==> check_value(table_name@, column@, value@) is None,
            r matches Err(e) ==> check_value(table_name@, column@, value@) == Some(e@),
    {
        match value.data_type() {
            None => {
                if !column.is_nullable() {
                    Err(
                        DbError::NullNotAllowed {
                            table: table_name.to_owned(),
                            column: column.name.clone(),
                        },
                    )
                } else {
                    Ok(())
                }
            },
            Some(actual) => {
                if actual != column.data_type() {
                    Err(
                        DbError::TypeMismatch {
                            table: table_name.to_owned(),
                            column: column.name.clone(),
                            expected: column.data_type(),
                            actual,
                        },
                    )
                } else {
                    Ok(())
                }
            },
        }
    }

    /// Checks that `row` has one value of the right type for every column.
    pub fn validate_row(&self, table_name: &str, row: &Row) -> (r: Result<(), DbError>)
        ensures
            r is Ok <==> check_row(table_name@, self@, row@) is None,
            r matches Err(e) ==> check_row(table_name@, self@, row@) == Some(e@),
    {
        if row.len() != self.columns.len() {
            return Err(
                DbError::WrongColumnCount {
                    table: table_name.to_owned(),
                    expected: self.columns.len(),
                    actual: row.len(),
                },
            );
        }
        let values = row.values();
        let ghost cv = self@;
        let ghost vv = row@;
        let mut i: usize = 0;
        while i < self.columns.len()
            invariant
                i <= cv.len(),
                cv == self@,
                vv == row@,
                vv.len() == cv.len(),
                values@.len() == cv.len(),
                crate::row::values_view(values@) == vv,
                first_value_error(table_name@, cv, vv, 0) == first_value_error(
                    table_name@,
                    cv,
                    vv,
                    i as int,
                ),
            decreases cv.len() - i,
        {
            assert(values@[i as int]@ == vv[i as int]);
            self.validate_value(table_name, &self.columns[i], &values[i])?;
            i += 1;
        }
        Ok(())
    }
}

} // verus!
