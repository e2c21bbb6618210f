use vstd::prelude::*;

verus! {

/// The type of a column, and of every non-NULL value stored in one.
#[derive(Debug, Clone, Copy, PartialEq, Eq, Structural)]
pub enum DataType {
    Integer,
    Boolean,
    Text,
}

/// A single cell of a row.
#[derive(Debug, PartialEq, Eq)]
pub enum Value {
    Null,
    Integer(i64),
    Boolean(bool),
    Text(String),
}

/// The mathematical content of a `Value`: text is a sequence of characters.
pub enum SpecValue {
    Null,
    Integer(i64),
    Boolean(bool),
    Text(Seq<char>),
}

impl View for Value {
    type V = SpecValue;

    open spec fn view(&self) -> SpecValue {
        match self {
            Value::Null => SpecValue::Null,
            Value::Integer(i) => SpecValue::Integer(*i),
            Value::Boolean(b) => SpecValue::Boolean(*b),
            Value::Text(s) => SpecValue::Text(s@),
        }
    }
}

impl Clone for Value {
    fn clone(&self) -> (r: Self)
        ensures
            r@ == self@,
    {
        match self {
            Value::Null => Value::Null,
            Value::Integer(i) => Value::Integer(*i),
            Value::Boolean(b) => Value::Boolean(*b),
            Value::Text(s) => Value::Text(s.clone()),
        }
    }
}

/// The type of a value; NULL has none.
pub open spec fn spec_data_type(v: SpecValue) -> Option<DataType> {
    match v {
        SpecValue::Null => None,
        SpecValue::Integer(_) => Some(DataType::Integer),
        SpecValue::Boolean(_) => Some(DataType::Boolean),
        SpecValue::Text(_) => Some(DataType::Text),
    }
}

impl Value {
    pub fn data_type(&self) -> (r: Option<DataType>)
        ensures
            r == spec_data_type(self@),
    {
        match self {
            Value::Null => None,
            Value::Integer(_) => Some(DataType::Integer),
            Value::Boolean(_) => Some(DataType::Boolean),
            Value::Text(_) => Some(DataType::Text),
        }
    }

    /// Builds a text value holding a copy of `value`.
    pub fn text(value: &str) -> (r: Self)
        ensures
            r@ == SpecValue::Text(value@),
    {
        Value::Text(value.to_owned())
    }

    /// Whether two values are equal: same variant and same content.
    pub fn same_as(&self, other: &Value) -> (r: bool)
        ensures
            r == (self@ == other@),
    {
        match (self, other) {
            (Value::Null, Value::Null) => true,
            (Value::Integer(a), Value::Integer(b)) => *a == *b,
            (Value::Boolean(a), Value::Boolean(b)) => *a == *b,
            (Value::Text(a), Value::Text(b)) => *a == *b,
            _ => false,
        }
    }
}

/// How a value is shown to a person: NULL, the number, true or false, or
/// the text itself.
pub open spec fn value_text(v: SpecValue) -> Seq<char> {
    match v {
        SpecValue::Null => "NULL"@,
        SpecValue::Integer(i) => crate::text::signed_decimal(i as int),
        SpecValue::Boolean(b) => crate::text::bool_text(b),
        SpecValue::Text(t) => t,
    }
}

impl Value {
    /// The value as it is shown to a person.
    pub fn to_text(&self) -> (r: String)
        ensures
            r@ == value_text(self@),
    {
        let mut s = String::new();
        match self {
            Value::Null => crate::text::push_str(&mut s, "NULL"),
            Value::Integer(i) => crate::text::push_signed(&mut s, *i),
            Value::Boolean(b) => crate::text::push_bool(&mut s, *b),
            Value::Text(t) => crate::text::push_str(&mut s, t.as_str()),
        }
        s
    }
}

/// The keyword that names a data type.
pub open spec fn spec_type_name(t: DataType) -> Seq<char> {
    match t {
        DataType::Integer => seq!['I', 'N', 'T', 'E', 'G', 'E', 'R'],
        DataType::Boolean => seq!['B', 'O', 'O', 'L', 'E', 'A', 'N'],
        DataType::Text => seq!['T', 'E', 'X', 'T'],
    }
}

impl DataType {
    /// The SQL name of this type, as it is written in error messages.
    pub fn name(&self) -> (r: String)
        ensures
            r@ == spec_type_name(*self),
    {
        let mut s = String::new();
        match self {
            DataType::Integer => {
                crate::text::push_char(&mut s, 'I');
                crate::text::push_char(&mut s, 'N');
                crate::text::push_char(&mut s, 'T');
                crate::text::push_char(&mut s, 'E');
                crate::text::push_char(&mut s, 'G');
                crate::text::push_char(&mut s, 'E');
                crate::text::push_char(&mut s, 'R');
            },
            DataType::Boolean => {
                crate::text::push_char(&mut s, 'B');
                crate::text::push_char(&mut s, 'O');
                crate::text::push_char(&mut s, 'O');
                crate::text::push_char(&mut s, 'L');
                crate::text::push_char(&mut s, 'E');
                crate::text::push_char(&mut s, 'A');
                crate::text::push_char(&mut s, 'N');
            },
            DataType::Text => {
                crate::text::push_char(&mut s, 'T');
                crate::text::push_char(&mut s, 'E');
                crate::text::push_char(&mut s, 'X');
                crate::text::push_char(&mut s, 'T');
            },
        }
        s
    }
}

} // verus!
