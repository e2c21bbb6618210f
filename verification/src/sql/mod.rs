pub mod ast;
pub mod binder;
pub mod lexer;
pub mod parser;
pub mod token;

pub use ast::{
    Assignment, BinaryOperator, ColumnDefinition, CreateTableStatement, DeleteStatement,
    Expression, InsertStatement, SelectItem, SelectStatement, Statement, UnaryOperator,
    UpdateStatement,
};
pub use binder::{
    bind_statement, BindError, Binder, BinderError, BoundAssignment, BoundDeleteStatement,
    BoundExpression, BoundInsertStatement, BoundSelectStatement, BoundStatement,
    BoundUpdateStatement, SemanticError,
};
pub use lexer::{tokenize, LexError, Lexer, LexerError};
pub use parser::{parse_sql, parse_sql_statements, ParseError, Parser, SqlError};
pub use token::Token;
