pub mod text;
pub mod value;
pub mod row;
pub mod storage;
pub mod sql;
pub mod executor;

pub use executor::{
    build_executor, execute_bound, execute_sql, execute_sql_batch, CreateTableExecutor,
    DatabaseError, DeleteExecutor, Executor, FilterExecutor, InsertExecutor, ProjectionExecutor,
    SelectSource, StatementExecutor, TableScanExecutor, UpdateExecutor,
};
pub use sql::{
    bind_statement, parse_sql, parse_sql_statements, tokenize, Assignment, BinaryOperator,
    BindError, Binder, BinderError, BoundAssignment, BoundDeleteStatement, BoundExpression,
    BoundInsertStatement, BoundSelectStatement, BoundStatement, BoundUpdateStatement,
    ColumnDefinition, CreateTableStatement, DeleteStatement, Expression, InsertStatement,
    LexError, Lexer, LexerError, ParseError, Parser, SelectItem, SelectStatement, SemanticError,
    SqlError, Statement, Token, UnaryOperator, UpdateStatement,
};
pub use storage::{
    Column, DataType, Database, DbError, DiskManager, PageId, RecordId, Row, Schema, Slot, Table, Value,
    PAGE_SIZE,
};
