//! A small query engine over a table of typed values: projection of
//! columns and one filter, by equality or by order, answered through sorted
//! indices of the columns.

pub mod decimal;
pub mod index;
pub mod laws;
pub mod query;
pub mod query_engine;
pub mod session;
pub mod table;
pub mod text;
pub mod value;

pub use index::{Index, IndexedTable, TableIndices, ValueInRow};
pub use query::{Filter, FilterType, ParseError, Query, SyntaxError};
pub use query_engine::{execute, ResultSet, ResultSetRow};
pub use session::{respond, Reply};
pub use table::{Column, ColumnNotFound, ColumnType, LoadError, Row, Table};
pub use value::{NumberError, Value};
