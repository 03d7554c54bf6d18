pub mod bad_syntax_exception;
pub mod create_index_data;
pub mod create_table_data;
pub mod create_view_data;
pub mod delete_data;
pub mod error;
pub mod grammar;
pub mod insert_data;
pub mod laws;
pub mod lexer;
pub mod modify_data;
pub mod query_data;

pub use bad_syntax_exception::BadSyntaxException;
pub use create_index_data::CreateIndexData;
pub use create_table_data::CreateTableData;
pub use create_view_data::CreateViewData;
pub use delete_data::DeleteData;
pub use error::ParseError;
pub use insert_data::InsertData;
pub use lexer::Lexer;
pub use modify_data::ModifyData;
pub use query_data::QueryData;
pub mod parser;

pub use parser::{CreateCommand, Parser, UpdateCommand};
