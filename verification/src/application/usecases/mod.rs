//! The operations: one file each, and the only place where transactions are
//! opened.
pub mod inputs;
pub mod create_table;
pub mod delete_table;
pub mod describe_table;
pub mod format;
pub mod list_tables;
pub mod stats;
pub mod get_item;
pub mod put_item;
pub mod delete_item;
pub mod update_item;
pub mod scan;
pub mod query;
pub mod sweep_expired;
pub mod transact_get;
pub mod batch_write;
pub mod transact_write;
pub mod update_table;

pub use inputs::{
    apply_filter, check_condition, decode_item_or_empty, update_index_entries, Codec,
    project_item, project_items, ConditionInput, ExprInput, KeyConditionInput, Page,
    ProjectionInput, QueryOptions, ScanOptions, UpdateInput,
};
pub use batch_write::batch_write;
pub use create_table::create_table;
pub use delete_item::delete_item;
pub use delete_table::delete_table;
pub use describe_table::describe_table;
pub use format::{ensure_format, FORMAT_VERSION};
pub use get_item::get_item;
pub use list_tables::list_tables;
pub use put_item::put_item;
pub use query::query;
pub use scan::scan;
pub use stats::{stats, TableStats};
pub use sweep_expired::sweep_expired;
pub use transact_get::{batch_get, transact_get, KeyRef};
pub use transact_write::{transact_write, TransactWriteOp};
pub use update_item::update_item;
pub use update_table::update_table;
