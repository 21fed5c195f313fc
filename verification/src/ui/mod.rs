pub mod filter;
pub mod search_bar;
pub mod hex_view;
pub mod schema_editor;
pub mod table_view;
pub mod spreadsheet_view;
