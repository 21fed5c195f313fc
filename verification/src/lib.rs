pub mod text;
pub mod number;
pub mod parallel;
pub mod encoding;
pub mod schema;
pub mod schema_check;
pub mod schema_sample;
pub mod value_check;
pub mod field_codec;
pub mod record;
pub mod ui;
pub mod app_state;
