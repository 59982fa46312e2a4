//! Two independent conversions: a base64 codec with a standard and a URL-safe
//! alphabet, and a converter from delimited text tables to JSON or YAML records.
pub mod codec;
pub mod formats;
pub mod opts;
pub mod render;
pub mod table;

pub use codec::decode;
pub use codec::encode;
pub use formats::parse_base64_format;
pub use formats::parse_format;
pub use formats::Base64Format;
pub use formats::ConvertError;
pub use formats::OutputFormat;
pub use opts::convert_csv;
pub use opts::Base64DecodeOpts;
pub use opts::Base64EncodeOpts;
pub use opts::Base64SubCommand;
pub use opts::CsvOpts;
pub use render::render;
pub use table::parse_table;
pub use table::RecordSet;
