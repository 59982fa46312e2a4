use vstd::prelude::*;
use vstd::string::StringExecFns;

use crate::codec::decode;
use crate::codec::decoded;
use crate::codec::encode;
use crate::codec::encoded;
use crate::formats::output_token;
use crate::formats::Base64Format;
use crate::formats::ConvertError;
use crate::formats::OutputFormat;
use crate::render::render;
use crate::render::rendered;
use crate::table::first_shape_error;
use crate::table::parse_table;
use crate::table::rectangular;
use crate::table::table_fields;
use crate::table::table_records;

verus! {

/// Options of `base64 encode`: where the bytes come from (`-` for standard
/// input) and the alphabet.
pub struct Base64EncodeOpts {
    pub input: String,
    pub format: Base64Format,
}

/// Options of `base64 decode`: where the text comes from (`-` for standard
/// input) and the alphabet.
pub struct Base64DecodeOpts {
    pub input: String,
    pub format: Base64Format,
}

/// The two base64 subcommands.
pub enum Base64SubCommand {
    Encode(Base64EncodeOpts),
    Decode(Base64DecodeOpts),
}

/// Options of `csv`: the table to read, where to write (by default
/// `output.<format>`), the output format, the cell delimiter and whether the
/// first row names the fields.
pub struct CsvOpts {
    pub input: String,
    pub output: Option<String>,
    pub format: OutputFormat,
    pub delimiter: char,
    pub header: bool,
}

/// What a base64 subcommand makes of the bytes it read: the encoding, or the
/// decoded bytes where the text stands for any.
pub open spec fn base64_result(cmd: Base64SubCommand, data: Seq<u8>) -> Result<
    Seq<u8>,
    ConvertError,
> {
    match cmd {
        Base64SubCommand::Encode(o) => Ok(encoded(o.format, data)),
        Base64SubCommand::Decode(o) => match decoded(o.format, data) {
            Some(b) => Ok(b),
            None => Err(ConvertError::Decode),
        },
    }
}

impl Base64EncodeOpts {
    /// Encodes the bytes read from the input.
    pub fn run(&self, data: &[u8]) -> (r: Vec<u8>)
        ensures
            r@ == encoded(self.format, data@),
    {
        encode(data, self.format)
    }
}

impl Base64DecodeOpts {
    /// Decodes the text read from the input.
    pub fn run(&self, text: &[u8]) -> (r: Result<Vec<u8>, ConvertError>)
        ensures
            decoded(self.format, text@) is Some <==> r is Ok,
            r matches Ok(b) ==> decoded(self.format, text@) == Some(b@),
            r matches Err(e) ==> e == ConvertError::Decode,
    {
        decode(text, self.format)
    }
}

impl Base64SubCommand {
    /// The input this subcommand reads.
    pub fn input(&self) -> (r: &String)
        ensures
            r == match self {
                Base64SubCommand::Encode(o) => &o.input,
                Base64SubCommand::Decode(o) => &o.input,
            },
    {
        match self {
            Base64SubCommand::Encode(o) => &o.input,
            Base64SubCommand::Decode(o) => &o.input,
        }
    }

    /// Runs the subcommand on the bytes read from its input.
    pub fn run(&self, data: &[u8]) -> (r: Result<Vec<u8>, ConvertError>)
        ensures
            match (r, base64_result(*self, data@)) {
                (Ok(b), Ok(s)) => b@ == s,
                (Err(e), Err(f)) => e == f,
                _ => false,
            },
    {
        match self {
            Base64SubCommand::Encode(o) => Ok(o.run(data)),
            Base64SubCommand::Decode(o) => o.run(data),
        }
    }
}

/// Converts a delimited table into JSON or YAML text; fails on the first data
/// row whose number of cells differs from the number of field names.
pub fn convert_csv(input: &[char], delimiter: char, header: bool, format: OutputFormat) -> (r:
    Result<Vec<char>, ConvertError>)
    ensures
        r is Ok <==> rectangular(input@, delimiter, header),
        r matches Ok(t) ==> t@ == rendered(
            format,
            table_fields(input@, delimiter, header),
            table_records(input@, delimiter, header),
        ),
        r matches Err(e) ==> first_shape_error(input@, delimiter, header, e),
{
    let set = parse_table(input, delimiter, header)?;
    Ok(render(&set, format))
}

impl CsvOpts {
    /// Where the converted table goes: the given path, or `output.<format>`.
    pub fn output_path(&self) -> (r: String)
        ensures
            r@ == match self.output {
                Some(o) => o@,
                None => "output."@ + output_token(self.format),
            },
    {
        match &self.output {
            Some(o) => o.clone(),
            None => {
                let mut path = String::from_str("output.");
                path.append(self.format.as_str());
                path
            },
        }
    }

    /// Converts the table read from the input under these options.
    pub fn convert(&self, input: &[char]) -> (r: Result<Vec<char>, ConvertError>)
        ensures
            r is Ok <==> rectangular(input@, self.delimiter, self.header),
            r matches Ok(t) ==> t@ == rendered(
                self.format,
                table_fields(input@, self.delimiter, self.header),
                table_records(input@, self.delimiter, self.header),
            ),
            r matches Err(e) ==> first_shape_error(input@, self.delimiter, self.header, e),
    {
        convert_csv(input, self.delimiter, self.header, self.format)
    }
}

} // verus!
