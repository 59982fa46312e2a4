use vstd::prelude::*;
use vstd::string::StringSliceAdditionalSpecFns;

verus! {

broadcast use vstd::string::is_ascii_spec_bytes;

/// The failures of the conversion engines and of the format selectors.
#[derive(Debug, Clone, Copy, PartialEq, Eq, Structural)]
pub enum ConvertError {
    /// A format token names neither variant it is parsed into.
    InvalidFormat,
    /// Base64 text holds a character outside the alphabet, or bad padding or length.
    Decode,
    /// A data row of a table has another number of cells than there are field names.
    RowShape { row: usize, expected: usize, found: usize },
}

/// The alphabet (and padding rule) of a base64 conversion.
#[derive(Debug, Clone, Copy, PartialEq, Eq, Structural)]
pub enum Base64Format {
    /// `A-Z a-z 0-9 + /`, padded with `=` to a multiple of four characters.
    Standard,
    /// `A-Z a-z 0-9 - _`, without padding.
    UrlSafe,
}

/// The structured format that a table is converted into.
#[derive(Debug, Clone, Copy, PartialEq, Eq, Structural)]
pub enum OutputFormat {
    Json,
    Yaml,
}

/// The token that selects a base64 variant.
pub open spec fn base64_token(f: Base64Format) -> Seq<char> {
    match f {
        Base64Format::Standard => "standard"@,
        Base64Format::UrlSafe => "urlsafe"@,
    }
}

/// The token that selects an output format; also the default file extension.
pub open spec fn output_token(f: OutputFormat) -> Seq<char> {
    match f {
        OutputFormat::Json => "json"@,
        OutputFormat::Yaml => "yaml"@,
    }
}

/// What reading a base64 variant out of a token gives.
pub open spec fn base64_format_of(s: Seq<char>) -> Result<Base64Format, ConvertError> {
    if s == "standard"@ {
        Ok(Base64Format::Standard)
    } else if s == "urlsafe"@ {
        Ok(Base64Format::UrlSafe)
    } else {
        Err(ConvertError::InvalidFormat)
    }
}

/// What reading an output format out of a token gives.
pub open spec fn output_format_of(s: Seq<char>) -> Result<OutputFormat, ConvertError> {
    if s == "json"@ {
        Ok(OutputFormat::Json)
    } else if s == "yaml"@ {
        Ok(OutputFormat::Yaml)
    } else {
        Err(ConvertError::InvalidFormat)
    }
}

/// Whether `s` is exactly the ASCII literal `lit`.
fn same_text(s: &str, lit: &str) -> (r: bool)
    requires
        lit.is_ascii(),
    ensures
        r == (s@ == lit@),
{
    if !s.is_ascii() {
        return false;
    }
    let a = s.as_bytes();
    let b = lit.as_bytes();
    if a.len() != b.len() {
        return false;
    }
    let mut i: usize = 0;
    while i < a.len()
        invariant
            a@ == s.spec_bytes(),
            b@ == lit.spec_bytes(),
            a@.len() == b@.len(),
            s@.len() == a@.len(),
            lit@.len() == b@.len(),
            s.is_ascii(),
            lit.is_ascii(),
            i <= a@.len(),
            forall|j: int| 0 <= j < i ==> s@[j] == lit@[j],
        decreases a@.len() - i,
    {
        if a[i] != b[i] {
            assert(s@[i as int] as u8 == a@[i as int]);
            assert(lit@[i as int] as u8 == b@[i as int]);
            return false;
        }
        assert(s@[i as int] as u8 == lit@[i as int] as u8);
        assert('\0' <= s@[i as int] <= '\u{7f}');
        assert('\0' <= lit@[i as int] <= '\u{7f}');
        i = i + 1;
    }
    assert(s@ =~= lit@);
    true
}

impl Base64Format {
    /// The token that selects this variant.
    pub fn as_str(&self) -> (r: &'static str)
        ensures
            r@ == base64_token(*self),
    {
        match self {
            Base64Format::Standard => "standard",
            Base64Format::UrlSafe => "urlsafe",
        }
    }
}

impl OutputFormat {
    /// The token that selects this format, which is also its file extension.
    pub fn as_str(&self) -> (r: &'static str)
        ensures
            r@ == output_token(*self),
    {
        match self {
            OutputFormat::Json => "json",
            OutputFormat::Yaml => "yaml",
        }
    }
}

/// Reads a base64 variant out of its lowercase token.
pub fn parse_base64_format(format: &str) -> (r: Result<Base64Format, ConvertError>)
    ensures
        r == base64_format_of(format@),
{
    proof {
        reveal_strlit("standard");
        reveal_strlit("urlsafe");
    }
    if same_text(format, "standard") {
        Ok(Base64Format::Standard)
    } else if same_text(format, "urlsafe") {
        Ok(Base64Format::UrlSafe)
    } else {
        Err(ConvertError::InvalidFormat)
    }
}

/// Reads an output format out of its lowercase token.
pub fn parse_format(format: &str) -> (r: Result<OutputFormat, ConvertError>)
    ensures
        r == output_format_of(format@),
{
    proof {
        reveal_strlit("json");
        reveal_strlit("yaml");
    }
    if same_text(format, "json") {
        Ok(OutputFormat::Json)
    } else if same_text(format, "yaml") {
        Ok(OutputFormat::Yaml)
    } else {
        Err(ConvertError::InvalidFormat)
    }
}

impl std::str::FromStr for Base64Format {
    type Err = ConvertError;

    fn from_str(s: &str) -> (r: Result<Base64Format, ConvertError>)
        ensures
            r == base64_format_of(s@),
    {
        parse_base64_format(s)
    }
}

impl std::str::FromStr for OutputFormat {
    type Err = ConvertError;

    fn from_str(s: &str) -> (r: Result<OutputFormat, ConvertError>)
        ensures
            r == output_format_of(s@),
    {
        parse_format(s)
    }
}

} // verus!
