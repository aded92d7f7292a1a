//! Settings of the JSON reader.

use vstd::prelude::*;

verus! {

/// Settings to customize the JSON reader behavior
///
/// These settings are used by
/// [`JsonStreamReader::new_custom`](crate::reader::JsonStreamReader::new_custom). To avoid
/// repeating the default values for unchanged settings `..Default::default()` can be used.
#[derive(Clone, Debug)]
pub struct ReaderSettings {
    /// Whether to allow comments in the JSON document
    ///
    /// JSON itself does not allow comments. When enabled the following two comment variants can
    /// be used wherever whitespace is allowed:
    /// - end of line comments: `// ...`; such a comment spans to the end of the line (next
    ///   `\r\n`, `\r` or `\n`)
    /// - block comments: `/* ... */`; such a comment ends at the next `*/` and can contain line
    ///   breaks
    ///
    /// Unlike for member names and string values, control characters in the range `0x00` to
    /// `0x1F` (inclusive) are allowed in comments.
    pub allow_comments: bool,
    /// Whether to allow an optional trailing comma in JSON arrays or objects
    pub allow_trailing_comma: bool,
    /// Whether to allow multiple top-level values, for example `true [] 1` (3 top-level values)
    ///
    /// It is recommended to separate the values using whitespace (space, tab or line breaks).
    pub allow_multiple_top_level: bool,
    /// Whether to track the JSON path while parsing
    ///
    /// The JSON path is reported for error locations to make debugging easier. This setting has
    /// no effect on the JSON parsing behavior, it only affects the information provided for
    /// errors.
    pub track_path: bool,
    /// Maximum nesting depth
    ///
    /// The maximum nesting depth specifies how many nested JSON arrays or objects may be started
    /// before [`MaxNestingDepthExceeded`](crate::error::ReaderError::MaxNestingDepthExceeded) is
    /// returned. For example a maximum nesting depth of 2 allows to start one JSON array or
    /// object and within that another nested array or object, such as `{"outer": {"inner": 1}}`.
    /// Trying to read any further nested JSON array or object inside that will return an error.
    /// The value `None` means there is no limit.
    pub max_nesting_depth: Option<u32>,
    /// Whether to restrict which JSON number values are supported
    ///
    /// When this setting is enabled, exponent values smaller than -99, larger than 99 (e.g.
    /// `5e100`) and numbers whose string representation has more than 100 characters will be
    /// rejected and [`UnsupportedNumberValue`](crate::error::ReaderError::UnsupportedNumberValue)
    /// is returned. Otherwise, when disabled, all JSON number values are allowed.
    pub restrict_number_values: bool,
}

/// The maximum nesting depth of the default settings
pub const DEFAULT_MAX_NESTING_DEPTH: u32 = 128;

impl Default for ReaderSettings {
    /// Creates the default JSON reader settings
    ///
    /// - comments: disallowed
    /// - trailing comma: disallowed
    /// - multiple top-level values: disallowed
    /// - track JSON path: enabled
    /// - max nesting depth: 128
    /// - restrict number values: enabled
    fn default() -> (settings: Self)
        ensures
            settings == ReaderSettings::standard(),
    {
        ReaderSettings {
            allow_comments: false,
            allow_trailing_comma: false,
            allow_multiple_top_level: false,
            track_path: true,
            max_nesting_depth: Some(DEFAULT_MAX_NESTING_DEPTH),
            restrict_number_values: true,
        }
    }
}

impl ReaderSettings {
    /// The settings under which exactly the documents that conform to JSON are accepted, up to
    /// the limits on nesting and numbers.
    pub open spec fn standard() -> ReaderSettings {
        ReaderSettings {
            allow_comments: false,
            allow_trailing_comma: false,
            allow_multiple_top_level: false,
            track_path: true,
            max_nesting_depth: Some(128),
            restrict_number_values: true,
        }
    }
}

} // verus!
