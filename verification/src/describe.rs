//! Texts which describe positions and errors.

use vstd::prelude::*;

use crate::error::{JsonSyntaxError, SyntaxErrorKind};
use crate::position::{JsonPathPiece, JsonReaderPosition, PathPiece, Place};

verus! {

/// The decimal digit for a number below 10.
pub open spec fn digit_text(digit: nat) -> Seq<char> {
    if digit == 0 {
        "0"@
    } else if digit == 1 {
        "1"@
    } else if digit == 2 {
        "2"@
    } else if digit == 3 {
        "3"@
    } else if digit == 4 {
        "4"@
    } else if digit == 5 {
        "5"@
    } else if digit == 6 {
        "6"@
    } else if digit == 7 {
        "7"@
    } else if digit == 8 {
        "8"@
    } else {
        "9"@
    }
}

/// The decimal representation of a number.
pub open spec fn decimal_text(number: nat) -> Seq<char>
    decreases number,
{
    if number < 10 {
        digit_text(number)
    } else {
        decimal_text(number / 10) + digit_text(number % 10)
    }
}

/// The text of a piece of a JSON path.
pub open spec fn piece_text(piece: PathPiece) -> Seq<char> {
    match piece {
        PathPiece::Item(index) => "["@ + decimal_text(index as nat) + "]"@,
        PathPiece::Member(name) => "."@ + name,
    }
}

/// The text of a JSON path, starting with `$` for the root.
pub open spec fn path_text(path: Seq<PathPiece>) -> Seq<char>
    decreases path.len(),
{
    if path.len() == 0 {
        "$"@
    } else {
        path_text(path.drop_last()) + piece_text(path.last())
    }
}

/// The text of a position; its parts are left out if they are not known.
pub open spec fn position_text(
    path: Option<Seq<PathPiece>>,
    line_pos: Option<(nat, nat)>,
    data_pos: Option<nat>,
) -> Seq<char> {
    let path_part = match path {
        Some(path) => "path '"@ + path_text(path) + "'"@,
        None => ""@,
    };
    let separator = if path is Some && line_pos is Some {
        ", "@
    } else {
        ""@
    };
    let line_part = match line_pos {
        Some((line, column)) => "line "@ + decimal_text(line) + ", column "@ + decimal_text(column),
        None => ""@,
    };
    let known = path is Some || line_pos is Some;
    let data_part = match data_pos {
        Some(data_pos) => if known {
            " (data pos "@ + decimal_text(data_pos) + ")"@
        } else {
            "data pos "@ + decimal_text(data_pos)
        },
        None => if known {
            ""@
        } else {
            "<location unavailable>"@
        },
    };
    path_part + separator + line_part + data_part
}

impl Place {
    /// The text of the position which denotes the place.
    pub open spec fn text(self) -> Seq<char> {
        position_text(self.path, Some((self.spot.line, self.spot.column)), Some(self.spot.byte_pos))
    }
}

impl SyntaxErrorKind {
    /// The name of the kind.
    pub open spec fn text(self) -> Seq<char> {
        match self {
            SyntaxErrorKind::InvalidLiteral => "InvalidLiteral"@,
            SyntaxErrorKind::TrailingDataAfterLiteral => "TrailingDataAfterLiteral"@,
            SyntaxErrorKind::UnexpectedClosingBracket => "UnexpectedClosingBracket"@,
            SyntaxErrorKind::UnexpectedComma => "UnexpectedComma"@,
            SyntaxErrorKind::MissingComma => "MissingComma"@,
            SyntaxErrorKind::TrailingCommaNotEnabled => "TrailingCommaNotEnabled"@,
            SyntaxErrorKind::UnexpectedColon => "UnexpectedColon"@,
            SyntaxErrorKind::MissingColon => "MissingColon"@,
            SyntaxErrorKind::MalformedNumber => "MalformedNumber"@,
            SyntaxErrorKind::TrailingDataAfterNumber => "TrailingDataAfterNumber"@,
            SyntaxErrorKind::ExpectingMemberNameOrObjectEnd => "ExpectingMemberNameOrObjectEnd"@,
            SyntaxErrorKind::MalformedJson => "MalformedJson"@,
            SyntaxErrorKind::NotEscapedControlCharacter => "NotEscapedControlCharacter"@,
            SyntaxErrorKind::UnknownEscapeSequence => "UnknownEscapeSequence"@,
            SyntaxErrorKind::MalformedEscapeSequence => "MalformedEscapeSequence"@,
            SyntaxErrorKind::UnpairedSurrogatePairEscapeSequence => "UnpairedSurrogatePairEscapeSequence"@,
            SyntaxErrorKind::IncompleteDocument => "IncompleteDocument"@,
            SyntaxErrorKind::TrailingData => "TrailingData"@,
            SyntaxErrorKind::CommentsNotEnabled => "CommentsNotEnabled"@,
            SyntaxErrorKind::IncompleteComment => "IncompleteComment"@,
            SyntaxErrorKind::BlockCommentNotClosed => "BlockCommentNotClosed"@,
        }
    }

    /// The name of the kind.
    pub fn name(&self) -> (name: &'static str)
        ensures
            name@ == self.text(),
    {
        match self {
            SyntaxErrorKind::InvalidLiteral => "InvalidLiteral",
            SyntaxErrorKind::TrailingDataAfterLiteral => "TrailingDataAfterLiteral",
            SyntaxErrorKind::UnexpectedClosingBracket => "UnexpectedClosingBracket",
            SyntaxErrorKind::UnexpectedComma => "UnexpectedComma",
            SyntaxErrorKind::MissingComma => "MissingComma",
            SyntaxErrorKind::TrailingCommaNotEnabled => "TrailingCommaNotEnabled",
            SyntaxErrorKind::UnexpectedColon => "UnexpectedColon",
            SyntaxErrorKind::MissingColon => "MissingColon",
            SyntaxErrorKind::MalformedNumber => "MalformedNumber",
            SyntaxErrorKind::TrailingDataAfterNumber => "TrailingDataAfterNumber",
            SyntaxErrorKind::ExpectingMemberNameOrObjectEnd => "ExpectingMemberNameOrObjectEnd",
            SyntaxErrorKind::MalformedJson => "MalformedJson",
            SyntaxErrorKind::NotEscapedControlCharacter => "NotEscapedControlCharacter",
            SyntaxErrorKind::UnknownEscapeSequence => "UnknownEscapeSequence",
            SyntaxErrorKind::MalformedEscapeSequence => "MalformedEscapeSequence",
            SyntaxErrorKind::UnpairedSurrogatePairEscapeSequence => "UnpairedSurrogatePairEscapeSequence",
            SyntaxErrorKind::IncompleteDocument => "IncompleteDocument",
            SyntaxErrorKind::TrailingData => "TrailingData",
            SyntaxErrorKind::CommentsNotEnabled => "CommentsNotEnabled",
            SyntaxErrorKind::IncompleteComment => "IncompleteComment",
            SyntaxErrorKind::BlockCommentNotClosed => "BlockCommentNotClosed",
        }
    }
}

/// The text of a syntax error.
pub open spec fn syntax_error_text(kind: SyntaxErrorKind, location: Seq<char>) -> Seq<char> {
    "JSON syntax error "@ + kind.text() + " at "@ + location
}

/// The text of an error which occurred while reading data.
pub open spec fn io_error_text(message: Seq<char>, location: Seq<char>) -> Seq<char> {
    "IO error '"@ + message + "' at (roughly) "@ + location
}

fn describe_digit(digit: u64) -> (text: &'static str)
    requires
        digit < 10,
    ensures
        text@ == digit_text(digit as nat),
{
    match digit {
        0 => "0",
        1 => "1",
        2 => "2",
        3 => "3",
        4 => "4",
        5 => "5",
        6 => "6",
        7 => "7",
        8 => "8",
        _ => "9",
    }
}

/// Gets the decimal representation of a number.
pub fn describe_number(number: u64) -> (text: String)
    ensures
        text@ == decimal_text(number as nat),
    decreases number,
{
    if number < 10 {
        describe_digit(number).to_owned()
    } else {
        describe_number(number / 10).concat(describe_digit(number % 10))
    }
}

/// Gets the text of a JSON path.
pub fn describe_path(path: &Vec<JsonPathPiece>) -> (text: String)
    ensures
        text@ == path_text(PathPiece::all(path@)),
{
    let mut text: String = "$".to_owned();
    let mut i: usize = 0;
    assert(PathPiece::all(path@).take(0) =~= Seq::empty());
    while i < path.len()
        invariant
            i <= path.len(),
            text@ == path_text(PathPiece::all(path@).take(i as int)),
        decreases path.len() - i,
    {
        let ghost before = text@;
        let ghost pieces = PathPiece::all(path@);
        match &path[i] {
            JsonPathPiece::ArrayItem(index) => {
                text.append("[");
                text.append(describe_number(*index as u64).as_str());
                text.append("]");
                assert(text@ =~= before + ("["@ + decimal_text(*index as nat) + "]"@));
            },
            JsonPathPiece::ObjectMember(name) => {
                text.append(".");
                text.append(name.as_str());
                assert(text@ =~= before + ("."@ + name@));
            },
        }
        assert(pieces.take(i + 1).drop_last() =~= pieces.take(i as int));
        assert(pieces.take(i + 1).last() == path@[i as int]@);
        i += 1;
    }
    assert(PathPiece::all(path@).take(i as int) =~= PathPiece::all(path@));
    text
}

impl JsonReaderPosition {
    /// The text of the position.
    pub open spec fn text(self) -> Seq<char> {
        position_text(
            PathPiece::optional(self.path),
            match self.line_pos {
                Some(line_pos) => Some((line_pos.line as nat, line_pos.column as nat)),
                None => None,
            },
            match self.data_pos {
                Some(data_pos) => Some(data_pos as nat),
                None => None,
            },
        )
    }

    /// Gets a text which describes the position
    pub fn describe(&self) -> (text: String)
        ensures
            text@ == self.text(),
    {
        let mut text: String = "".to_owned();
        proof {
            reveal_strlit("");
        }
        let mut is_known = false;
        if let Some(path) = &self.path {
            text.append("path '");
            text.append(describe_path(path).as_str());
            text.append("'");
            is_known = true;
        }
        let ghost path_part = match PathPiece::optional(self.path) {
            Some(path) => "path '"@ + path_text(path) + "'"@,
            None => ""@,
        };
        assert(text@ =~= path_part);
        let ghost mut separator = ""@;
        let ghost mut line_part = ""@;
        if let Some(line_pos) = &self.line_pos {
            if is_known {
                text.append(", ");
                proof {
                    separator = ", "@;
                }
            }
            text.append("line ");
            text.append(describe_number(line_pos.line).as_str());
            text.append(", column ");
            text.append(describe_number(line_pos.column).as_str());
            is_known = true;
            proof {
                line_part =
                "line "@ + decimal_text(line_pos.line as nat) + ", column "@ + decimal_text(
                    line_pos.column as nat,
                );
            }
        }
        assert(text@ =~= path_part + separator + line_part);
        let ghost known_part = text@;
        match self.data_pos {
            Some(data_pos) => {
                if is_known {
                    text.append(" (data pos ");
                    text.append(describe_number(data_pos).as_str());
                    text.append(")");
                    assert(text@ =~= known_part + (" (data pos "@ + decimal_text(data_pos as nat)
                        + ")"@));
                } else {
                    text.append("data pos ");
                    text.append(describe_number(data_pos).as_str());
                    assert(text@ =~= known_part + ("data pos "@ + decimal_text(data_pos as nat)));
                }
            },
            None => {
                if !is_known {
                    text.append("<location unavailable>");
                } else {
                    assert(text@ =~= known_part + ""@);
                }
            },
        }
        text
    }

    /// A position which denotes a place has the text of that place.
    pub proof fn lemma_text(self, place: Place)
        requires
            self.denotes(place),
        ensures
            self.text() == place.text(),
    {
    }
}

impl JsonSyntaxError {
    /// Gets a text which describes the error
    pub fn describe(&self) -> (text: String)
        ensures
            text@ == syntax_error_text(self.kind, self.location.text()),
    {
        let mut text: String = "JSON syntax error ".to_owned();
        text.append(self.kind.name());
        text.append(" at ");
        text.append(self.location.describe().as_str());
        text
    }
}

/// Gets a text which describes an error that occurred while reading data
///
/// `message` describes the error itself.
pub fn describe_io_error(message: &str, location: &JsonReaderPosition) -> (text: String)
    ensures
        text@ == io_error_text(message@, location.text()),
{
    let mut text: String = "IO error '".to_owned();
    text.append(message);
    text.append("' at (roughly) ");
    text.append(location.describe().as_str());
    text
}

} // verus!
