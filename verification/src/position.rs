//! Positions within a JSON document.

use vstd::prelude::*;

verus! {

/// A piece of a JSON path
///
/// A piece can either represent the index of a JSON array item or the name of a JSON object member.
#[derive(Debug, PartialEq, Eq)]
pub enum JsonPathPiece {
    /// Index (starting at 0) of a JSON array item
    ArrayItem(u32),
    /// Name of a JSON object member
    ObjectMember(String),
}

/// What a [`JsonPathPiece`] stands for.
pub enum PathPiece {
    Item(u32),
    Member(Seq<char>),
}

impl View for JsonPathPiece {
    type V = PathPiece;

    open spec fn view(&self) -> PathPiece {
        match self {
            JsonPathPiece::ArrayItem(index) => PathPiece::Item(*index),
            JsonPathPiece::ObjectMember(name) => PathPiece::Member(name@),
        }
    }
}

impl Clone for JsonPathPiece {
    fn clone(&self) -> (copy: Self)
        ensures
            copy@ == self@,
    {
        match self {
            JsonPathPiece::ArrayItem(index) => JsonPathPiece::ArrayItem(*index),
            JsonPathPiece::ObjectMember(name) => JsonPathPiece::ObjectMember(name.clone()),
        }
    }
}

impl PathPiece {
    /// What a list of path pieces stands for.
    pub open spec fn all(pieces: Seq<JsonPathPiece>) -> Seq<PathPiece> {
        pieces.map_values(|piece: JsonPathPiece| piece@)
    }

    /// What an optional list of path pieces stands for.
    pub open spec fn optional(pieces: Option<Vec<JsonPathPiece>>) -> Option<Seq<PathPiece>> {
        match pieces {
            Some(pieces) => Some(PathPiece::all(pieces@)),
            None => None,
        }
    }
}

/// Copies the pieces of a JSON path.
pub(crate) fn clone_path(path: &Vec<JsonPathPiece>) -> (copy: Vec<JsonPathPiece>)
    ensures
        PathPiece::all(copy@) == PathPiece::all(path@),
{
    let mut copy: Vec<JsonPathPiece> = Vec::with_capacity(path.len());
    let mut i: usize = 0;
    while i < path.len()
        invariant
            i <= path.len(),
            copy.len() == i,
            forall|k: int| 0 <= k < i ==> (#[trigger] copy@[k])@ == path@[k]@,
        decreases path.len() - i,
    {
        copy.push(path[i].clone());
        i += 1;
    }
    assert(PathPiece::all(copy@) =~= PathPiece::all(path@));
    copy
}

/// Line and column position
#[derive(Debug, Clone, Copy, PartialEq, Eq, Structural)]
pub struct LinePosition {
    /// Line number, starting at 0
    ///
    /// The characters `\r` (carriage return), `\n` (line feed) and `\r\n` (carriage return
    /// followed by line feed) are considered line breaks.
    pub line: u64,
    /// Character column within the current line, starting at 0
    ///
    /// For all Unicode characters this value is incremented only by one, regardless of whether
    /// the encoding used for the data uses more than one byte to encode the character.
    pub column: u64,
}

/// Position of the JSON reader in the JSON document
#[derive(Debug, PartialEq, Eq)]
pub struct JsonReaderPosition {
    /// JSON path of the position; `None` if not tracked or not requested
    ///
    /// The last piece cannot accurately point to the position in all cases. For an object whose
    /// first member name has not been read yet it is `<?>`; otherwise it is the name of the last
    /// read member. For an array it is the index of the next item.
    pub path: Option<Vec<JsonPathPiece>>,
    /// Line and column number
    pub line_pos: Option<LinePosition>,
    /// Byte position of the data, starting at 0
    pub data_pos: Option<u64>,
}

/// Line, column and byte offset of a place in the document, all starting at 0.
pub struct Spot {
    pub line: nat,
    pub column: nat,
    pub byte_pos: nat,
}

impl Spot {
    /// The start of the document.
    pub open spec fn start() -> Spot {
        Spot { line: 0, column: 0, byte_pos: 0 }
    }

    /// The place behind some characters of the same line.
    pub open spec fn moved(self, columns: nat, bytes: nat) -> Spot {
        Spot { line: self.line, column: self.column + columns, byte_pos: self.byte_pos + bytes }
    }

    /// The start of the next line, behind a line break byte.
    pub open spec fn next_line(self) -> Spot {
        Spot { line: self.line + 1, column: 0, byte_pos: self.byte_pos + 1 }
    }
}

/// What a [`JsonReaderPosition`] stands for when line, column and byte position are known.
pub struct Place {
    pub path: Option<Seq<PathPiece>>,
    pub spot: Spot,
}

impl JsonReaderPosition {
    /// Whether this position denotes the place.
    pub open spec fn denotes(self, place: Place) -> bool {
        &&& PathPiece::optional(self.path) == place.path
        &&& self.line_pos matches Some(line_pos)
        &&& self.data_pos matches Some(data_pos)
        &&& line_pos.line == place.spot.line
        &&& line_pos.column == place.spot.column
        &&& data_pos == place.spot.byte_pos
    }
}

impl View for JsonReaderPosition {
    type V = Place;

    open spec fn view(&self) -> Place {
        Place {
            path: PathPiece::optional(self.path),
            spot: Spot {
                line: self.line_pos->0.line as nat,
                column: self.line_pos->0.column as nat,
                byte_pos: self.data_pos->0 as nat,
            },
        }
    }
}

/// Line, column and byte offset of the reader.
#[derive(Debug, Clone, Copy, PartialEq, Eq, Structural)]
pub struct Location {
    pub line: u64,
    pub column: u64,
    pub byte_pos: u64,
}

impl View for Location {
    type V = Spot;

    open spec fn view(&self) -> Spot {
        Spot {
            line: self.line as nat,
            column: self.column as nat,
            byte_pos: self.byte_pos as nat,
        }
    }
}

} // verus!
