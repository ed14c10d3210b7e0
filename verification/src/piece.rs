//! The sixteen game pieces: four independent two-valued attributes, and
//! their four-character text form (one character per attribute).
use vstd::prelude::*;

use vstd::string::StrSliceExecFns;
use vstd::string::StringExecFns;

verus! {

#[derive(Clone, Copy, PartialEq, Eq, Structural, Debug, Hash)]
pub enum Color {
    Black,
    White,
}

#[derive(Clone, Copy, PartialEq, Eq, Structural, Debug, Hash)]
pub enum Shape {
    Square,
    Circle,
}

#[derive(Clone, Copy, PartialEq, Eq, Structural, Debug, Hash)]
pub enum Height {
    Tall,
    Short,
}

#[derive(Clone, Copy, PartialEq, Eq, Structural, Debug, Hash)]
pub enum Top {
    Flat,
    Hole,
}

/// One piece, compared by value; there are exactly sixteen distinct pieces.
#[derive(Clone, Copy, PartialEq, Eq, Structural, Debug, Hash)]
pub struct Piece {
    pub color: Color,
    pub shape: Shape,
    pub height: Height,
    pub top: Top,
}

pub open spec fn color_bit(c: Color) -> int {
    match c {
        Color::Black => 0,
        Color::White => 1,
    }
}

pub open spec fn shape_bit(s: Shape) -> int {
    match s {
        Shape::Square => 0,
        Shape::Circle => 1,
    }
}

pub open spec fn height_bit(h: Height) -> int {
    match h {
        Height::Tall => 0,
        Height::Short => 1,
    }
}

pub open spec fn top_bit(t: Top) -> int {
    match t {
        Top::Flat => 0,
        Top::Hole => 1,
    }
}

/// Every piece has a unique index in 0..16.
pub open spec fn piece_index(p: Piece) -> int {
    8 * color_bit(p.color) + 4 * shape_bit(p.shape) + 2 * height_bit(p.height) + top_bit(p.top)
}

/// The piece whose index is `i`.
pub open spec fn piece_of_index(i: int) -> Piece {
    Piece {
        color: if i / 8 % 2 == 1 { Color::White } else { Color::Black },
        shape: if i / 4 % 2 == 1 { Shape::Circle } else { Shape::Square },
        height: if i / 2 % 2 == 1 { Height::Short } else { Height::Tall },
        top: if i % 2 == 1 { Top::Hole } else { Top::Flat },
    }
}

pub proof fn lemma_piece_index_of_index(i: int)
    requires
        0 <= i < 16,
    ensures
        piece_index(piece_of_index(i)) == i,
{
}

pub proof fn lemma_piece_of_index_of_piece(p: Piece)
    ensures
        0 <= piece_index(p) < 16,
        piece_of_index(piece_index(p)) == p,
{
}

impl Piece {
    /// Builds the piece with the given index, walking the four attribute bits.
    pub fn from_index(i: usize) -> (p: Piece)
        requires
            i < 16,
        ensures
            p == piece_of_index(i as int),
    {
        Piece {
            color: if i / 8 % 2 == 1 { Color::White } else { Color::Black },
            shape: if i / 4 % 2 == 1 { Shape::Circle } else { Shape::Square },
            height: if i / 2 % 2 == 1 { Height::Short } else { Height::Tall },
            top: if i % 2 == 1 { Top::Hole } else { Top::Flat },
        }
    }

    pub fn index(&self) -> (i: usize)
        ensures
            i == piece_index(*self),
    {
        let c: usize = match self.color {
            Color::Black => 0,
            Color::White => 1,
        };
        let s: usize = match self.shape {
            Shape::Square => 0,
            Shape::Circle => 1,
        };
        let h: usize = match self.height {
            Height::Tall => 0,
            Height::Short => 1,
        };
        let t: usize = match self.top {
            Top::Flat => 0,
            Top::Hole => 1,
        };
        8 * c + 4 * s + 2 * h + t
    }

    /// The four-character text form, one character per attribute in fixed
    /// order: color, shape, height, top.
    pub fn to_text(&self) -> (r: String)
        ensures
            r@ == render_spec(*self),
    {
        let mut r = String::new();
        match self.color {
            Color::Black => r.append("B"),
            Color::White => r.append("W"),
        }
        match self.shape {
            Shape::Square => r.append("S"),
            Shape::Circle => r.append("C"),
        }
        match self.height {
            Height::Tall => r.append("T"),
            Height::Short => r.append("S"),
        }
        match self.top {
            Top::Flat => r.append("F"),
            Top::Hole => r.append("H"),
        }
        proof {
            reveal_strlit("B");
            reveal_strlit("W");
            reveal_strlit("S");
            reveal_strlit("C");
            reveal_strlit("T");
            reveal_strlit("F");
            reveal_strlit("H");
            assert(r@ =~= render_spec(*self));
        }
        r
    }

    /// Parses the four-character text form; fails on any other length and on
    /// any character outside its position's alphabet.
    pub fn from_text(s: &str) -> (r: Option<Piece>)
        ensures
            r == parse_spec(s@),
    {
        if s.unicode_len() != 4 {
            return None;
        }
        let color = match parse_color_char(s.get_char(0)) {
            Some(c) => c,
            None => {
                return None;
            },
        };
        let shape = match parse_shape_char(s.get_char(1)) {
            Some(c) => c,
            None => {
                return None;
            },
        };
        let height = match parse_height_char(s.get_char(2)) {
            Some(c) => c,
            None => {
                return None;
            },
        };
        let top = match parse_top_char(s.get_char(3)) {
            Some(c) => c,
            None => {
                return None;
            },
        };
        Some(Piece { color, shape, height, top })
    }
}

pub open spec fn color_char(c: Color) -> char {
    match c {
        Color::Black => 'B',
        Color::White => 'W',
    }
}

pub open spec fn shape_char(s: Shape) -> char {
    match s {
        Shape::Square => 'S',
        Shape::Circle => 'C',
    }
}

pub open spec fn height_char(h: Height) -> char {
    match h {
        Height::Tall => 'T',
        Height::Short => 'S',
    }
}

pub open spec fn top_char(t: Top) -> char {
    match t {
        Top::Flat => 'F',
        Top::Hole => 'H',
    }
}

/// The text form of a piece: four characters in fixed attribute order.
pub open spec fn render_spec(p: Piece) -> Seq<char> {
    seq![color_char(p.color), shape_char(p.shape), height_char(p.height), top_char(p.top)]
}

pub open spec fn parse_color_spec(ch: char) -> Option<Color> {
    if ch == 'B' {
        Some(Color::Black)
    } else if ch == 'W' {
        Some(Color::White)
    } else {
        None
    }
}

pub open spec fn parse_shape_spec(ch: char) -> Option<Shape> {
    if ch == 'S' {
        Some(Shape::Square)
    } else if ch == 'C' {
        Some(Shape::Circle)
    } else {
        None
    }
}

pub open spec fn parse_height_spec(ch: char) -> Option<Height> {
    if ch == 'T' {
        Some(Height::Tall)
    } else if ch == 'S' {
        Some(Height::Short)
    } else {
        None
    }
}

pub open spec fn parse_top_spec(ch: char) -> Option<Top> {
    if ch == 'F' {
        Some(Top::Flat)
    } else if ch == 'H' {
        Some(Top::Hole)
    } else {
        None
    }
}

/// What parsing a text yields: a piece for a well-formed four-character
/// code, nothing otherwise.
pub open spec fn parse_spec(s: Seq<char>) -> Option<Piece> {
    if s.len() != 4 {
        None
    } else {
        if parse_color_spec(s[0]) is Some && parse_shape_spec(s[1]) is Some && parse_height_spec(
            s[2],
        ) is Some && parse_top_spec(s[3]) is Some {
            Some(
                Piece {
                    color: parse_color_spec(s[0])->0,
                    shape: parse_shape_spec(s[1])->0,
                    height: parse_height_spec(s[2])->0,
                    top: parse_top_spec(s[3])->0,
                },
            )
        } else {
            None
        }
    }
}

fn parse_color_char(ch: char) -> (r: Option<Color>)
    ensures
        r == parse_color_spec(ch),
{
    if ch == 'B' {
        Some(Color::Black)
    } else if ch == 'W' {
        Some(Color::White)
    } else {
        None
    }
}

fn parse_shape_char(ch: char) -> (r: Option<Shape>)
    ensures
        r == parse_shape_spec(ch),
{
    if ch == 'S' {
        Some(Shape::Square)
    } else if ch == 'C' {
        Some(Shape::Circle)
    } else {
        None
    }
}

fn parse_height_char(ch: char) -> (r: Option<Height>)
    ensures
        r == parse_height_spec(ch),
{
    if ch == 'T' {
        Some(Height::Tall)
    } else if ch == 'S' {
        Some(Height::Short)
    } else {
        None
    }
}

fn parse_top_char(ch: char) -> (r: Option<Top>)
    ensures
        r == parse_top_spec(ch),
{
    if ch == 'F' {
        Some(Top::Flat)
    } else if ch == 'H' {
        Some(Top::Hole)
    } else {
        None
    }
}

/// Round trip, first direction: rendering a piece and parsing the text back
/// yields the same piece, for every piece.
pub proof fn lemma_text_round_trip(p: Piece)
    ensures
        parse_spec(render_spec(p)) == Some(p),
{
}

/// Round trip, second direction: every text that parses renders back to the
/// identical text.
pub proof fn lemma_parse_then_render(s: Seq<char>)
    requires
        parse_spec(s) is Some,
    ensures
        render_spec(parse_spec(s)->0) == s,
{
    assert(render_spec(parse_spec(s)->0) =~= s);
}

} // verus!
