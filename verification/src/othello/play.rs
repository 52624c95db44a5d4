use vstd::prelude::*;

verus! {

/// Represents the position on the game board.
///
/// Squares are numbered `row * 8 + col`; `Play(64)` is the pass move.
#[derive(Debug, Clone, Copy, PartialEq, Eq, Structural)]
pub struct Play(pub u8);

/// The pass move.
pub open spec fn pass_play() -> Play {
    Play(64)
}

/// The row label of a square: `'1'` for row 0 up to `'8'` for row 7.
pub open spec fn row_char(row: int) -> char {
    if row == 0 {
        '1'
    } else if row == 1 {
        '2'
    } else if row == 2 {
        '3'
    } else if row == 3 {
        '4'
    } else if row == 4 {
        '5'
    } else if row == 5 {
        '6'
    } else if row == 6 {
        '7'
    } else {
        '8'
    }
}

/// The column label of a square: `'a'` for column 0 up to `'h'` for column 7.
pub open spec fn col_char(col: int) -> char {
    if col == 0 {
        'a'
    } else if col == 1 {
        'b'
    } else if col == 2 {
        'c'
    } else if col == 3 {
        'd'
    } else if col == 4 {
        'e'
    } else if col == 5 {
        'f'
    } else if col == 6 {
        'g'
    } else {
        'h'
    }
}

/// How a play is written: the 1-based row then the column letter (`"1a"`),
/// or `"pass"` for anything that is not a board square.
pub open spec fn play_text(p: Play) -> Seq<char> {
    if p.0 < 64 {
        seq![row_char(p.0 as int / 8), col_char(p.0 as int % 8)]
    } else {
        seq!['p', 'a', 's', 's']
    }
}

fn row_label(row: u8) -> (r: &'static str)
    requires
        row < 8,
    ensures
        r@ == seq![row_char(row as int)],
{
    if row == 0 {
        proof { reveal_strlit("1"); }
        "1"
    } else if row == 1 {
        proof { reveal_strlit("2"); }
        "2"
    } else if row == 2 {
        proof { reveal_strlit("3"); }
        "3"
    } else if row == 3 {
        proof { reveal_strlit("4"); }
        "4"
    } else if row == 4 {
        proof { reveal_strlit("5"); }
        "5"
    } else if row == 5 {
        proof { reveal_strlit("6"); }
        "6"
    } else if row == 6 {
        proof { reveal_strlit("7"); }
        "7"
    } else {
        proof { reveal_strlit("8"); }
        "8"
    }
}

fn col_label(col: u8) -> (r: &'static str)
    requires
        col < 8,
    ensures
        r@ == seq![col_char(col as int)],
{
    if col == 0 {
        proof { reveal_strlit("a"); }
        "a"
    } else if col == 1 {
        proof { reveal_strlit("b"); }
        "b"
    } else if col == 2 {
        proof { reveal_strlit("c"); }
        "c"
    } else if col == 3 {
        proof { reveal_strlit("d"); }
        "d"
    } else if col == 4 {
        proof { reveal_strlit("e"); }
        "e"
    } else if col == 5 {
        proof { reveal_strlit("f"); }
        "f"
    } else if col == 6 {
        proof { reveal_strlit("g"); }
        "g"
    } else {
        proof { reveal_strlit("h"); }
        "h"
    }
}

impl Play {
    /// Create a new `Play` with specified `row` and `col`.
    pub fn new(row: u8, col: u8) -> (p: Self)
        requires
            row < 8,
            col < 8,
        ensures
            p.0 == row * 8 + col,
    {
        Self(row * 8 + col)
    }

    /// The `(row, col)` of the square, or `None` for the pass move
    /// (and anything else off the board).
    pub fn coords(&self) -> (r: Option<(u8, u8)>)
        ensures
            self.0 < 64 ==> r == Some(((self.0 / 8) as u8, (self.0 % 8) as u8)),
            self.0 >= 64 ==> r is None,
    {
        if self.0 < 64 {
            Some((self.0 / 8, self.0 % 8))
        } else {
            None
        }
    }

    /// The play as text: `"1a"` for row 0, column 0; `"pass"` off the board.
    pub fn to_string(&self) -> (s: String)
        ensures
            s@ == play_text(*self),
    {
        match self.coords() {
            Some((row, col)) => {
                let mut s = String::from_str(row_label(row));
                s.append(col_label(col));
                s
            },
            None => {
                proof { reveal_strlit("pass"); }
                String::from_str("pass")
            },
        }
    }
}

/// `coords` gives back the row and column that `new` was built from.
pub proof fn lemma_new_coords_roundtrip(row: u8, col: u8)
    requires
        row < 8,
        col < 8,
    ensures
        (row * 8 + col) < 64,
        (row * 8 + col) / 8 == row,
        (row * 8 + col) % 8 == col,
{
}

/// How a square is written, by character codes: the row digit is `'1'`
/// plus the row (`square / 8`) and the column letter is `'a'` plus the
/// column (`square % 8`); anything off the board is written `"pass"`.
pub proof fn lemma_play_text_codes(p: Play)
    ensures
        p.0 < 64 ==> play_text(p).len() == 2 && play_text(p)[0] as int == '1' as int + p.0 / 8
            && play_text(p)[1] as int == 'a' as int + p.0 % 8,
        p.0 >= 64 ==> play_text(p) == seq!['p', 'a', 's', 's'],
{
}

} // verus!
