//! Textual views: the bordered picture of a grid and the classification
//! line of a finished run, both specified character by character, so that
//! rendering the same value twice gives byte-identical text.
use vstd::prelude::*;

use vstd::string::StringExecFns;

use crate::grid::GRIDLEN;

verus! {

/// What to draw; implemented by the board and by the run summary.
pub trait Draw {
    /// What the drawing needs of the value; the board asks for its shape.
    spec fn draw_requires(&self) -> bool;

    /// The exact text that `draw` produces.
    spec fn draw_spec(&self) -> Seq<char>;

    fn draw(&self) -> (s: String)
        requires
            self.draw_requires(),
        ensures
            s@ == self.draw_spec(),
    ;
}

/// The character of a single decimal digit.
pub open spec fn digit_char(d: nat) -> char {
    if d == 0 {
        '0'
    } else if d == 1 {
        '1'
    } else if d == 2 {
        '2'
    } else if d == 3 {
        '3'
    } else if d == 4 {
        '4'
    } else if d == 5 {
        '5'
    } else if d == 6 {
        '6'
    } else if d == 7 {
        '7'
    } else if d == 8 {
        '8'
    } else {
        '9'
    }
}

/// The decimal writing of n, most significant digit first, no leading zeros.
pub open spec fn dec_chars(n: nat) -> Seq<char>
    decreases n,
{
    if n < 10 {
        seq![digit_char(n)]
    } else {
        dec_chars(n / 10).push(digit_char(n % 10))
    }
}

/// The decimal writing of a single digit.
fn digit_string(d: u64) -> (s: String)
    requires
        d < 10,
    ensures
        s@ == seq![digit_char(d as nat)],
{
    let s = if d == 0 {
        proof {
            reveal_strlit("0");
        }
        String::from_str("0")
    } else if d == 1 {
        proof {
            reveal_strlit("1");
        }
        String::from_str("1")
    } else if d == 2 {
        proof {
            reveal_strlit("2");
        }
        String::from_str("2")
    } else if d == 3 {
        proof {
            reveal_strlit("3");
        }
        String::from_str("3")
    } else if d == 4 {
        proof {
            reveal_strlit("4");
        }
        String::from_str("4")
    } else if d == 5 {
        proof {
            reveal_strlit("5");
        }
        String::from_str("5")
    } else if d == 6 {
        proof {
            reveal_strlit("6");
        }
        String::from_str("6")
    } else if d == 7 {
        proof {
            reveal_strlit("7");
        }
        String::from_str("7")
    } else if d == 8 {
        proof {
            reveal_strlit("8");
        }
        String::from_str("8")
    } else {
        proof {
            reveal_strlit("9");
        }
        String::from_str("9")
    };
    proof {
        assert(s@ =~= seq![digit_char(d as nat)]);
    }
    s
}

/// Renders n in decimal.
pub fn dec_string(n: u64) -> (s: String)
    ensures
        s@ == dec_chars(n as nat),
    decreases n,
{
    if n < 10 {
        digit_string(n)
    } else {
        let mut s = dec_string(n / 10);
        let d = digit_string(n % 10);
        s.append(d.as_str());
        proof {
            assert(s@ =~= dec_chars(n as nat));
        }
        s
    }
}

/// n copies of the wall glyph, as in the top and bottom border rows.
pub open spec fn wall_run(n: nat) -> Seq<char>
    decreases n,
{
    if n == 0 {
        Seq::empty()
    } else {
        wall_run((n - 1) as nat) + "# "@
    }
}

/// The two characters showing one cell.
pub open spec fn glyph(alive: bool) -> Seq<char> {
    if alive {
        "# "@
    } else {
        "  "@
    }
}

/// One row of cells, two characters each.
pub open spec fn row_chars(row: Seq<bool>) -> Seq<char>
    decreases row.len(),
{
    if row.len() == 0 {
        Seq::empty()
    } else {
        row_chars(row.drop_last()) + glyph(row.last())
    }
}

/// One interior line: wall, the cells, wall, newline.
pub open spec fn render_line(row: Seq<bool>) -> Seq<char> {
    "# "@ + row_chars(row) + "# \n"@
}

/// The interior lines of the picture, top row first.
pub open spec fn lines_chars(g: Seq<Seq<bool>>) -> Seq<char>
    decreases g.len(),
{
    if g.len() == 0 {
        Seq::empty()
    } else {
        lines_chars(g.drop_last()) + render_line(g.last())
    }
}

/// The whole picture: a border row, the interior lines, a border row.
pub open spec fn render_grid(g: Seq<Seq<bool>>) -> Seq<char> {
    wall_run((GRIDLEN + 2) as nat) + "\n"@ + lines_chars(g) + wall_run((GRIDLEN + 2) as nat)
}

/// The terminal line of a finished run, classified by the distance between
/// the repeated state's two occurrences.
pub open spec fn classification_chars(final_count: u64, repeating_key: u64) -> Seq<char> {
    let pattern_length = final_count - repeating_key;
    if pattern_length == 0 {
        "Pattern became static at iteration: "@ + dec_chars(repeating_key as nat)
    } else if pattern_length == 1 {
        "Alternating pattern at iteration: "@ + dec_chars(repeating_key as nat)
    } else {
        "Repeating pattern between iterations "@ + dec_chars(repeating_key as nat) + " and "@
            + dec_chars(final_count as nat) + "\nLooping pattern length: "@ + dec_chars(
            pattern_length as nat,
        )
    }
}

} // verus!
