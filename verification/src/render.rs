//! Output projections: the boolean full-grid snapshot and the textual
//! event form of a single wall.

use vstd::prelude::*;
use vstd::string::StrSliceExecFns;
use vstd::string::StringExecFns;
use crate::maze::Direction;
use crate::maze::Wall;
use crate::maze::WallStatus;
use crate::maze::grid_view;

verus! {

/// Boolean view of a row of wall slots: `true` means "wall present".
pub open spec fn bool_row(row: Seq<WallStatus>) -> Seq<bool> {
    row.map_values(|s: WallStatus| s != WallStatus::Open)
}

/// Boolean view of a whole wall array.
pub open spec fn bool_grid(g: Seq<Seq<WallStatus>>) -> Seq<Seq<bool>> {
    g.map_values(|row: Seq<WallStatus>| bool_row(row))
}

/// Mathematical view of a boolean wall array.
pub open spec fn bool_grid_view(g: Seq<Vec<bool>>) -> Seq<Seq<bool>> {
    g.map_values(|row: Vec<bool>| row@)
}

/// The full-grid snapshot: both wall arrays projected to booleans, ready
/// for serialization under the fixed keys `h` and `v`.
#[derive(Debug, Clone, PartialEq)]
pub struct MazeSnapshot {
    pub h: Vec<Vec<bool>>,
    pub v: Vec<Vec<bool>>,
}

fn bool_row_of(row: &Vec<WallStatus>) -> (r: Vec<bool>)
    ensures
        r@ == bool_row(row@),
{
    let mut r: Vec<bool> = Vec::new();
    let mut j: usize = 0;
    while j < row.len()
        invariant
            j <= row@.len(),
            r@.len() == j,
            forall|k: int| 0 <= k < j ==> r@[k] == (row@[k] != WallStatus::Open),
        decreases row@.len() - j,
    {
        r.push(row[j].to_bool());
        j = j + 1;
    }
    proof {
        assert(r@ =~= bool_row(row@));
    }
    r
}

/// Project one wall array to booleans.
pub fn data_map(vec: &Vec<Vec<WallStatus>>) -> (r: Vec<Vec<bool>>)
    ensures
        bool_grid_view(r@) == bool_grid(grid_view(vec@)),
{
    let mut r: Vec<Vec<bool>> = Vec::new();
    let mut i: usize = 0;
    while i < vec.len()
        invariant
            i <= vec@.len(),
            r@.len() == i,
            forall|k: int| 0 <= k < i ==> (#[trigger] r@[k])@ == bool_row(vec@[k]@),
        decreases vec@.len() - i,
    {
        r.push(bool_row_of(&vec[i]));
        i = i + 1;
    }
    proof {
        assert forall|k: int|
            0 <= k < r@.len() implies #[trigger] bool_grid_view(r@)[k] == bool_grid(
            grid_view(vec@),
        )[k] by {
            assert(r@[k]@ == bool_row(vec@[k]@));
        }
        assert(bool_grid_view(r@) =~= bool_grid(grid_view(vec@)));
    }
    r
}

/// The decimal digit characters, least significant last.
pub open spec fn dec_digit(d: int) -> char {
    if d == 0 {
        '0'
    } else if d == 1 {
        '1'
    } else if d == 2 {
        '2'
    } else if d == 3 {
        '3'
    } else if d == 4 {
        '4'
    } else if d == 5 {
        '5'
    } else if d == 6 {
        '6'
    } else if d == 7 {
        '7'
    } else if d == 8 {
        '8'
    } else {
        '9'
    }
}

/// The decimal rendering of a non-negative integer.
pub open spec fn dec_seq(n: int) -> Seq<char>
    recommends
        n >= 0,
    decreases n,
{
    if n < 10 {
        seq![dec_digit(n)]
    } else {
        dec_seq(n / 10).push(dec_digit(n % 10))
    }
}

fn digit_str(d: u64) -> (r: &'static str)
    requires
        d < 10,
    ensures
        r@ == seq![dec_digit(d as int)],
{
    proof {
        reveal_strlit("0");
        reveal_strlit("1");
        reveal_strlit("2");
        reveal_strlit("3");
        reveal_strlit("4");
        reveal_strlit("5");
        reveal_strlit("6");
        reveal_strlit("7");
        reveal_strlit("8");
        reveal_strlit("9");
    }
    let r = match d {
        0 => "0",
        1 => "1",
        2 => "2",
        3 => "3",
        4 => "4",
        5 => "5",
        6 => "6",
        7 => "7",
        8 => "8",
        _ => "9",
    };
    proof {
        assert(r@ =~= seq![dec_digit(d as int)]);
    }
    r
}

/// Decimal rendering of `n`.
pub fn dec_string(n: u64) -> (s: String)
    ensures
        s@ == dec_seq(n as int),
    decreases n,
{
    if n < 10 {
        let mut s = String::new();
        s.append(digit_str(n));
        proof {
            assert(s@ =~= dec_seq(n as int));
        }
        s
    } else {
        let mut s = dec_string(n / 10);
        s.append(digit_str(n % 10));
        proof {
            assert(s@ =~= dec_seq(n as int));
        }
        s
    }
}

/// The single-character direction code used in the event form.
pub open spec fn dir_code(d: Direction) -> Seq<char> {
    if d == Direction::Horizontal {
        "h"@
    } else {
        "v"@
    }
}

/// The textual event form of a wall: a JSON object with the wall's
/// coordinates and its direction as `"h"` or `"v"`.
pub open spec fn json_of_wall(w: Wall) -> Seq<char> {
    "{\"x\":"@ + dec_seq(w.x as int) + ",\"y\":"@ + dec_seq(w.y as int) + ",\"direction\":\""@
        + dir_code(w.direction) + "\"}"@
}

impl Wall {
    /// Render a carve-event as a JSON object string.
    pub fn to_json(&self) -> (r: String)
        requires
            self.x >= 0,
            self.y >= 0,
        ensures
            r@ == json_of_wall(*self),
    {
        let mut r = "{\"x\":".to_owned();
        r.append(dec_string(self.x as u64).as_str());
        r.append(",\"y\":");
        r.append(dec_string(self.y as u64).as_str());
        r.append(",\"direction\":\"");
        r.append(
            match self.direction {
                Direction::Horizontal => "h",
                Direction::Vertical => "v",
            },
        );
        r.append("\"}");
        proof {
            assert(r@ =~= json_of_wall(*self));
        }
        r
    }
}

} // verus!
