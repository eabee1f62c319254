//! What locking a piece brings about, and the attack it sends.

use super::piece::SpinKind;
use vstd::prelude::*;

verus! {

/// The outcome of locking a piece.
#[derive(Clone, Copy, Debug, PartialEq, Eq, Structural, Hash, PartialOrd, Ord)]
pub struct PlacementResult {
    /// Rows removed by the placement.
    pub lines_cleared: u32,
    /// The combo counter after the placement; -1 means that no combo runs.
    pub ren: i32,
    /// The spin of the locked piece.
    pub spin: SpinKind,
    /// True if the placement continued a back-to-back chain.
    pub is_b2b_clear: bool,
    /// True if the placement left the board empty.
    pub is_pc: bool,
    /// True if the piece locked entirely above the visible field.
    pub death: bool,
}

/// The outcome of a move that locks nothing.
pub open spec fn no_placement() -> PlacementResult {
    PlacementResult {
        lines_cleared: 0,
        ren: -1i32,
        spin: SpinKind::NoSpin,
        is_b2b_clear: false,
        is_pc: false,
        death: false,
    }
}

/// The attack that a combo of length `ren` adds.
pub open spec fn combo_bonus(ren: int) -> int {
    if ren < 2 {
        0
    } else if ren < 4 {
        1
    } else if ren < 6 {
        2
    } else if ren < 8 {
        3
    } else if ren < 11 {
        4
    } else {
        5
    }
}

/// The attack of a clear before the back-to-back and combo bonuses.
pub open spec fn base_attack(spin: SpinKind, lines: int) -> int {
    match spin {
        SpinKind::Full => 2 * lines,
        _ => if lines == 2 {
            1
        } else if lines == 3 {
            2
        } else if lines == 4 {
            4
        } else {
            0
        },
    }
}

/// The garbage lines that a placement sends: none without a clear, ten for a
/// perfect clear, otherwise the base attack plus one for a back-to-back
/// continuation plus the combo bonus.
pub open spec fn attack_of(p: PlacementResult) -> int {
    if p.lines_cleared == 0 {
        0
    } else if p.is_pc {
        10
    } else {
        base_attack(p.spin, p.lines_cleared as int) + (if p.is_b2b_clear {
            1int
        } else {
            0int
        }) + combo_bonus(p.ren as int)
    }
}

impl Default for PlacementResult {
    fn default() -> (r: PlacementResult)
        ensures
            r == no_placement(),
    {
        PlacementResult {
            lines_cleared: 0,
            ren: -1,
            spin: SpinKind::NoSpin,
            is_b2b_clear: false,
            is_pc: false,
            death: false,
        }
    }
}

impl PlacementResult {
    /// The garbage lines that the placement sends.
    pub fn attack(&self) -> (r: u32)
        requires
            self.lines_cleared <= 0x7fff_fff0,
        ensures
            r as int == attack_of(*self),
    {
        if self.lines_cleared == 0 {
            0
        } else if self.is_pc {
            10
        } else {
            let base: u32 = match self.spin {
                SpinKind::Full => 2 * self.lines_cleared,
                _ => if self.lines_cleared == 2 {
                    1
                } else if self.lines_cleared == 3 {
                    2
                } else if self.lines_cleared == 4 {
                    4
                } else {
                    0
                },
            };
            let b2b: u32 = if self.is_b2b_clear {
                1
            } else {
                0
            };
            base + b2b + ren_attack(self.ren)
        }
    }
}

/// The attack that a combo of length `ren` adds.
pub fn ren_attack(ren: i32) -> (r: u32)
    ensures
        r as int == combo_bonus(ren as int),
        r <= 5,
{
    if ren < 2 {
        0
    } else if ren < 4 {
        1
    } else if ren < 6 {
        2
    } else if ren < 8 {
        3
    } else if ren < 11 {
        4
    } else {
        5
    }
}

} // verus!
