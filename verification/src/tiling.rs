//! The data of a substitution tiling: tiles, placements, rules and the rule set.

use kurbo::{Affine, Point};
use vstd::prelude::*;

verus! {

/// A polygon outline: its corners in winding order. The outline closes by
/// itself from the last corner to the first. A tile without corners draws
/// nothing and only holds a place in the rule set.
pub struct Tile {
    pub corners: Vec<Point>,
}

/// A tile of the rule set, by its index, and the map that carries the tile's
/// own coordinates into the frame it is placed in.
#[derive(Clone, Copy)]
pub struct TilePlacement {
    pub tile_id: usize,
    pub transform: Affine,
}

/// What replaces one tile at the next generation. Each transform in `result`
/// is relative to the frame of the tile that is replaced.
pub struct TilingRule {
    pub tile: Tile,
    pub result: Vec<TilePlacement>,
}

/// The rule set, indexed by tile id, and the ratio by which one generation is
/// larger than the one before it.
pub struct TilingStep {
    pub rules: Vec<TilingRule>,
    /// The ratio as the bit pattern of a double. The crate hands it through
    /// and never computes with it.
    pub expansion_factor: u64,
}

/// The bit pattern of the double 1.
pub const UNIT_FACTOR: u64 = 0x3FF0_0000_0000_0000;

/// A rule as the contracts see it.
pub ghost struct RuleModel {
    pub corners: Seq<Point>,
    pub result: Seq<TilePlacement>,
}

/// A rule set as the contracts see it.
pub ghost struct StepModel {
    pub rules: Seq<RuleModel>,
    pub expansion_factor: u64,
}

impl View for Tile {
    type V = Seq<Point>;

    open spec fn view(&self) -> Seq<Point> {
        self.corners@
    }
}

impl View for TilingRule {
    type V = RuleModel;

    open spec fn view(&self) -> RuleModel {
        RuleModel { corners: self.tile@, result: self.result@ }
    }
}

impl View for TilingStep {
    type V = StepModel;

    open spec fn view(&self) -> StepModel {
        StepModel {
            rules: Seq::new(self.rules@.len(), |r: int| self.rules@[r]@),
            expansion_factor: self.expansion_factor,
        }
    }
}

/// Every placement that a rule lists names a tile of the rule set.
pub open spec fn rules_closed(rules: Seq<RuleModel>) -> bool {
    forall|r: int, k: int|
        0 <= r < rules.len() && 0 <= k < rules[r].result.len() ==> (#[trigger] rules[r].result[k]).tile_id
            < rules.len()
}

/// Every placement of `placements` names a tile of the rule set.
pub open spec fn placements_valid(rules: Seq<RuleModel>, placements: Seq<TilePlacement>) -> bool {
    forall|i: int| 0 <= i < placements.len() ==> (#[trigger] placements[i]).tile_id < rules.len()
}

impl TilingStep {
    /// The rule set refers to its own tiles only.
    pub open spec fn wf(&self) -> bool {
        rules_closed(self@.rules)
    }

    /// The empty rule set, with the ratio 1.
    pub fn new() -> (step: TilingStep)
        ensures
            step@.rules.len() == 0,
            step.expansion_factor == UNIT_FACTOR,
            step.wf(),
    {
        TilingStep { rules: Vec::new(), expansion_factor: UNIT_FACTOR }
    }

    /// Whether each of `placements` names a tile of this rule set.
    pub fn accepts(&self, placements: &Vec<TilePlacement>) -> (ok: bool)
        ensures
            ok == placements_valid(self@.rules, placements@),
    {
        let mut i: usize = 0;
        while i < placements.len()
            invariant
                i <= placements.len(),
                self@.rules.len() == self.rules.len(),
                forall|j: int| 0 <= j < i ==> (#[trigger] placements@[j]).tile_id < self.rules.len(),
            decreases placements.len() - i,
        {
            if placements[i].tile_id >= self.rules.len() {
                return false;
            }
            i += 1;
        }
        true
    }

    /// Whether the rule set refers to its own tiles only.
    pub fn is_well_formed(&self) -> (ok: bool)
        ensures
            ok == self.wf(),
    {
        let mut r: usize = 0;
        while r < self.rules.len()
            invariant
                r <= self.rules.len(),
                self@.rules.len() == self.rules.len(),
                forall|q: int, k: int|
                    0 <= q < r && 0 <= k < self@.rules[q].result.len() ==> (
                    #[trigger] self@.rules[q].result[k]).tile_id < self.rules.len(),
            decreases self.rules.len() - r,
        {
            if !self.accepts(&self.rules[r].result) {
                assert(self@.rules[r as int].result == self.rules[r as int].result@);
                return false;
            }
            assert(self@.rules[r as int].result == self.rules[r as int].result@);
            r += 1;
        }
        true
    }
}

} // verus!
