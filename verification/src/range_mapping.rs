//! The lookup from a rectangle of cells to the range vertex that stands for
//! it.

use crate::address::SimpleCellAddress;
use crate::vertex::RangeVertex;
use std::collections::HashMap;
use vstd::prelude::*;

verus! {

broadcast use vstd::std_specs::hash::group_hash_axioms;

/// One coordinate, moved into the range of a `u32`.
spec fn key_part(x: i32) -> int {
    x + 0x8000_0000
}

/// The four coordinates of a rectangle, packed side by side into one number.
spec fn range_key(start: SimpleCellAddress, end: SimpleCellAddress) -> int {
    ((key_part(start.col) * 0x1_0000_0000 + key_part(start.row)) * 0x1_0000_0000 + key_part(
        end.col,
    )) * 0x1_0000_0000 + key_part(end.row)
}

/// A number and a 32-bit digit packed into one can both be read back.
proof fn lemma_pack_injective(high: int, digit: int, other_high: int, other_digit: int)
    requires
        0 <= digit < 0x1_0000_0000,
        0 <= other_digit < 0x1_0000_0000,
        high * 0x1_0000_0000 + digit == other_high * 0x1_0000_0000 + other_digit,
    ensures
        high == other_high,
        digit == other_digit,
{
    if high < other_high {
        assert(high * 0x1_0000_0000 + 0x1_0000_0000 <= other_high * 0x1_0000_0000);
    } else if high > other_high {
        assert(other_high * 0x1_0000_0000 + 0x1_0000_0000 <= high * 0x1_0000_0000);
    }
}

/// Different rectangles have different keys.
proof fn lemma_range_key_injective(
    start: SimpleCellAddress,
    end: SimpleCellAddress,
    other_start: SimpleCellAddress,
    other_end: SimpleCellAddress,
)
    requires
        range_key(start, end) == range_key(other_start, other_end),
    ensures
        start == other_start,
        end == other_end,
{
    let a = key_part(start.col) * 0x1_0000_0000 + key_part(start.row);
    let b = key_part(other_start.col) * 0x1_0000_0000 + key_part(other_start.row);
    lemma_pack_injective(
        (a * 0x1_0000_0000 + key_part(end.col)),
        key_part(end.row),
        (b * 0x1_0000_0000 + key_part(other_end.col)),
        key_part(other_end.row),
    );
    lemma_pack_injective(a, key_part(end.col), b, key_part(other_end.col));
    lemma_pack_injective(
        key_part(start.col),
        key_part(start.row),
        key_part(other_start.col),
        key_part(other_start.row),
    );
}

fn compute_key(start: &SimpleCellAddress, end: &SimpleCellAddress) -> (key: u128)
    ensures
        key == range_key(*start, *end),
{
    let a: u128 = (start.col as i64 + 0x8000_0000) as u128;
    let b: u128 = (start.row as i64 + 0x8000_0000) as u128;
    let c: u128 = (end.col as i64 + 0x8000_0000) as u128;
    let d: u128 = (end.row as i64 + 0x8000_0000) as u128;
    ((a * 0x1_0000_0000 + b) * 0x1_0000_0000 + c) * 0x1_0000_0000 + d
}

/// The registered ranges, each found by the rectangle it covers.
pub struct RangeMapping {
    mapping: HashMap<u128, RangeVertex>,
}

impl View for RangeMapping {
    type V = Map<(SimpleCellAddress, SimpleCellAddress), RangeVertex>;

    closed spec fn view(&self) -> Map<(SimpleCellAddress, SimpleCellAddress), RangeVertex> {
        Map::new(
            |corners: (SimpleCellAddress, SimpleCellAddress)|
                self.mapping@.contains_key(range_key(corners.0, corners.1) as u128),
            |corners: (SimpleCellAddress, SimpleCellAddress)|
                self.mapping@[range_key(corners.0, corners.1) as u128],
        )
    }
}

/// A mapping without ranges.
#[allow(non_snake_case)]
pub fn buildRangeMapping() -> (ranges: RangeMapping)
    ensures
        ranges@ == Map::<(SimpleCellAddress, SimpleCellAddress), RangeVertex>::empty(),
{
    let ranges = RangeMapping { mapping: HashMap::new() };
    assert(ranges@ =~= Map::empty());
    ranges
}

impl RangeMapping {
    /// The range registered for the rectangle from `start` to `end`, if
    /// there is one.
    pub fn maybe_get_range(&self, start: &SimpleCellAddress, end: &SimpleCellAddress) -> (res:
        Option<RangeVertex>)
        ensures
            res == (if self@.contains_key((*start, *end)) {
                Some(self@[(*start, *end)])
            } else {
                None
            }),
    {
        let key = compute_key(start, end);
        match self.mapping.get(&key) {
            Some(vertex) => Some(*vertex),
            None => None,
        }
    }

    /// The range registered for the rectangle from `start` to `end`.
    pub fn get_range(&self, start: &SimpleCellAddress, end: &SimpleCellAddress) -> (vertex:
        RangeVertex)
        requires
            self@.contains_key((*start, *end)),
        ensures
            vertex == self@[(*start, *end)],
    {
        let key = compute_key(start, end);
        *self.mapping.get(&key).unwrap()
    }

    /// Registers `node` for the rectangle it covers, in place of what was
    /// registered for that rectangle before.
    pub fn set_range(&mut self, node: RangeVertex)
        ensures
            final(self)@ == old(self)@.insert((node.start, node.end), node),
    {
        let key = compute_key(&node.start, &node.end);
        self.mapping.insert(key, node);
        assert forall|corners: (SimpleCellAddress, SimpleCellAddress)|
            range_key(corners.0, corners.1) == range_key(node.start, node.end) implies corners == (
            node.start,
            node.end,
        ) by {
            lemma_range_key_injective(corners.0, corners.1, node.start, node.end);
        }
        assert(self@ =~= old(self)@.insert((node.start, node.end), node));
    }
}

} // verus!
