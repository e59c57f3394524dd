use vstd::prelude::*;

verus! {

/// The lowest chunk a ticking area covers.
pub open spec fn area_low(center_chunk: i64, radius: u32) -> int {
    if center_chunk - radius < i64::MIN {
        i64::MIN as int
    } else {
        center_chunk - radius
    }
}

/// The highest chunk a ticking area covers.
pub open spec fn area_high(center_chunk: i64, radius: u32) -> int {
    if center_chunk + radius > i64::MAX {
        i64::MAX as int
    } else {
        center_chunk + radius
    }
}

/// A bounded horizontal band that stays simulated regardless of where the player is.
#[derive(Debug, Clone, Copy, PartialEq, Eq, Structural)]
pub struct TickingArea {
    pub center_chunk: i64,
    pub radius: u32,
}

impl TickingArea {
    pub fn new(center_chunk: i64, radius: u32) -> (result: TickingArea)
        ensures
            result == (TickingArea { center_chunk, radius }),
    {
        TickingArea { center_chunk, radius }
    }

    /// Whether the area covers chunk `chunk_x`: it lies at most `radius` chunks from the center.
    pub fn contains(self, chunk_x: i64) -> (result: bool)
        ensures
            result == (-(self.radius as int) <= chunk_x - self.center_chunk <= self.radius),
    {
        let distance: i128 = chunk_x as i128 - self.center_chunk as i128;
        -(self.radius as i128) <= distance && distance <= self.radius as i128
    }

    /// The chunks this area covers, ascending, skipping coordinates that would overflow.
    pub fn chunks(self) -> (result: Vec<i64>)
        ensures
            result@ == Seq::new(
                (area_high(self.center_chunk, self.radius) - area_low(self.center_chunk, self.radius) + 1) as nat,
                |i: int| (area_low(self.center_chunk, self.radius) + i) as i64,
            ),
    {
        let low: i64 = if (self.center_chunk as i128) - (self.radius as i128) < i64::MIN as i128 {
            i64::MIN
        } else {
            (self.center_chunk as i128 - self.radius as i128) as i64
        };
        let high: i64 = if (self.center_chunk as i128) + (self.radius as i128) > i64::MAX as i128 {
            i64::MAX
        } else {
            (self.center_chunk as i128 + self.radius as i128) as i64
        };
        let ghost lo = area_low(self.center_chunk, self.radius);
        let mut result: Vec<i64> = Vec::new();
        let mut x: i64 = low;
        proof {
            assert(result@ =~= Seq::new((x - lo) as nat, |i: int| (lo + i) as i64));
        }
        loop
            invariant_except_break
                result@ == Seq::new((x - lo) as nat, |i: int| (lo + i) as i64),
            invariant
                low == lo,
                high == area_high(self.center_chunk, self.radius),
                low <= x <= high,
            ensures
                result@ == Seq::new((high - lo + 1) as nat, |i: int| (lo + i) as i64),
            decreases high - x,
        {
            result.push(x);
            proof {
                assert(result@ =~= Seq::new((x + 1 - lo) as nat, |i: int| (lo + i) as i64));
            }
            if x == high {
                break;
            }
            x += 1;
        }
        result
    }
}

/// Supplies the horizontal chunks the simulation may advance this tick.
///
/// Implementations return a sorted, deduplicated, bounded list so evaluation order can never
/// depend on hash iteration.
pub trait SimulationRegionProvider {
    /// The chunks this provider makes active.
    spec fn active_set(&self) -> Set<i64>;

    /// The active chunks, in increasing order.
    fn active_chunks(&self) -> (result: Vec<i64>)
        ensures
            forall|i: int, j: int| 0 <= i < j < result@.len() ==> #[trigger] result@[i] < #[trigger] result@[j],
            forall|x: i64| #[trigger] result@.contains(x) <==> self.active_set().contains(x),
    ;
}

} // verus!
