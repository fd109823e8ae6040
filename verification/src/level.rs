//! Sources of node heights.

use vstd::prelude::*;

verus! {

/// Something that hands out a height for each new node.
///
/// A list takes whatever `random` returns and brings it into the range of
/// its own levels, so an implementation owes the list nothing.
pub trait LevelGenerator {
    /// The number of levels this generator was made for.
    fn total(&self) -> usize;

    /// The height for the next node.
    fn random(&mut self) -> usize;
}

/// The height that `drawn` stands for among `levels` levels: `drawn`
/// itself, or the nearest end of `1 ..= levels`.
pub open spec fn clamped(drawn: int, levels: int) -> int {
    if drawn < 1 {
        1
    } else if drawn > levels {
        levels
    } else {
        drawn
    }
}

/// The top level of a list whose top was `top` once a node of the height
/// that `drawn` stands for has gone in.
pub open spec fn reach(top: int, drawn: int, levels: int) -> int {
    if clamped(drawn, levels) > top {
        clamped(drawn, levels)
    } else {
        top
    }
}

/// Brings a drawn height into `1 ..= levels`.
pub fn clamp_height(drawn: usize, levels: usize) -> (h: usize)
    requires
        levels >= 1,
    ensures
        h == clamped(drawn as int, levels as int),
        1 <= h <= levels,
{
    if drawn < 1 {
        1
    } else if drawn > levels {
        levels
    } else {
        drawn
    }
}

/// The state that follows `state` in the coin's sequence.
pub open spec fn stepped(state: u64) -> u64 {
    vstd::wrapping::u64_specs::wrapping_add(state, 0x9E37_79B9_7F4A_7C15u64)
}

/// The 64 bits that a state of the coin is mixed into.
pub open spec fn mixed(state: u64) -> u64 {
    let a = vstd::wrapping::u64_specs::wrapping_mul(state ^ (state >> 30u64), 0xBF58_476D_1CE4_E5B9u64);
    let b = vstd::wrapping::u64_specs::wrapping_mul(a ^ (a >> 27u64), 0x94D0_49BB_1331_11EBu64);
    b ^ (b >> 31u64)
}

/// Whether the coin thrown from `state` comes up heads: the top bit of the
/// bits mixed from the next state.
pub open spec fn heads(state: u64) -> bool {
    mixed(stepped(state)) >= 0x8000_0000_0000_0000u64
}

/// Where a climb that stands at height `h` with the coin in `state` ends
/// among `levels` levels, and the state it leaves the coin in: the climb
/// goes one level up for each heads and ends at the first tails or at the
/// top level, where no coin is thrown.
pub open spec fn climbed(state: u64, h: int, levels: int) -> (int, u64)
    decreases levels - h,
{
    if h >= levels {
        (h, state)
    } else if heads(state) {
        climbed(stepped(state), h + 1, levels)
    } else {
        (h, stepped(state))
    }
}

/// Heights with a geometric distribution of parameter one half, cut off at
/// `total` levels: each further level is reached with one more fair coin
/// flip. The coin is a 64-bit mixing generator that starts from a seed, so
/// the same seed gives the same heights.
pub struct GeoLevelGenerator {
    total: usize,
    state: u64,
}

impl GeoLevelGenerator {
    /// A generator for `total` levels. A `total` of zero counts as one.
    pub fn new(total: usize, seed: u64) -> (g: Self)
        ensures
            g.levels() == (if total == 0 { 1 } else { total as int }),
            g.seed() == seed,
    {
        GeoLevelGenerator { total: if total == 0 { 1 } else { total }, state: seed }
    }

    /// The number of levels heights are drawn from.
    pub closed spec fn levels(&self) -> int {
        self.total as int
    }

    /// The state of the coin: the seed that the heights to come follow
    /// from.
    pub closed spec fn seed(&self) -> u64 {
        self.state
    }

    /// Moves the coin to its next state and returns the bits mixed from
    /// it.
    fn next_bits(&mut self) -> (bits: u64)
        ensures
            final(self).state == stepped(old(self).state),
            bits == mixed(final(self).state),
            final(self).total == old(self).total,
    {
        self.state = self.state.wrapping_add(0x9E37_79B9_7F4A_7C15u64);
        let mut z: u64 = self.state;
        z = (z ^ (z >> 30u64)).wrapping_mul(0xBF58_476D_1CE4_E5B9u64);
        z = (z ^ (z >> 27u64)).wrapping_mul(0x94D0_49BB_1331_11EBu64);
        z ^ (z >> 31u64)
    }

    /// Draws a height: one, plus one for each coin that comes up heads
    /// before the first tails, never more than the number of levels.
    pub fn draw(&mut self) -> (h: usize)
        requires
            old(self).levels() >= 1,
        ensures
            h == climbed(old(self).seed(), 1, old(self).levels()).0,
            final(self).seed() == climbed(old(self).seed(), 1, old(self).levels()).1,
            1 <= h <= old(self).levels(),
            final(self).levels() == old(self).levels(),
    {
        let mut h: usize = 1;
        while h < self.total
            invariant_except_break
                climbed(self.state, h as int, self.total as int) == climbed(
                    old(self).state,
                    1,
                    old(self).total as int,
                ),
            invariant
                1 <= h <= self.total,
                self.total == old(self).total,
            ensures
                (h as int, self.state) == climbed(old(self).state, 1, old(self).total as int),
            decreases self.total - h,
        {
            let bits: u64 = self.next_bits();
            if bits >= 0x8000_0000_0000_0000u64 {
                h += 1;
            } else {
                break;
            }
        }
        h
    }
}

impl LevelGenerator for GeoLevelGenerator {
    fn total(&self) -> (t: usize)
        ensures
            t == self.levels(),
    {
        self.total
    }

    /// The height that `draw` gives.
    fn random(&mut self) -> (h: usize)
        ensures
            h == climbed(old(self).seed(), 1, old(self).levels()).0,
            final(self).seed() == climbed(old(self).seed(), 1, old(self).levels()).1,
            h >= 1,
            old(self).levels() >= 1 ==> h <= old(self).levels(),
            final(self).levels() == old(self).levels(),
    {
        if self.total >= 1 {
            self.draw()
        } else {
            1
        }
    }
}

/// Heights read off a fixed list, over and over: the deterministic stand-in
/// for a random generator.
pub struct CyclicLevels {
    heights: Vec<usize>,
    cursor: usize,
}

impl CyclicLevels {
    /// A generator that hands out `heights` in order and starts again at
    /// the front when they run out. With no heights it always hands out 1.
    pub fn new(heights: Vec<usize>) -> (g: Self)
        ensures
            g.pattern() == heights@,
            g.offset() == 0,
    {
        CyclicLevels { heights, cursor: 0 }
    }

    /// The heights that are handed out in turn.
    pub closed spec fn pattern(&self) -> Seq<usize> {
        self.heights@
    }

    /// How far into the pattern the next draw reads.
    pub closed spec fn offset(&self) -> int {
        if self.cursor < self.heights.len() {
            self.cursor as int
        } else {
            0
        }
    }

    /// The next height of the pattern.
    pub fn draw(&mut self) -> (h: usize)
        ensures
            final(self).pattern() == old(self).pattern(),
            old(self).pattern().len() == 0 ==> h == 1 && final(self).offset() == 0,
            old(self).pattern().len() > 0 ==> {
                &&& h == old(self).pattern()[old(self).offset()]
                &&& final(self).offset() == (if old(self).offset() + 1 < old(self).pattern().len() {
                    old(self).offset() + 1
                } else {
                    0
                })
            },
    {
        let len: usize = self.heights.len();
        if len == 0 {
            return 1;
        }
        if self.cursor >= len {
            self.cursor = 0;
        }
        let h: usize = self.heights[self.cursor];
        self.cursor = if self.cursor + 1 < len { self.cursor + 1 } else { 0 };
        h
    }
}

impl LevelGenerator for CyclicLevels {
    /// The largest height of the pattern, and at least 1.
    fn total(&self) -> (t: usize)
        ensures
            t >= 1,
            forall|i: int| 0 <= i < self.pattern().len() ==> #[trigger] self.pattern()[i] <= t,
            t == 1 || exists|i: int| 0 <= i < self.pattern().len() && #[trigger] self.pattern()[i] == t,
    {
        let mut best: usize = 1;
        let mut i: usize = 0;
        while i < self.heights.len()
            invariant
                i <= self.heights.len(),
                best >= 1,
                self.pattern() == self.heights@,
                forall|j: int| 0 <= j < i ==> #[trigger] self.pattern()[j] <= best,
                best == 1 || exists|j: int| 0 <= j < i && #[trigger] self.pattern()[j] == best,
            decreases self.heights.len() - i,
        {
            if self.heights[i] > best {
                best = self.heights[i];
            }
            i += 1;
        }
        best
    }

    fn random(&mut self) -> (h: usize)
        ensures
            final(self).pattern() == old(self).pattern(),
            old(self).pattern().len() == 0 ==> h == 1 && final(self).offset() == 0,
            old(self).pattern().len() > 0 ==> {
                &&& h == old(self).pattern()[old(self).offset()]
                &&& final(self).offset() == (if old(self).offset() + 1 < old(self).pattern().len() {
                    old(self).offset() + 1
                } else {
                    0
                })
            },
    {
        self.draw()
    }
}

} // verus!
