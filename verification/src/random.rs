//! The random numbers that the random topologies draw, from `rand`'s
//! thread-local generator.
use rand::rngs::ThreadRng;
use rand::Rng;
use vstd::prelude::*;

verus! {

/// `rand`'s thread-local generator, carried through as an opaque value.
#[verifier::external_type_specification]
#[verifier::external_body]
pub struct ExThreadRng(ThreadRng);

/// The thread-local generator of `rand` (`rand::thread_rng`). Nothing is
/// claimed of it.
#[verifier::external_body]
pub(crate) fn thread_rng() -> ThreadRng {
    rand::thread_rng()
}

/// The live generator, with a record, kept for proofs only, of what it gave:
/// each 64-bit draw, and each index draw with the bound it was drawn below.
pub struct Source {
    rng: ThreadRng,
    drawn: Ghost<Seq<u64>>,
    picked: Ghost<Seq<(usize, usize)>>,
}

impl Source {
    /// The 64-bit draws taken so far, in order.
    pub closed spec fn drawn(&self) -> Seq<u64> {
        self.drawn@
    }

    /// The index draws taken so far, in order, each as the pair of its
    /// bound and the index drawn below it.
    pub closed spec fn picked(&self) -> Seq<(usize, usize)> {
        self.picked@
    }

    /// The thread-local generator, with nothing drawn yet.
    pub fn new() -> (s: Source)
        ensures
            s.drawn() == Seq::<u64>::empty(),
            s.picked() == Seq::<(usize, usize)>::empty(),
    {
        Source { rng: thread_rng(), drawn: Ghost(Seq::empty()), picked: Ghost(Seq::empty()) }
    }
}

/// Sixty-four random bits (`Rng::gen::<u64>`, which is `next_u64` of the
/// thread-local generator). Any value may come back; the claim is only that
/// the value returned is the one the source's record gains, and that no index
/// draw is recorded.
#[verifier::external_body]
pub(crate) fn next_draw(src: &mut Source) -> (r: u64)
    ensures
        final(src).drawn() == old(src).drawn().push(r),
        final(src).picked() == old(src).picked(),
{
    src.rng.gen::<u64>()
}

/// A random index below `n` (`Rng::gen_range(0..n)`). The crate's
/// documentation promises a value of the range; it panics on an empty range,
/// which `requires` leaves out. The source's record gains the bound `n` with
/// the value returned, and no 64-bit draw.
#[verifier::external_body]
pub(crate) fn draw_below(src: &mut Source, n: usize) -> (r: usize)
    requires
        n > 0,
    ensures
        r < n,
        final(src).picked() == old(src).picked().push((n, r)),
        final(src).drawn() == old(src).drawn(),
{
    src.rng.gen_range(0..n)
}

/// A draw of 64 random bits passes a probability test when its upper 53
/// bits, read as a number, are below `threshold`. With `threshold` the
/// ceiling of `p * 2^53` (clamped to `0..=2^53`) this is exactly the test
/// `x < p` on the uniform number `x` in `[0, 1)` that the same bits make.
pub open spec fn passes(draw: u64, threshold: u64) -> bool {
    (draw as int) / 2048 < threshold as int
}

/// The probability test of `passes` on one draw.
pub fn draw_passes(draw: u64, threshold: u64) -> (b: bool)
    ensures
        b == passes(draw, threshold),
{
    assert((draw >> 11u64) == draw / 2048) by (bit_vector);
    (draw >> 11) < threshold
}

/// Every draw passes the test of the largest threshold, `2^53`.
pub proof fn lemma_passes_full(draw: u64, threshold: u64)
    requires
        threshold >= 0x20_0000_0000_0000,
    ensures
        passes(draw, threshold),
{
    assert(draw / 2048 < 0x20_0000_0000_0000) by (bit_vector);
}

/// The draws that pass `threshold` are exactly the 64-bit values below
/// `threshold * 2^11`: of the `2^64` equally likely values of a uniform
/// draw, a share of `threshold / 2^53` passes (all of them from `2^53` on).
pub proof fn lemma_passes_below(draw: u64, threshold: u64)
    ensures
        passes(draw, threshold) <==> (draw as int) < threshold as int * 2048,
{
    let d = draw as int;
    let t = threshold as int;
    assert(d / 2048 < t <==> d < t * 2048) by (nonlinear_arith)
        requires d >= 0, t >= 0;
}


/// Where the small world's draws come from: the live generator, or given
/// sequences of coins and picks read from the front.
pub enum Draws<'a> {
    Live(Source),
    Given { coins: &'a [u64], picks: &'a [usize], next_coin: usize, next_pick: usize },
}

impl<'a> Draws<'a> {
    /// The given coins (empty for live draws).
    pub open spec fn given_coins(self) -> Seq<u64> {
        match self {
            Draws::Given { coins, .. } => coins@,
            Draws::Live(_) => Seq::empty(),
        }
    }

    /// The given picks (empty for live draws).
    pub open spec fn given_picks(self) -> Seq<usize> {
        match self {
            Draws::Given { picks, .. } => picks@,
            Draws::Live(_) => Seq::empty(),
        }
    }

    /// The 64-bit draws the live source has given (empty for given draws).
    pub open spec fn live_coins(self) -> Seq<u64> {
        match self {
            Draws::Live(src) => src.drawn(),
            Draws::Given { .. } => Seq::empty(),
        }
    }

    /// The index draws the live source has given, with their bounds (empty
    /// for given draws).
    pub open spec fn live_picks(self) -> Seq<(usize, usize)> {
        match self {
            Draws::Live(src) => src.picked(),
            Draws::Given { .. } => Seq::empty(),
        }
    }

    /// How many given coins were read.
    pub open spec fn coins_read(self) -> int {
        match self {
            Draws::Given { next_coin, .. } => next_coin as int,
            Draws::Live(_) => 0,
        }
    }

    /// How many given picks were read.
    pub open spec fn picks_read(self) -> int {
        match self {
            Draws::Given { next_pick, .. } => next_pick as int,
            Draws::Live(_) => 0,
        }
    }

    /// The next coin: a fresh 64-bit draw of the live source, which its
    /// record gains, or the next given one (`None` when the given coins are
    /// used up).
    pub fn coin(&mut self) -> (c: Option<u64>)
        ensures
            *old(self) is Live ==> {
                &&& *final(self) is Live
                &&& c matches Some(x) && final(self).live_coins() == old(self).live_coins().push(x)
                &&& final(self).live_picks() == old(self).live_picks()
            },
            *old(self) is Given ==> {
                &&& *final(self) is Given
                &&& final(self).given_coins() == old(self).given_coins()
                &&& final(self).given_picks() == old(self).given_picks()
                &&& final(self).picks_read() == old(self).picks_read()
                &&& if old(self).coins_read() < old(self).given_coins().len() {
                    &&& c == Some(old(self).given_coins()[old(self).coins_read()])
                    &&& final(self).coins_read() == old(self).coins_read() + 1
                } else {
                    &&& c is None
                    &&& final(self).coins_read() == old(self).coins_read()
                }
            },
    {
        match self {
            Draws::Live(src) => Some(next_draw(src)),
            Draws::Given { coins, next_coin, .. } => {
                if *next_coin < coins.len() {
                    let c = coins[*next_coin];
                    *next_coin = *next_coin + 1;
                    Some(c)
                } else {
                    None
                }
            },
        }
    }

    /// The next pick below `n`: a fresh index drawn below `n` by the live
    /// source, which its record gains with the bound `n`, or the next given
    /// one (`None` when the given picks are used up or the next one is not
    /// below `n`).
    pub fn pick(&mut self, n: usize) -> (p: Option<usize>)
        requires
            n > 0,
        ensures
            *old(self) is Live ==> {
                &&& *final(self) is Live
                &&& p matches Some(r) && r < n && final(self).live_picks() == old(self).live_picks().push((n, r))
                &&& final(self).live_coins() == old(self).live_coins()
            },
            *old(self) is Given ==> {
                &&& *final(self) is Given
                &&& final(self).given_coins() == old(self).given_coins()
                &&& final(self).given_picks() == old(self).given_picks()
                &&& final(self).coins_read() == old(self).coins_read()
                &&& if old(self).picks_read() < old(self).given_picks().len()
                    && old(self).given_picks()[old(self).picks_read()] < n {
                    &&& p == Some(old(self).given_picks()[old(self).picks_read()])
                    &&& final(self).picks_read() == old(self).picks_read() + 1
                } else {
                    &&& p is None
                    &&& final(self).picks_read() == old(self).picks_read()
                }
            },
    {
        match self {
            Draws::Live(src) => Some(draw_below(src, n)),
            Draws::Given { picks, next_pick, .. } => {
                if *next_pick < picks.len() && picks[*next_pick] < n {
                    let p = picks[*next_pick];
                    *next_pick = *next_pick + 1;
                    Some(p)
                } else {
                    None
                }
            },
        }
    }
}

} // verus!
