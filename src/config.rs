use vstd::prelude::*;

verus! {

/// A connection probability written as the ratio `numerator / denominator`.
#[derive(Clone, Copy, Debug, PartialEq, Eq, Structural)]
pub struct Probability {
    pub numerator: u32,
    pub denominator: u32,
}

impl Probability {
    /// A probability lies in `[0, 1]` and has a positive denominator.
    pub open spec fn wf(self) -> bool {
        0 < self.denominator && self.numerator <= self.denominator
    }

    /// The probability that never connects.
    pub open spec fn is_never(self) -> bool {
        self.numerator == 0
    }

    /// The probability that always connects.
    pub open spec fn is_always(self) -> bool {
        self.numerator == self.denominator
    }

    /// Builds `numerator / denominator`; `None` unless it lies in `[0, 1]`.
    pub fn new(numerator: u32, denominator: u32) -> (r: Option<Probability>)
        ensures
            r is Some <==> (0 < denominator && numerator <= denominator),
            r is Some ==> r->0.numerator == numerator && r->0.denominator == denominator,
            r is Some ==> r->0.wf(),
    {
        if 0 < denominator && numerator <= denominator {
            Some(Probability { numerator, denominator })
        } else {
            None
        }
    }
}

/// The locality bound used for generation: `0`, or a value of at least
/// `node_count`, means no restriction and becomes `node_count`.
pub open spec fn normalized_locality(node_count: int, locality: int) -> int {
    if locality == 0 || locality >= node_count {
        node_count
    } else {
        locality
    }
}

/// Turns a requested locality into the bound that generation works with.
pub fn normalize_locality(node_count: usize, locality: usize) -> (r: usize)
    ensures
        r == normalized_locality(node_count as int, locality as int),
        r <= node_count,
        node_count > 0 ==> r >= 1,
{
    if locality == 0 || locality >= node_count {
        node_count
    } else {
        locality
    }
}

/// A complete, normalised generation request.
#[derive(Clone, Copy, Debug, PartialEq, Eq, Structural)]
pub struct Config {
    pub node_count: usize,
    pub connectedness: Probability,
    pub locality: usize,
    pub wraparound: bool,
    pub directed: bool,
}

impl Config {
    /// A configuration whose probability is valid and whose locality is normalised.
    pub open spec fn wf(self) -> bool {
        &&& self.connectedness.wf()
        &&& self.locality <= self.node_count
        &&& self.node_count > 0 ==> self.locality >= 1
    }

    /// Builds a configuration, normalising the locality bound.
    pub fn new(
        node_count: usize,
        connectedness: Probability,
        locality: usize,
        wraparound: bool,
        directed: bool,
    ) -> (r: Config)
        requires
            connectedness.wf(),
        ensures
            r.wf(),
            r.node_count == node_count,
            r.connectedness == connectedness,
            r.locality == normalized_locality(node_count as int, locality as int),
            r.wraparound == wraparound,
            r.directed == directed,
    {
        let locality = normalize_locality(node_count, locality);
        Config { node_count, connectedness, locality, wraparound, directed }
    }
}

} // verus!
