//! What the search has in hand, and what it cost to get.
//!
//! The state is a value: every step takes a [`Progress`], adds what it found,
//! and hands it back, so nothing changes behind a caller's back. Points are
//! generic: the library never looks inside one.
use vstd::prelude::*;

verus! {

/// One round of uniform proposals: the feasible points kept, and how many
/// candidates were judged to get them.
pub struct Trial<P> {
    pub points: Vec<P>,
    pub proposed: u64,
}

/// How the pool delivers, once the probe has said which.
#[derive(Debug, Clone, Copy, PartialEq, Eq, Structural)]
pub enum Route {
    /// Plain sampling reaches the region often enough; nothing else runs.
    Sampling,
    /// It does not: seed from whatever lands and deliver with the walker.
    Walking,
}

/// Everything the search has in hand: every feasible point from any source,
/// the uniform candidates judged so far and how many of them were kept, and
/// the route once the opening has settled it.
pub struct Progress<P> {
    points: Vec<P>,
    proposed: u64,
    landed: usize,
    route: Option<Route>,
}

impl<P> Progress<P> {
    /// Points kept from trials are among the points in hand.
    #[verifier::type_invariant]
    spec fn landed_in_hand(self) -> bool {
        self.landed <= self.points@.len()
    }

    /// Every point in hand, in the order it arrived.
    pub closed spec fn spec_points(self) -> Seq<P> {
        self.points@
    }

    /// Uniform candidates judged so far.
    pub closed spec fn spec_proposed(self) -> nat {
        self.proposed as nat
    }

    /// Points kept from those candidates.
    pub closed spec fn spec_landed(self) -> nat {
        self.landed as nat
    }

    /// The settled route, if the opening has settled one.
    pub closed spec fn spec_route(self) -> Option<Route> {
        self.route
    }

    /// Nothing in hand, nothing tried, no route.
    pub fn empty() -> (p: Progress<P>)
        ensures
            p.spec_points() == Seq::<P>::empty(),
            p.spec_proposed() == 0,
            p.spec_landed() == 0,
            p.spec_route() is None,
    {
        Progress { points: Vec::new(), proposed: 0, landed: 0, route: None }
    }

    /// Takes in a round of uniform proposals: its points join those in hand,
    /// and both its cost and its points count as trials.
    pub fn absorb(self, trial: Trial<P>) -> (p: Progress<P>)
        requires
            self.spec_proposed() + trial.proposed <= u64::MAX,
        ensures
            p.spec_points() == self.spec_points() + trial.points@,
            p.spec_proposed() == self.spec_proposed() + trial.proposed,
            p.spec_landed() == self.spec_landed() + trial.points@.len(),
            p.spec_route() == self.spec_route(),
    {
        proof {
            use_type_invariant(&self);
        }
        let Progress { mut points, proposed, landed, route } = self;
        let Trial { points: mut found, proposed: cost } = trial;
        let count = found.len();
        points.append(&mut found);
        proof {
            assert(landed + count <= points.len());
        }
        Progress { points, proposed: proposed + cost, landed: landed + count, route }
    }

    /// Takes in points that were not proposed at random (walked to, or handed
    /// over by a solver): they join the points in hand and count as no trial.
    pub fn extend(self, more: Vec<P>) -> (p: Progress<P>)
        ensures
            p.spec_points() == self.spec_points() + more@,
            p.spec_proposed() == self.spec_proposed(),
            p.spec_landed() == self.spec_landed(),
            p.spec_route() == self.spec_route(),
    {
        proof {
            use_type_invariant(&self);
        }
        let Progress { mut points, proposed, landed, route } = self;
        let mut more = more;
        points.append(&mut more);
        Progress { points, proposed, landed, route }
    }

    /// Settles the route. The first call wins; later calls change nothing.
    pub fn pin(self, route: Route) -> (p: Progress<P>)
        ensures
            p.spec_points() == self.spec_points(),
            p.spec_proposed() == self.spec_proposed(),
            p.spec_landed() == self.spec_landed(),
            p.spec_route() == (match self.spec_route() {
                Some(settled) => Some(settled),
                None => Some(route),
            }),
    {
        proof {
            use_type_invariant(&self);
        }
        let Progress { points, proposed, landed, route: settled } = self;
        let route = match settled {
            Some(r) => Some(r),
            None => Some(route),
        };
        Progress { points, proposed, landed, route }
    }

    /// The settled route. Asking before the opening has settled one is a
    /// mistake of the caller's.
    pub fn route(&self) -> (r: Route)
        requires
            self.spec_route() is Some,
        ensures
            self.spec_route() == Some(r),
    {
        match self.route {
            Some(r) => r,
            None => {
                proof {
                    assert(false);
                }
                Route::Sampling
            },
        }
    }

    /// The points in hand.
    pub fn points(&self) -> (points: &[P])
        ensures
            points@ == self.spec_points(),
    {
        self.points.as_slice()
    }

    /// Whether no point is in hand.
    pub fn is_empty(&self) -> (empty: bool)
        ensures
            empty == (self.spec_points().len() == 0),
    {
        self.points.is_empty()
    }

    /// Uniform candidates judged so far.
    pub fn proposed(&self) -> (n: u64)
        ensures
            n == self.spec_proposed(),
    {
        self.proposed
    }

    /// Points kept from them.
    pub fn landed(&self) -> (n: usize)
        ensures
            n == self.spec_landed(),
    {
        self.landed
    }
}

} // verus!
