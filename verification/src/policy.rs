//! Policies that say from which times on a collection has to stay readable.
use timely::progress::Antichain;
use vstd::prelude::*;

use crate::frontier::{antichain_elements, antichain_of, copy_antichain, elements, empty_antichain};
use crate::frontier::Frontier;

verus! {

/// A rule that derives a read frontier from a write frontier.
pub trait FrontierLogic: Sized {
    /// The read frontier that goes with the write frontier `upper`.
    spec fn answer(&self, upper: Frontier) -> Frontier;

    /// The read frontier that goes with the write frontier `upper`.
    fn frontier(&self, upper: &Antichain<u64>) -> (result: Antichain<u64>)
        ensures
            antichain_elements(result) == self.answer(antichain_elements(*upper)),
    ;
}

/// Stays a fixed distance behind the write frontier.
#[derive(Clone, Copy, Debug, PartialEq, Eq, Structural)]
pub struct LagBy {
    /// The distance.
    pub lag: u64,
}

impl FrontierLogic for LagBy {
    open spec fn answer(&self, upper: Frontier) -> Frontier {
        if upper.len() == 0 {
            upper
        } else if upper[0] < self.lag {
            seq![0u64]
        } else {
            seq![(upper[0] - self.lag) as u64]
        }
    }

    fn frontier(&self, upper: &Antichain<u64>) -> (result: Antichain<u64>) {
        let times = elements(upper);
        if times.len() == 0 {
            proof {
                assert(antichain_elements(*upper) =~= Seq::<u64>::empty());
            }
            empty_antichain()
        } else if times[0] < self.lag {
            antichain_of(0)
        } else {
            antichain_of(times[0] - self.lag)
        }
    }
}

/// How the read frontier of a collection follows from its write frontier.
#[derive(Debug)]
pub enum ReadPolicy<L> {
    /// Stay readable from a fixed frontier on.
    ValidFrom(Antichain<u64>),
    /// Stay readable from a frontier on that follows the write frontier.
    LagWriteFrontier(L),
}

/// A read policy, with the elements of its frontier.
#[verifier::ext_equal]
pub enum PolicyModel<L> {
    /// Stay readable from a fixed frontier on.
    ValidFrom(Frontier),
    /// Stay readable from a frontier on that follows the write frontier.
    LagWriteFrontier(L),
}

impl<L: FrontierLogic> PolicyModel<L> {
    /// The read frontier that goes with the write frontier `upper`.
    pub open spec fn answer(self, upper: Frontier) -> Frontier {
        match self {
            PolicyModel::ValidFrom(frontier) => frontier,
            PolicyModel::LagWriteFrontier(logic) => logic.answer(upper),
        }
    }
}

impl<L> View for ReadPolicy<L> {
    type V = PolicyModel<L>;

    open spec fn view(&self) -> PolicyModel<L> {
        match self {
            ReadPolicy::ValidFrom(frontier) => PolicyModel::ValidFrom(
                antichain_elements(*frontier),
            ),
            ReadPolicy::LagWriteFrontier(logic) => PolicyModel::LagWriteFrontier(*logic),
        }
    }
}

impl<L: FrontierLogic> ReadPolicy<L> {
    /// The read frontier that goes with the write frontier `upper`.
    pub fn frontier(&self, upper: &Antichain<u64>) -> (result: Antichain<u64>)
        ensures
            antichain_elements(result) == self@.answer(antichain_elements(*upper)),
    {
        match self {
            ReadPolicy::ValidFrom(frontier) => copy_antichain(frontier),
            ReadPolicy::LagWriteFrontier(logic) => logic.frontier(upper),
        }
    }
}

} // verus!
