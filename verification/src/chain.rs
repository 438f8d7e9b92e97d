//! Expressions as the searches hold them: chains whose tails are shared
//! between the positions of a search.

use crate::equations::{compose, terminal, Equation, OpType, Operation};
use std::rc::Rc;
use vstd::prelude::*;

verus! {

/// An expression whose tail may be shared between positions.
pub enum Chain {
    Last(i32),
    Link(i32, OpType, Rc<Chain>),
}

impl Chain {
    /// The expression that the chain stands for.
    pub open spec fn equation(&self) -> Equation
        decreases self,
    {
        match self {
            Chain::Last(number) => terminal(*number),
            Chain::Link(number, op, rest) => compose(*number, *op, rest.equation()),
        }
    }

    /// The first number of the chain.
    pub fn number(&self) -> (n: i32)
        ensures
            n == self.equation().number,
    {
        match self {
            Chain::Last(number) => *number,
            Chain::Link(number, _, _) => *number,
        }
    }

    /// The chain as an expression of its own.
    pub fn to_equation(&self) -> (e: Equation)
        ensures
            e == self.equation(),
        decreases self,
    {
        match self {
            Chain::Last(number) => Equation::terminate(*number),
            Chain::Link(number, op, rest) => {
                let inner: &Chain = &**rest;
                Equation::new(*number, Operation::with(*op, inner.to_equation()))
            },
        }
    }
}

/// The expression of a found chain.
pub open spec fn found_equation(found: Option<Rc<Chain>>) -> Option<Equation> {
    match found {
        Some(chain) => Some(chain.equation()),
        None => None,
    }
}

} // verus!
