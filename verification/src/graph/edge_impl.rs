//! Edge implementations for plain tuples: `(start, to)` with unit weight, and
//! `(start, to, weight)`.

use crate::graph::{Edge, WeightedEdge};
use vstd::prelude::*;

verus! {

impl Edge for (usize, usize) {
    open spec fn start_spec(&self) -> int {
        self.0 as int
    }

    open spec fn to_spec(&self) -> int {
        self.1 as int
    }

    fn start(&self) -> (r: usize) {
        self.0
    }

    fn to(&self) -> (r: usize) {
        self.1
    }
}

impl WeightedEdge<usize> for (usize, usize) {
    open spec fn weight_spec(&self) -> usize {
        1
    }

    fn weight(&self) -> (r: usize) {
        1
    }
}

impl<T> Edge for (usize, usize, T) {
    open spec fn start_spec(&self) -> int {
        self.0 as int
    }

    open spec fn to_spec(&self) -> int {
        self.1 as int
    }

    fn start(&self) -> (r: usize) {
        self.0
    }

    fn to(&self) -> (r: usize) {
        self.1
    }
}

impl<T: Copy> WeightedEdge<T> for (usize, usize, T) {
    open spec fn weight_spec(&self) -> T {
        self.2
    }

    fn weight(&self) -> (r: T) {
        self.2
    }
}

} // verus!
