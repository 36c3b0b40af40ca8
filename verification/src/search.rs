//! Search for good generator polynomials.
//!
//! [`enumerate`] lists the candidates, [`batch`] hands them out, and [`best`]
//! keeps the best: those with the largest free distance ([`shortest`]) and, among
//! these, the fewest paths at that distance ([`spectrum`]). [`walk`] models the
//! code as a graph, [`bounds`] limits the free distance from above, and
//! [`weight`] and [`gf2`] treat the generators as polynomials.
//!
//! The lemmas that span these stand apart: [`complete`] proves that a finished
//! search has missed nothing, [`order`] how its list is ordered, [`limits`] that the
//! bounds hold of every code, and [`mirror`] that a code and its [`reciprocal`] share
//! their distance spectrum. [`meaning`] says what the distances are in terms of the
//! encoder's output, and [`listing`] what the list and the bounds are in plain numbers.

pub mod batch;
pub mod best;
pub mod bounds;
pub mod complete;
pub mod enumerate;
pub mod gf2;
pub mod limits;
pub mod listing;
pub mod meaning;
pub mod mirror;
pub mod order;
pub mod reciprocal;
pub mod shortest;
pub mod spectrum;
pub mod walk;
pub mod weight;
