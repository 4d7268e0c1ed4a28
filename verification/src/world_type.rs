//! The kinds of world generators.

use vstd::prelude::*;

verus! {

/// How a new world's terrain is generated.
#[derive(PartialEq, Eq, Structural, Debug, Copy, Clone)]
pub enum GeneratorType {
    Flat,
    Water,
    Alien,
    Default,
}

} // verus!
