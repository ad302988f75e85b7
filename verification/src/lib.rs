use vstd::prelude::*;

pub mod cli;
pub mod convert;
pub mod num;
pub mod paths;
mod ordered;
pub mod playlist;
pub mod resolve;
pub mod round_trip;
pub mod text;
pub mod xspf;
pub mod xspf_round_trip;

verus! {
}
