//! Parsing and evaluation of tabletop dice-roll expressions such as
//! `1d20 + 2d6 - 1`: a small grammar of signed dice terms and integer
//! modifiers, a flat in-memory representation, uniform sampling of each
//! die, and a human-readable trace line with the signed total.

pub mod dice;
pub mod parse;
pub mod render;

use vstd::prelude::*;

verus! {

pub use crate::dice::Sign;
pub use crate::dice::SingleDieRoll;
pub use crate::dice::CompositeRoll;
pub use crate::dice::roll_dice;
pub use crate::dice::total;
pub use crate::parse::parse_roll_string;
pub use crate::render::format_roll;

} // verus!
