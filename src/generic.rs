//! Generic constructions of updatable encryption from building blocks.
use vstd::prelude::*;

mod hybrid;
mod naive;
mod null;

pub use self::hybrid::{rekey_header, Kss, ReCrypt};
pub use self::naive::{holds_key, KemDem, Naive};
pub use self::null::NullCipher;

verus! {

} // verus!
