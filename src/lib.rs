//! Safe access to the map terms of a host runtime, a cursor over their
//! entries, decoding of range records, and the trial-decoding codec of
//! untagged sum types together with the checks of its generator.
pub mod codec;
pub mod iter;
pub mod map;
pub mod term;
pub mod untagged;

pub use codec::{Decoder, Encoder, RangeValue};
pub use iter::MapIterator;
pub use map::map_new;
pub use term::{Env, Error, Term};
