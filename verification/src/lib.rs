//! A linked list of fixed capacity that allocates once, when it is made, and
//! names each element by a stable slot number.
//!
//! - [`Slab`] is the list: `push_front`, `pop_back`, and `get`, `get_mut` and
//!   `remove` by slot, each in constant time.
//! - [`SlabView`] is its mathematical model, over which every contract is
//!   stated: the live slots front to back, the free slots in the order in
//!   which they will be handed out, and what the cells hold.
//! - [`SlabIterator`] walks the elements from either end.
//! - `bulk` builds a slab from a vector and adds a vector to one.
//! - `laws` states what holds of every slab.

mod bitmap;
pub mod bulk;
pub mod error;
pub mod iter;
pub mod laws;
pub mod model;
pub mod slab;

pub use crate::error::Error;
pub use crate::iter::SlabIterator;
pub use crate::model::{SlabView, Slot, NUL};
pub use crate::slab::{Slab, DEFAULT_CAPACITY};
