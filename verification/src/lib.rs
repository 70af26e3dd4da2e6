//! A fast but limited allocation arena for values of a single type.
//!
//! Values are allocated one after another into chunks of storage and stay
//! where they were put until the arena goes away: there is no way to free a
//! single value. Allocation is cheap, typically one push onto a buffer, and
//! [`Arena::into_vec`] gives all the values back in the order in which they
//! were allocated.
//!
//! Every function is verified against a contract. The contracts speak of an
//! arena as the sequence of its chunks ([`Arena::chunks`]), each with its
//! values and its number of slots, and of the values of all chunks in order
//! (the view of the arena).
//!
//! - [`arena`]: the arena, single and bulk allocation, and what they do to
//!   the chunks.
//! - [`chunk`] and [`chunk_list`]: the storage and how it grows.
//! - [`growth`]: the size of the next chunk.
//! - [`iter`]: the cursor over all values.
//! - [`uninit`]: slots that are set aside and filled later.
//! - [`slots`]: why a value never leaves its slot.

pub mod arena;
pub mod chunk;
pub mod chunk_list;
pub mod growth;
pub mod iter;
pub mod slots;
pub mod uninit;

pub use arena::Arena;
pub use chunk::ChunkView;
pub use chunk_list::ChunkList;
pub use iter::IterMut;
pub use iter::IterMutState;
pub use uninit::RawSlots;
pub use uninit::UninitSlots;
