//! A fixed-capacity ring queue of shared, immutable byte buffers, filled in
//! atomic batches and drained through vectored-write style sessions.

pub mod handle;
pub mod queue;
pub mod stream;

pub use handle::bytes_view;
pub use queue::{Buffers, MpScBytesQueue};
pub use stream::{drain, flatten};
