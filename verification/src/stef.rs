//! State machines that answer actions with effects, and wrappers that add
//! behaviour to them.

pub mod combinators;
pub mod diagram;
pub mod framing;
pub mod nested;
pub mod recording;
pub mod share;
pub mod state;

pub use combinators::{Act, RunEffects, StoreEffects};
pub use recording::{ActionRecorder, FileActionRecorder, MemoryCassette, RecordActions};
pub use nested::{Nested, Transformer};
pub use share::Share;
pub use state::{State, Total};
