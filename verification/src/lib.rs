//! Node.js core concepts, modelled from scratch: CommonJS module resolution
//! and the ordering rules of the event loop.
//!
//! - [`resolve`]: the path resolution of `require(path)` (relative paths,
//!   `.js`/`.json` completion, a directory's `index`, `package.json`'s
//!   `main`, the `node_modules` search), over an abstract [`FileSystem`].
//! - [`event_loop`]: next-tick queue, then microtask queue, then the timer
//!   phase, over a logical clock.
//! - [`runtime`] and [`rpoem_adapter`]: the boundary to a real runtime.
//! - [`fs`]: the metadata record of `fs.statSync`.
pub mod event_loop;
pub mod fs;
pub mod path;
pub mod resolve;
pub mod rpoem_adapter;
pub mod runtime;
mod text;

pub use event_loop::{EventLoop, Executed, TaskId, TaskKind};
pub use resolve::{resolve, FileSystem, MapFileSystem, ResolveError};
