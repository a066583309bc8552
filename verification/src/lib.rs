//! A small data-structure library built around a binary-tree node type with
//! in-order navigation (successor, predecessor, subtree-first) and deletion by
//! predecessor swap, together with the simpler collaborators it grew out of:
//! a tagged payload value, lisp-style cons cells, a persistent list, a manually
//! counted reference counter, and a nullable smart-pointer model.

pub mod cell;
pub mod cons;
pub mod deep_clone;
pub mod list;
pub mod node;
pub mod refcounter;
pub mod tree;
pub mod unique_pointer;
pub mod value;

pub use cell::Cell;
pub use cons::{car, cdr, cons};
pub use deep_clone::DeepClone;
pub use list::List;
pub use node::{subtree_delete, Dir, Node};
pub use refcounter::RefCounter;
pub use unique_pointer::UniquePointer;
pub use value::Value;
