//! An intrusive doubly-linked list whose link containers live inside the
//! elements, verified with Verus.
pub mod compare;
pub mod iter;
pub mod laws;
pub mod linked_list;
pub mod node;
pub mod pool;
pub mod rawlink;
pub mod ring;

pub use iter::{IntoIter, Iter, IterMut};
pub use linked_list::{DList, LinkedList};
pub use node::{Links, NodeImpl};
pub use pool::Pool;
pub use rawlink::Rawlink;
