//! A rank-indexed priority index for tasks: an AVL tree keyed by rank whose
//! nodes each own a FIFO bucket (an arena-backed doubly linked list) of the
//! tasks that share that rank.
pub mod avl;
pub mod linklist;
pub mod task;

pub use avl::AvlTree;
pub use linklist::{LinkList, Node};
pub use task::Task;
