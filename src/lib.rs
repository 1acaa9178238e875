//! A channel from many producers to one consumer that hands out the nodes of
//! a tree, reported in any order, either as they arrive or in pre-order.

pub mod order;
pub mod queue;
pub mod release;
pub mod tracker;
pub mod tree;
