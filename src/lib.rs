//! A declarative-UI reconciliation core: immutable view descriptions are
//! diffed against their predecessors to patch a retained widget tree, which
//! owns layout state and routes input back to the views that produced it.
pub mod diagram;
pub mod event;
pub mod geometry;
pub mod id;
pub mod optional;
pub mod view;
pub mod widget;
