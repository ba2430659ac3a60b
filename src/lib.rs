pub mod edge;
pub mod layout;
pub mod reconcile;
pub mod search;
pub mod text;
