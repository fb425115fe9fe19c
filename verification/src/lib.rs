//! A small user service: a path classifier, a store of records under reusable
//! integer identifiers, and the dispatcher that turns a method and a path into
//! a status code and a body.

pub mod dispatch;
pub mod laws;
pub mod route;
pub mod store;
pub mod text;
