//! A railML infrastructure reader that builds a branching track model, and a
//! walker that moves a cursor along that model, with verified contracts.

pub mod direction;
pub mod text;
pub mod length;
pub mod xml;
pub mod model;
pub mod branching;
pub mod walk;
pub mod problem;
pub mod laws;
