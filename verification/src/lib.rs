use vstd::prelude::*;

pub mod boolean;
pub mod combine;
pub mod commands;
pub mod fill;
pub mod scene;
pub mod selection;
pub mod ids;
pub mod margin;
pub mod outline;
pub mod shape;
pub mod text;

verus! {
}
