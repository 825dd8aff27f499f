//! The drawing model: document bookkeeping, tool and paper catalogues.
pub mod brush;
pub mod cutout;
pub mod document;
pub mod history;
pub mod layers;
pub mod liquify;
pub mod orientation;
pub mod paper;
pub mod sparse;
pub mod tools;
