//! What holds of the library as a whole.

pub mod calls;
pub mod children;
pub mod equality;
pub mod events;
pub mod greens;
pub mod lists;
pub mod navigation;
pub mod places;
pub mod readings;
pub mod replacing;
pub mod searches;
pub mod steps;
pub mod text;
pub mod tokens;
pub mod walks;
