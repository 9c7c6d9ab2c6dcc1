//! Parts of the model format whose values are whole numbers.
pub mod mesh;
