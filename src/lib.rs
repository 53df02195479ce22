pub mod model;
pub mod sort;

pub use sort::{bubble_sort, bubble_sort_counted};
