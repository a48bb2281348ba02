pub mod kdtree;
pub mod maybeuseful;
pub mod point;
pub mod utils;

pub use kdtree::{IndicesWithinIterator, KdTree, KdTreeNoBorrow, KdTreeNode};
pub use point::{Point, distance_squared, point_within};
pub use utils::{PointsSorter, PresortedOrder, SortingStrategy};
