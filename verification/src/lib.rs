pub mod types;
pub mod convex_hull;
pub mod intersection;
