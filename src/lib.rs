
pub mod builder;
pub mod dijkstra;
pub mod map;
pub mod queue;
pub mod route;
pub mod wave;

