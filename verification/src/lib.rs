pub mod sampling;
pub mod text;
pub mod table;
pub mod reel;
pub mod paytable;
pub mod lines;
pub mod allways;
pub mod scatter;
pub mod progress;
pub mod data;
