pub mod control;
pub mod model;
pub mod output;
