pub mod control;
pub mod discovery;
pub mod estimate;
pub mod policy;
pub mod text;
pub mod topology;
