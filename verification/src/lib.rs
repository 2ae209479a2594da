pub mod cards;
pub mod classifiers;
pub mod encoders;
pub mod engine;
pub mod eval;
pub mod learn;
pub mod math;
pub mod model;
pub mod money;
pub mod players;
pub mod profile;
pub mod random;
pub mod rounds;
pub mod sim;
