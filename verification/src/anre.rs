pub mod commentremover;
pub mod macroexpander;
pub mod token;
