pub mod cssom;
pub mod token;
