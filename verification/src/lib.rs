pub mod client_handler;
pub mod handler;
pub mod model;
pub mod state;
pub mod value;
