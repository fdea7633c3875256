//! What the application's own routes decide, apart from serving them.

pub mod health;
