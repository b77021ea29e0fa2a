pub mod dispatch;
pub mod hub;
pub mod hub_model;
pub mod laws;
pub mod proto;
pub mod route_model;
pub mod router;
pub mod segment;
