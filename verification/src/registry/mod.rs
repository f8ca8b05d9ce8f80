pub mod model;
pub mod store;
pub mod laws;

pub use model::{Allocation, Maintenance, OpenLease, Registry, Reservation};
pub use store::JsonRegistryStore;
