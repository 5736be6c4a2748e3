pub mod key;
pub mod table;

pub use key::HashKey;
pub use key::LookupKey;
pub use table::Entry;
pub use table::Hashmap;
pub use table::Iter;
pub use table::OccupiedEntry;
pub use table::VacantEntry;
