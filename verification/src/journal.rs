//! The journal: the records of the writes, the bookkeeping of the sealed
//! journals, and the order in which they are replayed.

pub mod manager;
pub mod order;
pub mod record;
