//! Translation of log records into column-store row mutations, and the
//! bookkeeping that hands backend connections out to one write at a time.

pub mod record;
pub mod translate;
pub mod pool;
pub mod coordinator;
