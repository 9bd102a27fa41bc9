//! The listening side of the server, as the library sees it: the
//! address to bind and the store handle that every connection shares.
//! The accept loop itself is I/O and lives outside the library.

use vstd::prelude::*;
use crate::store::MemoryDb;

verus! {

/// A server configuration: where to listen and the store to serve.
pub struct Server {
    pub addr: String,
    pub db: MemoryDb,
}

impl Server {
    /// A server for `addr` serving a copy of `db`'s bindings.
    pub fn new(addr: &str, db: &MemoryDb) -> (r: Server)
        ensures
            r.addr@ == addr@,
            r.db.wf() == db.wf(),
            forall|k: Seq<u8>| #[trigger] r.db.lookup(k) == db.lookup(k),
    {
        Server { addr: addr.to_owned(), db: db.duplicate() }
    }
}

} // verus!
