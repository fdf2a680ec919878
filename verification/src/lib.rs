//! A multi-master key-value store: merkle append logs, snapshots, capability
//! authorization, a query language, peer synchronisation and a file view.

pub mod caps;
pub mod clock;
pub mod fs;
pub mod hash;
pub mod hexes;
pub mod json;
pub mod net;
pub mod node;
pub mod ns;
pub mod ordmap;
pub mod query;
pub mod schema;
pub mod segments;
pub mod server;
pub mod storage;
pub mod text;
pub mod util;
