//! Server side of a push protocol: control-line framing, pack-stream decoding,
//! delta resolution and a content-addressed object store.

pub mod codec;
pub mod connection;
pub mod database;
pub mod delta;
pub mod record;
pub mod util;

pub use codec::{read_packed_int_56le, read_variable_length_int};
pub use connection::{parse_pack, parse_pack_object_record, Connection, ConnectionResult, Packet};
pub use database::{get_object_id, object_id_of, Database, ObjectID, Record, TreeEntry};
pub use delta::apply_delta;
pub use record::{parse_blob, parse_commit, parse_ofs_delta, parse_ref_delta, parse_tree};
pub use util::{as_u32_be, as_u32_le, ascii_hex_to_bytes};
