//! Snapshot and restore of file metadata: POSIX permission bits and
//! modification timestamps, recorded per path in a sorted, atomically
//! rewritten snapshot file.
//!
//! The library holds the verified core: the binary-safe path-escaping codec,
//! the line-based record format, the sorted snapshot table, and the decision
//! what an apply step writes back to a filesystem entry. Callers perform the
//! actual file reads, writes, and metadata syscalls around it.

pub mod bytes;
pub mod codec;
pub mod error;
pub mod num;
pub mod record;
pub mod table;
