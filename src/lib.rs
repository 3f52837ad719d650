//! A backlink index for AT Protocol records: interned record identities, an
//! append-mostly live store, a sorted compacted store, compaction, and the
//! union read over all stores.

pub mod backfill;
pub mod cid;
pub mod compacted;
pub mod compactor;
pub mod config;
pub mod counter;
pub mod events;
pub mod ingest;
pub mod interner;
pub mod lifecycle;
pub mod live;
pub mod live_file;
pub mod query;
pub mod read;
pub mod record;
pub mod text;
pub mod tid;
pub mod varint;
