//! Option records of the MongoDB sink and the Iceberg source that feed the dataflow.
//! The barrier bookkeeping does not read them.

use std::collections::HashMap;
use vstd::prelude::*;

verus! {

/// Options of the MongoDB sink.
pub struct MongodbConfig {
    /// `append-only` or `upsert`.
    pub sink_type: String,
    /// The field whose value names the collection a row goes to; when it is null or
    /// empty, the configured collection is used.
    pub collection_name_field: Option<String>,
    /// Whether that field is dropped from the written document.
    pub drop_collection_name_field: bool,
    /// How many entries accumulate before a bulk write.
    pub bulk_write_max_entries: usize,
}

/// Options of the Iceberg source.
pub struct IcebergProperties {
    /// User of a JDBC catalog.
    pub jdbc_user: Option<String>,
    /// Password of a JDBC catalog.
    pub jdbc_password: Option<String>,
    /// Options no field above takes.
    pub unknown_fields: HashMap<String, String>,
}

/// A file scan task of the Iceberg source, as JSON text.
pub struct IcebergFileScanTaskJsonStr(pub String);

/// Lists the splits of an Iceberg source.
pub struct IcebergSplitEnumerator {
    config: IcebergProperties,
}

impl IcebergSplitEnumerator {
    pub closed spec fn properties(&self) -> IcebergProperties {
        self.config
    }

    pub fn new_inner(properties: IcebergProperties) -> (r: IcebergSplitEnumerator)
        ensures
            r.properties() == properties,
    {
        IcebergSplitEnumerator { config: properties }
    }
}

/// Which snapshot of an Iceberg table a time-travel query reads.
pub enum IcebergTimeTravelInfo {
    Version(i64),
    TimestampMs(i64),
}

/// How an Iceberg scan task is read into chunks.
pub struct IcebergScanOpts {
    pub chunk_size: usize,
    pub need_seq_num: bool,
    pub need_file_path_and_pos: bool,
}

/// Reads Iceberg files.
pub struct IcebergFileReader {}

} // verus!
