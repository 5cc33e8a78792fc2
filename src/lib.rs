//! Streetlamp light levels: decoding of published batches, their atomic
//! persistence, and range queries reduced per time bucket.
//!
//! `envelope` frames and strips the topic token, `batch` and `ingest` turn a
//! decoded batch into rows and decide the steps of its all-or-nothing write,
//! `registry` names the reducers, `query` and `bucket` validate a request and
//! group what the store returns, `reduce` selects medians, and `request`
//! reads the numbers of a request.
pub mod batch;
pub mod bucket;
pub mod envelope;
pub mod ingest;
pub mod query;
pub mod reduce;
pub mod request;
pub mod registry;
