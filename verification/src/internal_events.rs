//! Plain data carried by the pipeline's observability events. Emitting
//! them (logs, counters) is I/O of the surrounding pipeline and stays
//! outside this crate.
use vstd::prelude::*;

verus! {

/// A message was handed to the queue sink.
#[derive(Debug)]
pub struct AwsSqsEventSent<'a> {
    pub byte_size: usize,
    pub message_id: Option<&'a String>,
}

/// An event failed to parse as a key/value pair.
#[derive(Debug)]
pub struct KeyValueParserError {
    pub key: String,
    pub error: String,
}

/// A pair split into more than two pieces.
#[derive(Debug)]
pub struct KeyValueMultipleSplitResults {
    pub pair: String,
}

} // verus!
