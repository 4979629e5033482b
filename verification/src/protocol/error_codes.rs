//! Numeric error codes of the daemon protocol.
use vstd::prelude::*;

verus! {

pub const PROTOCOL_VERSION_MISMATCH: i32 = 1000;
pub const CORPUS_LOAD_FAILURE: i32 = 1001;
pub const NOT_REGISTERED: i32 = 1002;
pub const CQL_PARSE_ERROR: i32 = 1100;
pub const PLAN_ERROR: i32 = 1101;
pub const EXECUTION_ERROR: i32 = 1102;
pub const RESULT_HANDLE_INVALID: i32 = 1200;
pub const NAMED_RESULT_ALREADY_EXISTS: i32 = 1201;
pub const NAMED_RESULT_NOT_FOUND: i32 = 1202;
pub const PAGE_LIMIT_EXCEEDED: i32 = 1203;
pub const STORED_QUERY_INVALID: i32 = 1204;
pub const RESULT_ALREADY_MATERIALIZED: i32 = 1205;
pub const ALIGNMENT_NOT_FOUND: i32 = 1300;
pub const SPAN_OUTSIDE_ALIGNMENT: i32 = 1301;
pub const ANCHOR_INCOMPATIBLE: i32 = 1400;
pub const ANCHOR_NOT_FOUND: i32 = 1401;
pub const ANCHOR_CYCLE: i32 = 1402;
pub const ANCHOR_KIND_UNSUPPORTED: i32 = 1403;
pub const PROCESS_NOT_FOUND: i32 = 1500;
pub const UNKNOWN_TOPIC: i32 = 1600;
pub const PARSE_ERROR: i32 = -32700;
pub const INVALID_REQUEST: i32 = -32600;
pub const METHOD_NOT_FOUND: i32 = -32601;
pub const INVALID_PARAMS: i32 = -32602;
pub const INTERNAL_ERROR: i32 = -32603;

} // verus!
