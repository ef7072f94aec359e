//! Message shapes of the companion client/server pair's toy wire protocol.
//! Plain data, unrelated to persistence: the store never reads them.

use vstd::prelude::*;

verus! {

/// One message of the toy protocol.
#[derive(Debug, PartialEq, Eq)]
pub enum RedisCmd {
    SimpleString { data: String },
    Error { data: String },
    Integer { data: u64 },
    BulkString { data: String },
    Array { data: Vec<String> },
}

} // verus!
