//! `PING`: answers `PONG`.

use super::reply::Reply;
use crate::db::Entry;
use crate::db::DB;
use crate::resp::value::SpecValue;
use crate::resp::value::Value;
use vstd::prelude::*;

verus! {

/// The handler of `PING`.
pub struct PingCommand;

impl Reply for PingCommand {
    open spec fn reply_spec(&self, args: Seq<SpecValue>, db: DB, now: nat) -> (
        SpecValue,
        Map<Seq<char>, Entry>,
    ) {
        (SpecValue::SimpleString("PONG"@), db@)
    }

    fn reply(&self, _args: Vec<Value>, _db: &mut DB) -> (out: Value) {
        Value::SimpleString("PONG".to_owned())
    }
}

} // verus!
