//! `ECHO`: answers with its argument.

use super::reply::Reply;
use crate::db::Entry;
use crate::db::DB;
use crate::resp::value::SpecValue;
use crate::resp::value::Value;
use vstd::prelude::*;

verus! {

/// The handler of `ECHO`.
pub struct EchoCommand;

impl Reply for EchoCommand {
    open spec fn reply_spec(&self, args: Seq<SpecValue>, db: DB, now: nat) -> (
        SpecValue,
        Map<Seq<char>, Entry>,
    ) {
        if args.len() == 1 {
            (args[0], db@)
        } else {
            (SpecValue::Error("echo requires exactly one argument"@), db@)
        }
    }

    fn reply(&self, args: Vec<Value>, _db: &mut DB) -> (out: Value) {
        if args.len() == 1 {
            args[0].clone()
        } else {
            Value::Error("echo requires exactly one argument".to_owned())
        }
    }
}

} // verus!
