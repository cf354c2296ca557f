//! `GET key`: answers with the value under a key.

use super::reply::Reply;
use crate::db::lookup;
use crate::db::Entry;
use crate::db::DB;
use crate::resp::value::SpecValue;
use crate::resp::value::Value;
use vstd::prelude::*;

verus! {

/// The handler of `GET`.
pub struct GetCommand;

impl Reply for GetCommand {
    open spec fn reply_spec(&self, args: Seq<SpecValue>, db: DB, now: nat) -> (
        SpecValue,
        Map<Seq<char>, Entry>,
    ) {
        if args.len() > 0 && args[0] is BulkString {
            let (entries, value) = lookup(db@, args[0]->BulkString_0, now);
            match value {
                Some(text) => (SpecValue::SimpleString(text), entries),
                None => (SpecValue::Null, entries),
            }
        } else {
            (SpecValue::Error("get requires key argument"@), db@)
        }
    }

    fn reply(&self, args: Vec<Value>, db: &mut DB) -> (out: Value) {
        if args.len() > 0 {
            if let Value::BulkString(key) = &args[0] {
                return match db.get(key) {
                    Some(s) => Value::SimpleString(s),
                    None => Value::Null,
                };
            }
        }
        Value::Error("get requires key argument".to_owned())
    }
}

} // verus!
