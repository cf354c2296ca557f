//! `SET key value [PX millis]`: writes a value under a key, with an optional time to live.

use super::command::CommandError;
use super::reply::Reply;
use super::word::is_word;
use super::word::lowered;
use crate::db::stored;
use crate::db::Entry;
use crate::db::DB;
use crate::resp::number::parse_u64;
use crate::resp::number::u64_value;
use crate::resp::value::views;
use crate::resp::value::SpecValue;
use crate::resp::value::Value;
use vstd::prelude::*;
use vstd::utf8::encode_utf8;

verus! {

/// The time to live in milliseconds that the arguments of `SET` ask for. The option is
/// recognised only as the third and the fourth argument, both bulk strings: the word `PX` in
/// any case, then an unsigned decimal number that a `u64` holds. Anything else after the
/// value is passed over.
pub open spec fn px_option(args: Seq<SpecValue>) -> Result<Option<u64>, CommandError> {
    if args.len() >= 4 && args[2] is BulkString && args[3] is BulkString && lowered(
        args[2]->BulkString_0,
    ) == "px"@ {
        match u64_value(encode_utf8(args[3]->BulkString_0)) {
            Some(millis) => Ok(Some(millis)),
            None => Err(CommandError::InvalidExpiry),
        }
    } else {
        Ok(None)
    }
}

/// The handler of `SET`.
pub struct SetCommand;

impl SetCommand {
    /// Reads the option `PX millis` from the arguments of `SET`.
    pub fn parse_px(args: &Vec<Value>) -> (r: Result<Option<u64>, CommandError>)
        ensures
            r == px_option(views(args@)),
    {
        if args.len() >= 4 {
            if let Value::BulkString(px) = &args[2] {
                if let Value::BulkString(millis) = &args[3] {
                    proof {
                        reveal_strlit("px");
                    }
                    if is_word(px.as_str(), "px") {
                        return match parse_u64(millis.as_str().as_bytes()) {
                            Some(millis) => Ok(Some(millis)),
                            None => Err(CommandError::InvalidExpiry),
                        };
                    }
                }
            }
        }
        Ok(None)
    }
}

impl Reply for SetCommand {
    open spec fn reply_spec(&self, args: Seq<SpecValue>, db: DB, now: nat) -> (
        SpecValue,
        Map<Seq<char>, Entry>,
    ) {
        if args.len() >= 2 && args[0] is BulkString && args[1] is BulkString {
            match px_option(args) {
                Ok(expiry) => (
                    SpecValue::SimpleString("OK"@),
                    stored(db@, args[0]->BulkString_0, args[1]->BulkString_0, expiry, now),
                ),
                Err(refused) => (SpecValue::Error(refused.text()), db@),
            }
        } else {
            (SpecValue::Error("set requires key and value arguments"@), db@)
        }
    }

    fn reply(&self, args: Vec<Value>, db: &mut DB) -> (out: Value) {
        if args.len() >= 2 {
            if let Value::BulkString(key) = &args[0] {
                if let Value::BulkString(val) = &args[1] {
                    let px = match Self::parse_px(&args) {
                        Ok(d) => d,
                        Err(refused) => {
                            return Value::Error(refused.to_string());
                        },
                    };
                    db.set(key.clone(), val.clone(), px);
                    return Value::SimpleString("OK".to_owned());
                }
            }
        }
        Value::Error("set requires key and value arguments".to_owned())
    }
}

} // verus!
