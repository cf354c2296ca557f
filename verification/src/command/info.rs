//! `INFO`: reports on the replication state of the node.

use super::reply::Reply;
use crate::db::Entry;
use crate::db::NodeRole;
use crate::db::DB;
use crate::resp::number::signed_decimal;
use crate::resp::text::ascii_text;
use crate::resp::text::decimal_string;
use crate::resp::value::SpecValue;
use crate::resp::value::Value;
use vstd::prelude::*;
use vstd::string::StringExecFns;

verus! {

/// The report on replication: the role and the number of replicas, which is always zero, and
/// for a primary its replication id and its replication offset as well.
pub open spec fn info_text(role: NodeRole, replid: Seq<char>, repl_offset: i32) -> Seq<char> {
    let head = "# Replication\nrole:"@ + role.name() + "\nconnected_slaves:0\n"@;
    if role is Master {
        head + "master_replid:"@ + replid + "\nmaster_repl_offset:"@ + ascii_text(
            signed_decimal(repl_offset as int),
        ) + "\n"@
    } else {
        head
    }
}

/// The handler of `INFO`.
pub struct InfoCommand;

impl Reply for InfoCommand {
    open spec fn reply_spec(&self, args: Seq<SpecValue>, db: DB, now: nat) -> (
        SpecValue,
        Map<Seq<char>, Entry>,
    ) {
        (SpecValue::BulkString(info_text(db.role, db.replid@, db.repl_offset)), db@)
    }

    fn reply(&self, _args: Vec<Value>, db: &mut DB) -> (out: Value) {
        let mut text = "# Replication\nrole:".to_owned();
        let role = db.role.to_string();
        text.append(role.as_str());
        text.append("\nconnected_slaves:0\n");
        if let NodeRole::Master = db.role {
            let offset = decimal_string(db.repl_offset as i64);
            text.append("master_replid:");
            text.append(db.replid.as_str());
            text.append("\nmaster_repl_offset:");
            text.append(offset.as_str());
            text.append("\n");
        }
        Value::BulkString(text)
    }
}

} // verus!
