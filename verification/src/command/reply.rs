//! What every command handler offers.

use crate::db::Entry;
use crate::db::DB;
use crate::resp::value::views;
use crate::resp::value::SpecValue;
use crate::resp::value::Value;
use vstd::prelude::*;

verus! {

/// A command handler: it checks its arguments, reads or writes the store, and gives the reply.
pub trait Reply {
    /// The reply to the arguments `args`, and the entries of the store afterwards, for a store
    /// `db` whose clock shows the time `now`.
    spec fn reply_spec(&self, args: Seq<SpecValue>, db: DB, now: nat) -> (
        SpecValue,
        Map<Seq<char>, Entry>,
    );

    /// Runs the command on the store. The reply and the entries of the store afterwards are
    /// those of `reply_spec` for the latest time read from the clock of the store, which never
    /// runs backwards; the identity of the node stays as it is.
    fn reply(&self, args: Vec<Value>, db: &mut DB) -> (out: Value)
        ensures
            final(db).same_node(old(db)),
            old(db).clock() <= final(db).clock(),
            (out@, final(db)@) == self.reply_spec(views(args@), *old(db), final(db).clock()),
    ;
}

} // verus!
