//! The store: keys, values and expiry times in memory, and the identity of the node.

use std::time::Duration;
use std::time::Instant;
use vstd::hash_map::StringHashMap;
use vstd::prelude::*;

verus! {

/// `std::time::Instant`, a reading of the monotonic clock. Nothing inside it is visible to the
/// proofs.
#[verifier::external_type_specification]
#[verifier::external_body]
pub struct ExInstant(std::time::Instant);

/// `Instant::now`: the present reading of the monotonic clock. Nothing is claimed of it.
pub assume_specification[ Instant::now ]() -> Instant
;

/// `Instant::elapsed`: the time that has passed since the reading was taken. Nothing is claimed
/// of it.
pub assume_specification[ Instant::elapsed ](start: &Instant) -> Duration
;

/// `Duration::as_millis`: the whole milliseconds that a span of time holds. Nothing is claimed
/// of it.
pub assume_specification[ Duration::as_millis ](span: &Duration) -> u128
;

/// The address of a node.
#[derive(Debug)]
pub struct NodeAddress {
    pub host: String,
    pub port: u16,
}

/// What a node takes itself for: the primary, or a secondary of the primary at an address.
#[derive(Debug)]
pub enum NodeRole {
    Master,
    Slave(NodeAddress),
}

impl NodeRole {
    /// The name of the role.
    pub open spec fn name(self) -> Seq<char> {
        match self {
            NodeRole::Master => "master"@,
            NodeRole::Slave(_) => "slave"@,
        }
    }

    /// The name of the role, `master` or `slave`.
    pub fn to_string(&self) -> (out: String)
        ensures
            out@ == self.name(),
    {
        match self {
            NodeRole::Master => "master".to_owned(),
            NodeRole::Slave(_) => "slave".to_owned(),
        }
    }
}

/// What the store holds under a key.
struct DBVal {
    value: String,
    expire_at: Option<u128>,
}

/// The mathematical model of what the store holds under a key: the value, and the time in
/// milliseconds at which it expires, if it ever does.
pub ghost struct Entry {
    pub value: Seq<char>,
    pub expire_at: Option<nat>,
}

impl View for DBVal {
    type V = Entry;

    closed spec fn view(&self) -> Entry {
        Entry {
            value: self.value@,
            expire_at: match self.expire_at {
                Some(t) => Some(t as nat),
                None => None,
            },
        }
    }
}

/// True when an entry is dead at the time `now`: its expiry time is at or before `now`.
pub open spec fn expired(entry: Entry, now: nat) -> bool {
    entry.expire_at matches Some(t) && t <= now
}

/// The store after a read of `key` at the time `now`, and the value read. A dead entry is
/// removed by the read that finds it, and nothing is returned for it.
pub open spec fn lookup(store: Map<Seq<char>, Entry>, key: Seq<char>, now: nat) -> (
    Map<Seq<char>, Entry>,
    Option<Seq<char>>,
) {
    if !store.contains_key(key) {
        (store, None)
    } else if expired(store[key], now) {
        (store.remove(key), None)
    } else {
        (store, Some(store[key].value))
    }
}

/// The store after `value` was written under `key` at the time `now`, to expire `expiry`
/// milliseconds later if an expiry is given. Whatever was held under the key is replaced.
pub open spec fn stored(
    store: Map<Seq<char>, Entry>,
    key: Seq<char>,
    value: Seq<char>,
    expiry: Option<u64>,
    now: nat,
) -> Map<Seq<char>, Entry> {
    store.insert(
        key,
        Entry {
            value,
            expire_at: match expiry {
                Some(millis) => Some(now + millis as nat),
                None => None,
            },
        },
    )
}

/// The model of an optional text.
pub open spec fn text_view(text: Option<String>) -> Option<Seq<char>> {
    match text {
        Some(s) => Some(s@),
        None => None,
    }
}

/// The entries of a store, and the clock that their expiry times are read on. The clock counts
/// the milliseconds since the store was made.
pub struct Table {
    data: StringHashMap<DBVal>,
    started: Instant,
    latest: u64,
}

impl View for Table {
    type V = Map<Seq<char>, Entry>;

    closed spec fn view(&self) -> Map<Seq<char>, Entry> {
        self.data@.map_values(|v: DBVal| v@)
    }
}

impl Table {
    /// The latest time that was read from the clock.
    pub closed spec fn clock(&self) -> nat {
        self.latest as nat
    }
}

/// The store of a node, with the node's identity.
pub struct DB {
    pub role: NodeRole,
    pub replid: String,
    pub repl_offset: i32,
    pub table: Table,
}

impl View for DB {
    type V = Map<Seq<char>, Entry>;

    open spec fn view(&self) -> Map<Seq<char>, Entry> {
        self.table@
    }
}

impl DB {
    /// The replication id that every node starts with.
    pub open spec fn initial_replid() -> Seq<char> {
        "8371b4fb1155b71f4a04d3e1bc3e18c4a990aeeb"@
    }

    /// The latest time that was read from the clock of the store, in milliseconds since the
    /// store was made.
    pub open spec fn clock(&self) -> nat {
        self.table.clock()
    }

    /// True when two states of a store belong to the same node: role, replication id and
    /// replication offset are the same.
    pub open spec fn same_node(&self, other: &DB) -> bool {
        &&& self.role == other.role
        &&& self.replid == other.replid
        &&& self.repl_offset == other.repl_offset
    }

    /// An empty store for a node of the given role.
    pub fn new(role: NodeRole) -> (db: Self)
        ensures
            db.role == role,
            db.replid@ == Self::initial_replid(),
            db.repl_offset == 0,
            db@ == Map::<Seq<char>, Entry>::empty(),
            db.clock() == 0,
    {
        let db = Self {
            role,
            replid: "8371b4fb1155b71f4a04d3e1bc3e18c4a990aeeb".to_owned(),
            repl_offset: 0,
            table: Table { data: StringHashMap::new(), started: Instant::now(), latest: 0 },
        };
        assert(db@ =~= Map::<Seq<char>, Entry>::empty());
        db
    }

    /// The time on the clock of the store after a reading of `millis` milliseconds since the
    /// store was made, where `latest` was the latest time read before: the reading, cut down
    /// to what a `u64` holds, or `latest` where the reading is less, so that time never runs
    /// backwards.
    pub open spec fn ticked(latest: nat, millis: nat) -> nat {
        let reading = if millis > u64::MAX {
            u64::MAX as nat
        } else {
            millis
        };
        if reading > latest {
            reading
        } else {
            latest
        }
    }

    /// Moves the clock of the store on to a reading of `millis` milliseconds since the store
    /// was made, and returns the time that the clock then shows. The entries stay as they are.
    pub fn tick(&mut self, millis: u128) -> (time: u64)
        ensures
            final(self).clock() == Self::ticked(old(self).clock(), millis as nat),
            time == final(self).clock(),
            final(self)@ == old(self)@,
            final(self).same_node(old(self)),
    {
        let reading: u64 = if millis > 0xffff_ffff_ffff_ffff {
            0xffff_ffff_ffff_ffff
        } else {
            millis as u64
        };
        if reading > self.table.latest {
            self.table.latest = reading;
        }
        self.table.latest
    }

    /// Reads the machine's clock and moves the clock of the store on to the reading, as `tick`
    /// does. The time returned is from then on the latest time read; it is never less than
    /// the latest time read before.
    pub fn now(&mut self) -> (time: u64)
        ensures
            time == final(self).clock(),
            old(self).clock() <= final(self).clock(),
            final(self)@ == old(self)@,
            final(self).same_node(old(self)),
    {
        let elapsed = self.table.started.elapsed();
        self.tick(elapsed.as_millis())
    }

    /// Tells whether the store holds an entry under `key`, dead or alive. Nothing is removed.
    pub fn contains(&self, key: &String) -> (found: bool)
        ensures
            found == self@.contains_key(key@),
    {
        self.table.data.contains_key(key.as_str())
    }

    /// Reads the value under `key` at the time `now`. An entry whose expiry time is at or
    /// before `now` is removed, and nothing is returned for it. The clock is not read.
    pub fn get_at(&mut self, key: &String, now: u64) -> (value: Option<String>)
        ensures
            (final(self)@, text_view(value)) == lookup(old(self)@, key@, now as nat),
            final(self).same_node(old(self)),
            final(self).clock() == old(self).clock(),
    {
        match self.table.data.get(key.as_str()) {
            None => None,
            Some(v) => {
                if let Some(expire_at) = v.expire_at {
                    if expire_at <= now as u128 {
                        self.del(key);
                        return None;
                    }
                }
                Some(v.value.clone())
            },
        }
    }

    /// Reads the value under `key` at the time that the clock shows, which is afterwards the
    /// latest time read. An entry whose expiry time is at or before that time is removed, and
    /// nothing is returned for it.
    pub fn get(&mut self, key: &String) -> (value: Option<String>)
        ensures
            (final(self)@, text_view(value)) == lookup(old(self)@, key@, final(self).clock()),
            final(self).same_node(old(self)),
            old(self).clock() <= final(self).clock(),
    {
        let now = self.now();
        self.get_at(key, now)
    }

    /// Writes `value` under `key` at the time `now`, to expire `expiry` milliseconds later if
    /// an expiry is given. Whatever was held under the key is replaced. The clock is not read.
    pub fn set_at(&mut self, key: String, value: String, expiry: Option<u64>, now: u64)
        ensures
            final(self)@ == stored(old(self)@, key@, value@, expiry, now as nat),
            final(self).same_node(old(self)),
            final(self).clock() == old(self).clock(),
    {
        let expire_at: Option<u128> = match expiry {
            Some(millis) => Some(now as u128 + millis as u128),
            None => None,
        };
        let ghost entry = DBVal { value, expire_at }@;
        self.table.data.insert(key, DBVal { value, expire_at });
        assert(self@ =~= old(self)@.insert(key@, entry));
    }

    /// Writes `value` under `key` at the time that the clock shows, which is afterwards the
    /// latest time read, to expire `expiry` milliseconds later if an expiry is given. Whatever
    /// was held under the key is replaced.
    pub fn set(&mut self, key: String, value: String, expiry: Option<u64>)
        ensures
            final(self)@ == stored(old(self)@, key@, value@, expiry, final(self).clock()),
            final(self).same_node(old(self)),
            old(self).clock() <= final(self).clock(),
    {
        let now = self.now();
        self.set_at(key, value, expiry, now);
    }

    /// Removes the entry under `key`, if there is one.
    pub fn del(&mut self, key: &String)
        ensures
            final(self)@ == old(self)@.remove(key@),
            final(self).same_node(old(self)),
            final(self).clock() == old(self).clock(),
    {
        self.table.data.remove(key.as_str());
        assert(self@ =~= old(self)@.remove(key@));
    }
}

/// Overwrite: a second write under a key leaves the store as if the first had never been
/// made, and a read of the key then returns the second value as long as it has not expired.
pub proof fn lemma_overwrite(
    store: Map<Seq<char>, Entry>,
    key: Seq<char>,
    first: Seq<char>,
    first_expiry: Option<u64>,
    first_time: nat,
    second: Seq<char>,
    second_expiry: Option<u64>,
    second_time: nat,
    now: nat,
)
    requires
        second_expiry matches Some(millis) ==> now < second_time + millis,
    ensures
        stored(
            stored(store, key, first, first_expiry, first_time),
            key,
            second,
            second_expiry,
            second_time,
        ) == stored(store, key, second, second_expiry, second_time),
        lookup(stored(store, key, second, second_expiry, second_time), key, now) == (
            stored(store, key, second, second_expiry, second_time),
            Some(second),
        ),
{
    assert(stored(
        stored(store, key, first, first_expiry, first_time),
        key,
        second,
        second_expiry,
        second_time,
    ) =~= stored(store, key, second, second_expiry, second_time));
}

/// Expiry: a value written at the time `written_at` to expire `millis` milliseconds later is
/// read back at every time before `written_at + millis`, and the store stays as it is. From
/// that time on a read returns nothing, and the store that it leaves holds no entry under the
/// key.
pub proof fn lemma_expiry(
    store: Map<Seq<char>, Entry>,
    key: Seq<char>,
    value: Seq<char>,
    millis: u64,
    written_at: nat,
    now: nat,
)
    ensures
        ({
            let after = stored(store, key, value, Some(millis), written_at);
            if now < written_at + millis {
                lookup(after, key, now) == (after, Some(value))
            } else {
                &&& lookup(after, key, now) == (after.remove(key), None::<Seq<char>>)
                &&& !after.remove(key).contains_key(key)
                &&& after.remove(key) == store.remove(key)
            }
        }),
{
    let after = stored(store, key, value, Some(millis), written_at);
    assert(after.remove(key) =~= store.remove(key));
}

} // verus!
