//! A key-value store served one datagram at a time: `key=value` stores,
//! `key` asks for the value, and `version` asks for the server's version.
use vstd::prelude::*;
use vstd::slice::slice_subrange;
use vstd::slice::slice_to_vec;
use vstd::string::StringSliceAdditionalSpecFns;
use vstd::utf8::valid_utf8;

use crate::text::bytes_equal;
use crate::text::find_byte;
use crate::text::str_from_utf8;

verus! {

/// The request that asks for the version.
pub const VERSION_KEY: &'static str = "version";

/// The reply to a version request.
pub const VERSION_MESSAGE: &'static str = "version=Samy's database - 1.0.0";

/// The byte `=` that separates a key from its value.
pub const SEPARATOR: u8 = 61;

/// The store after a datagram, and the datagram to send back if any: bytes
/// that are not UTF-8 are ignored; the version request is answered with the
/// version; a datagram with `=` stores what follows the first `=` under what
/// precedes it; any other datagram is a key, answered with `key=value`, where
/// the value is empty when the key is absent.
pub open spec fn serve(db: Map<Seq<u8>, Seq<u8>>, packet: Seq<u8>) -> (
    Map<Seq<u8>, Seq<u8>>,
    Option<Seq<u8>>,
) {
    if !valid_utf8(packet) {
        (db, None)
    } else if packet == VERSION_KEY.spec_bytes() {
        (db, Some(VERSION_MESSAGE.spec_bytes()))
    } else {
        match packet.index_of_first(SEPARATOR) {
            Some(i) => (
                db.insert(packet.subrange(0, i), packet.subrange(i + 1, packet.len() as int)),
                None,
            ),
            None => (
                db,
                Some(
                    packet + seq![SEPARATOR] + if db.contains_key(packet) {
                        db[packet]
                    } else {
                        Seq::<u8>::empty()
                    },
                ),
            ),
        }
    }
}

/// A query for a key answers `key=value` with the value that the last store
/// under that key put there.
pub proof fn lemma_store_then_query(
    db: Map<Seq<u8>, Seq<u8>>,
    key: Seq<u8>,
    value: Seq<u8>,
)
    requires
        valid_utf8(key + seq![SEPARATOR] + value),
        !key.contains(SEPARATOR),
        key != VERSION_KEY.spec_bytes(),
    ensures
        serve(serve(db, key + seq![SEPARATOR] + value).0, key).1 == Some(
            key + seq![SEPARATOR] + value,
        ),
{
    let put = key + seq![SEPARATOR] + value;
    lemma_version_key_has_no_separator();
    assert(put[key.len() as int] == SEPARATOR);
    assert(put != VERSION_KEY.spec_bytes()) by {
        if put == VERSION_KEY.spec_bytes() {
            assert(VERSION_KEY.spec_bytes().contains(SEPARATOR));
        }
    }
    put.index_of_first_ensures(SEPARATOR);
    assert(put.contains(SEPARATOR));
    let i = put.index_of_first(SEPARATOR).unwrap();
    assert(i == key.len()) by {
        if i < key.len() {
            assert(key[i] == SEPARATOR);
            assert(key.contains(SEPARATOR));
        }
    }
    assert(put.subrange(0, i) =~= key);
    assert(put.subrange(i + 1, put.len() as int) =~= value);
    key.index_of_first_ensures(SEPARATOR);
    vstd::utf8::is_char_boundary_iff_is_leading_byte(put, key.len() as int);
    assert(vstd::utf8::is_leading_byte_width_1(put[key.len() as int]));
    vstd::utf8::valid_utf8_split(put, key.len() as int);
}

/// A store datagram `key=value` (the first `=` ends the key) changes only
/// that key: the store afterwards is the store before with `key` mapped to
/// `value`, every other key keeping what it had, and nothing is sent back.
pub proof fn lemma_store_changes_only_its_key(
    db: Map<Seq<u8>, Seq<u8>>,
    key: Seq<u8>,
    value: Seq<u8>,
)
    requires
        valid_utf8(key + seq![SEPARATOR] + value),
        !key.contains(SEPARATOR),
    ensures
        serve(db, key + seq![SEPARATOR] + value).1 is None,
        serve(db, key + seq![SEPARATOR] + value).0.contains_key(key),
        serve(db, key + seq![SEPARATOR] + value).0[key] == value,
        forall|other: Seq<u8>|
            other != key ==> (#[trigger] serve(db, key + seq![SEPARATOR] + value).0.contains_key(other)
                == db.contains_key(other)),
        forall|other: Seq<u8>|
            other != key && db.contains_key(other) ==> #[trigger] serve(
                db,
                key + seq![SEPARATOR] + value,
            ).0[other] == db[other],
{
    let put = key + seq![SEPARATOR] + value;
    lemma_version_key_has_no_separator();
    assert(put[key.len() as int] == SEPARATOR);
    assert(put != VERSION_KEY.spec_bytes()) by {
        if put == VERSION_KEY.spec_bytes() {
            assert(VERSION_KEY.spec_bytes().contains(SEPARATOR));
        }
    }
    put.index_of_first_ensures(SEPARATOR);
    assert(put.contains(SEPARATOR));
    let i = put.index_of_first(SEPARATOR).unwrap();
    assert(i == key.len()) by {
        if i < key.len() {
            assert(key[i] == SEPARATOR);
            assert(key.contains(SEPARATOR));
        }
    }
    assert(put.subrange(0, i) =~= key);
    assert(put.subrange(i + 1, put.len() as int) =~= value);
}

/// A datagram without `=` (other than the version request) is a query: it
/// changes nothing and is answered with itself, `=`, and the value stored
/// under it, or nothing after the `=` when no value is.
pub proof fn lemma_query_answers_stored_value(db: Map<Seq<u8>, Seq<u8>>, key: Seq<u8>)
    requires
        valid_utf8(key),
        !key.contains(SEPARATOR),
        key != VERSION_KEY.spec_bytes(),
    ensures
        serve(db, key).0 == db,
        db.contains_key(key) ==> serve(db, key).1 == Some(key + seq![SEPARATOR] + db[key]),
        !db.contains_key(key) ==> serve(db, key).1 == Some(key + seq![SEPARATOR]),
{
    key.index_of_first_ensures(SEPARATOR);
    assert(key + seq![SEPARATOR] + Seq::<u8>::empty() =~= key + seq![SEPARATOR]);
}

/// Storing under one key leaves what a later query of another key answers:
/// after `key=value` and then `other=other_value`, a query of `key` still
/// answers `key=value`.
pub proof fn lemma_store_keeps_other_keys(
    db: Map<Seq<u8>, Seq<u8>>,
    key: Seq<u8>,
    value: Seq<u8>,
    other: Seq<u8>,
    other_value: Seq<u8>,
)
    requires
        valid_utf8(key + seq![SEPARATOR] + value),
        valid_utf8(other + seq![SEPARATOR] + other_value),
        !key.contains(SEPARATOR),
        !other.contains(SEPARATOR),
        key != other,
        key != VERSION_KEY.spec_bytes(),
    ensures
        serve(
            serve(serve(db, key + seq![SEPARATOR] + value).0, other + seq![SEPARATOR] + other_value).0,
            key,
        ).1 == Some(key + seq![SEPARATOR] + value),
{
    let db1 = serve(db, key + seq![SEPARATOR] + value).0;
    lemma_store_changes_only_its_key(db, key, value);
    lemma_store_changes_only_its_key(db1, other, other_value);
    let db2 = serve(db1, other + seq![SEPARATOR] + other_value).0;
    assert(db2.contains_key(key));
    assert(db2[key] == value);
    let put = key + seq![SEPARATOR] + value;
    assert(put[key.len() as int] == SEPARATOR);
    key.index_of_first_ensures(SEPARATOR);
    vstd::utf8::is_char_boundary_iff_is_leading_byte(put, key.len() as int);
    vstd::utf8::valid_utf8_split(put, key.len() as int);
    assert(put.subrange(0, key.len() as int) =~= key);
    lemma_query_answers_stored_value(db2, key);
}

/// A version request is answered with the version, whatever was stored,
/// including under the key `version`.
pub proof fn lemma_version_always_answered(db: Map<Seq<u8>, Seq<u8>>)
    ensures
        serve(db, VERSION_KEY.spec_bytes()).1 == Some(VERSION_MESSAGE.spec_bytes()),
        serve(db, VERSION_KEY.spec_bytes()).0 == db,
{
    lemma_version_key_is_ascii();
}

proof fn lemma_version_key_is_ascii()
    ensures
        valid_utf8(VERSION_KEY.spec_bytes()),
{
    vstd::utf8::encode_utf8_valid_utf8(VERSION_KEY@);
}

proof fn lemma_version_key_has_no_separator()
    ensures
        VERSION_KEY.spec_bytes() == seq![118u8, 101u8, 114u8, 115u8, 105u8, 111u8, 110u8],
        !VERSION_KEY.spec_bytes().contains(SEPARATOR),
{
    reveal_strlit("version");
    assert(vstd::utf8::is_ascii_chars(VERSION_KEY@));
    vstd::utf8::is_ascii_chars_encode_utf8(VERSION_KEY@);
    assert(VERSION_KEY.spec_bytes() =~= seq![118u8, 101u8, 114u8, 115u8, 105u8, 111u8, 110u8]);
}

/// The store keeps its entries as byte-string pairs searched in order, with
/// each key once. A `HashMap` keyed by `String` would make lookups constant
/// time, but Verus's specification of `HashMap` carries over only to keys
/// whose hashing and equality it models (integers and the like), so with
/// string keys nothing about `get` or `insert` could be proved.
pub struct Database {
    entries: Vec<(Vec<u8>, Vec<u8>)>,
    contents: Ghost<Map<Seq<u8>, Seq<u8>>>,
}

impl View for Database {
    type V = Map<Seq<u8>, Seq<u8>>;

    closed spec fn view(&self) -> Map<Seq<u8>, Seq<u8>> {
        self.contents@
    }
}

impl Database {
    /// Each key is stored once, and the entries hold exactly the contents.
    pub closed spec fn wf(&self) -> bool {
        &&& forall|i: int, j: int|
            0 <= i < j < self.entries@.len() ==> (#[trigger] self.entries@[i]).0@
                != (#[trigger] self.entries@[j]).0@
        &&& forall|i: int|
            0 <= i < self.entries@.len() ==> {
                &&& self.contents@.contains_key((#[trigger] self.entries@[i]).0@)
                &&& self.contents@[self.entries@[i].0@] == self.entries@[i].1@
            }
        &&& forall|k: Seq<u8>|
            #[trigger] self.contents@.contains_key(k) ==> exists|i: int|
                0 <= i < self.entries@.len() && (#[trigger] self.entries@[i]).0@ == k
    }

    pub fn new() -> (db: Self)
        ensures
            db.wf(),
            db@ == Map::<Seq<u8>, Seq<u8>>::empty(),
    {
        Database { entries: Vec::new(), contents: Ghost(Map::empty()) }
    }

    /// The position of the entry stored under `key`, if any.
    fn find(&self, key: &[u8]) -> (position: Option<usize>)
        requires
            self.wf(),
        ensures
            match position {
                Some(i) => i < self.entries@.len() && self.entries@[i as int].0@ == key@,
                None => !self@.contains_key(key@),
            },
    {
        let mut i: usize = 0;
        while i < self.entries.len()
            invariant
                self.wf(),
                i <= self.entries@.len(),
                forall|j: int| 0 <= j < i ==> (#[trigger] self.entries@[j]).0@ != key@,
            decreases self.entries@.len() - i,
        {
            if bytes_equal(self.entries[i].0.as_slice(), key) {
                return Some(i);
            }
            i = i + 1;
        }
        None
    }

    /// The value stored under `key`, if any.
    pub fn get(&self, key: &[u8]) -> (value: Option<&Vec<u8>>)
        requires
            self.wf(),
        ensures
            match value {
                Some(v) => self@.contains_key(key@) && self@[key@] == v@,
                None => !self@.contains_key(key@),
            },
    {
        match self.find(key) {
            Some(i) => Some(&self.entries[i].1),
            None => None,
        }
    }

    /// Stores `value` under `key`, replacing what was there.
    pub fn insert(&mut self, key: Vec<u8>, value: Vec<u8>)
        requires
            old(self).wf(),
        ensures
            final(self).wf(),
            final(self)@ == old(self)@.insert(key@, value@),
    {
        let ghost k = key@;
        let ghost v = value@;
        let ghost old_entries = self.entries@;
        match self.find(key.as_slice()) {
            Some(i) => {
                self.entries.set(i, (key, value));
                proof {
                    self.contents@ = self.contents@.insert(k, v);
                    assert forall|m: Seq<u8>| #[trigger] self.contents@.contains_key(m) implies exists|
                        j: int,
                    | 0 <= j < self.entries@.len() && (#[trigger] self.entries@[j]).0@ == m by {
                        if m != k {
                            let j = choose|j: int|
                                0 <= j < old_entries.len() && (#[trigger] old_entries[j]).0@ == m;
                            assert(self.entries@[j].0@ == m);
                        } else {
                            assert(self.entries@[i as int].0@ == m);
                        }
                    }
                }
            },
            None => {
                self.entries.push((key, value));
                proof {
                    self.contents@ = self.contents@.insert(k, v);
                    assert forall|m: Seq<u8>| #[trigger] self.contents@.contains_key(m) implies exists|
                        j: int,
                    | 0 <= j < self.entries@.len() && (#[trigger] self.entries@[j]).0@ == m by {
                        if m != k {
                            let j = choose|j: int|
                                0 <= j < old_entries.len() && (#[trigger] old_entries[j]).0@ == m;
                            assert(self.entries@[j].0@ == m);
                        } else {
                            assert(self.entries@[old_entries.len() as int].0@ == m);
                        }
                    }
                }
            },
        }
    }

    /// Serves one datagram: updates the store and gives the datagram to send
    /// back, if any.
    pub fn handle_packet(&mut self, packet: &[u8]) -> (reply: Option<Vec<u8>>)
        requires
            old(self).wf(),
        ensures
            final(self).wf(),
            final(self)@ == serve(old(self)@, packet@).0,
            match reply {
                Some(r) => serve(old(self)@, packet@).1 == Some(r@),
                None => serve(old(self)@, packet@).1 is None,
            },
    {
        if str_from_utf8(packet).is_none() {
            return None;
        }
        if bytes_equal(packet, VERSION_KEY.as_bytes()) {
            return Some(slice_to_vec(VERSION_MESSAGE.as_bytes()));
        }
        match find_byte(packet, SEPARATOR) {
            Some(i) => {
                proof {
                    packet@.index_of_first_ensures(SEPARATOR);
                }
                assert(i < packet.len());
                let key = slice_to_vec(slice_subrange(packet, 0, i));
                let value = slice_to_vec(slice_subrange(packet, i + 1, packet.len()));
                self.insert(key, value);
                None
            },
            None => {
                let mut reply = slice_to_vec(packet);
                reply.push(SEPARATOR);
                match self.get(packet) {
                    Some(content) => {
                        let mut tail = slice_to_vec(content.as_slice());
                        reply.append(&mut tail);
                    },
                    None => {},
                }
                proof {
                    assert(reply@ =~= serve(old(self)@, packet@).1.unwrap());
                }
                Some(reply)
            },
        }
    }
}

} // verus!
