//! The store: a map from text keys to typed values, with its binary codec and
//! its compressed image.
use crate::compression::{compress_fast, decompress_zlib, zlib_compressed, zlib_decompressed};
use crate::datatype::{DataType, FromValue, Value};
use crate::error::Error;
use crate::format::{
    decode_records, decode_store, encode_record, encode_records, lemma_round_trip, map_of,
    parse_record_at, pow256, prepend_records, representable, value_fits, write_sized,
    write_value,
};
use vstd::prelude::*;
use vstd::utf8::encode_utf8;

verus! {

/// No two records name the same key.
pub open spec fn unique_keys(rs: Seq<(Seq<char>, Value)>) -> bool {
    forall|i: int, j: int| 0 <= i < j < rs.len() ==> #[trigger] rs[i].0 != #[trigger] rs[j].0
}

/// The records that a sequence of entries stands for.
pub open spec fn entry_views(s: Seq<(String, DataType)>) -> Seq<(Seq<char>, Value)> {
    s.map_values(|e: (String, DataType)| (e.0@, e.1@))
}

/// The in-memory database. It is not synchronised: concurrent mutation needs
/// a lock held by the caller.
#[derive(Debug)]
pub struct PickleDB {
    inner: Vec<(String, DataType)>,
}

impl View for PickleDB {
    type V = Map<Seq<char>, Value>;

    open spec fn view(&self) -> Map<Seq<char>, Value> {
        map_of(self.records())
    }
}

proof fn lemma_map_of_contains(rs: Seq<(Seq<char>, Value)>, k: Seq<char>)
    ensures
        map_of(rs).contains_key(k) <==> exists|i: int| 0 <= i < rs.len() && rs[i].0 == k,
    decreases rs.len(),
{
    if rs.len() > 0 {
        lemma_map_of_contains(rs.drop_last(), k);
        if map_of(rs.drop_last()).contains_key(k) {
            let i = choose|i: int| 0 <= i < rs.len() - 1 && rs.drop_last()[i].0 == k;
            assert(rs[i].0 == k);
        }
        if exists|i: int| 0 <= i < rs.len() && rs[i].0 == k {
            let i = choose|i: int| 0 <= i < rs.len() && rs[i].0 == k;
            if i < rs.len() - 1 {
                assert(rs.drop_last()[i].0 == k);
            }
        }
    }
}

proof fn lemma_map_of_len(rs: Seq<(Seq<char>, Value)>)
    requires
        unique_keys(rs),
    ensures
        map_of(rs).dom().finite(),
        map_of(rs).len() == rs.len(),
    decreases rs.len(),
{
    if rs.len() > 0 {
        let d = rs.drop_last();
        assert(unique_keys(d));
        lemma_map_of_len(d);
        lemma_map_of_contains(d, rs.last().0);
        if map_of(d).contains_key(rs.last().0) {
            let j = choose|j: int| 0 <= j < d.len() && d[j].0 == rs.last().0;
            assert(rs[j].0 != rs[rs.len() - 1].0);
        }
    }
}

proof fn lemma_map_of_index(rs: Seq<(Seq<char>, Value)>, i: int)
    requires
        unique_keys(rs),
        0 <= i < rs.len(),
    ensures
        map_of(rs).contains_key(rs[i].0),
        map_of(rs)[rs[i].0] == rs[i].1,
    decreases rs.len(),
{
    if i < rs.len() - 1 {
        assert(unique_keys(rs.drop_last()));
        assert(rs.drop_last()[i] == rs[i]);
        lemma_map_of_index(rs.drop_last(), i);
        assert(rs[i].0 != rs[rs.len() - 1].0);
    }
}

proof fn lemma_map_of_update(rs: Seq<(Seq<char>, Value)>, i: int, x: (Seq<char>, Value))
    requires
        unique_keys(rs),
        0 <= i < rs.len(),
        rs[i].0 == x.0,
    ensures
        map_of(rs.update(i, x)) == map_of(rs).insert(x.0, x.1),
        unique_keys(rs.update(i, x)),
    decreases rs.len(),
{
    let us = rs.update(i, x);
    assert(unique_keys(us)) by {
        assert forall|a: int, b: int| 0 <= a < b < us.len() implies #[trigger] us[a].0
            != #[trigger] us[b].0 by {
            assert(rs[a].0 != rs[b].0);
        }
    }
    if i == rs.len() - 1 {
        assert(us.drop_last() =~= rs.drop_last());
        assert(map_of(us) =~= map_of(rs).insert(x.0, x.1));
    } else {
        assert(us.drop_last() =~= rs.drop_last().update(i, x));
        assert(unique_keys(rs.drop_last()));
        lemma_map_of_update(rs.drop_last(), i, x);
        assert(rs[i].0 != rs[rs.len() - 1].0);
        assert(map_of(us) =~= map_of(rs).insert(x.0, x.1));
    }
}

proof fn lemma_map_of_remove(rs: Seq<(Seq<char>, Value)>, i: int)
    requires
        unique_keys(rs),
        0 <= i < rs.len(),
    ensures
        map_of(rs.remove(i)) == map_of(rs).remove(rs[i].0),
        unique_keys(rs.remove(i)),
    decreases rs.len(),
{
    let k = rs[i].0;
    let ms = rs.remove(i);
    assert(unique_keys(ms)) by {
        assert forall|a: int, b: int| 0 <= a < b < ms.len() implies #[trigger] ms[a].0
            != #[trigger] ms[b].0 by {
            if a < i {
                if b < i {
                    assert(rs[a].0 != rs[b].0);
                } else {
                    assert(rs[a].0 != rs[b + 1].0);
                }
            } else {
                assert(rs[a + 1].0 != rs[b + 1].0);
            }
        }
    }
    if i == rs.len() - 1 {
        assert(ms =~= rs.drop_last());
        lemma_map_of_contains(rs.drop_last(), k);
        if map_of(rs.drop_last()).contains_key(k) {
            let j = choose|j: int| 0 <= j < rs.len() - 1 && rs.drop_last()[j].0 == k;
            assert(rs[j].0 != rs[i].0);
        }
        assert(map_of(ms) =~= map_of(rs).remove(k));
    } else {
        assert(ms.drop_last() =~= rs.drop_last().remove(i));
        assert(ms.last() == rs.last());
        assert(unique_keys(rs.drop_last()));
        lemma_map_of_remove(rs.drop_last(), i);
        assert(rs[i].0 != rs[rs.len() - 1].0);
        assert(map_of(ms) =~= map_of(rs).remove(k));
    }
}

proof fn lemma_encode_records_push(rs: Seq<(Seq<char>, Value)>, x: (Seq<char>, Value))
    ensures
        encode_records(rs.push(x)) == encode_records(rs) + encode_record(x.0, x.1),
    decreases rs.len(),
{
    if rs.len() == 0 {
        assert(rs.push(x).drop_first() =~= seq![]);
        assert(rs.push(x)[0] == x);
        assert(encode_records(rs.push(x).drop_first()) == Seq::<u8>::empty());
        assert(encode_records(rs.push(x)) =~= encode_records(rs) + encode_record(x.0, x.1));
    } else {
        assert(rs.push(x).drop_first() =~= rs.drop_first().push(x));
        lemma_encode_records_push(rs.drop_first(), x);
        assert(encode_records(rs.push(x)) =~= encode_records(rs) + encode_record(x.0, x.1));
    }
}

/// Storing `v1` and then `v2` under one key leaves `v2` there, and the
/// second store finds `v1` in place: the same map as storing `v2` alone.
pub proof fn lemma_overwrite(m: Map<Seq<char>, Value>, k: Seq<char>, v1: Value, v2: Value)
    ensures
        m.insert(k, v1).contains_key(k),
        m.insert(k, v1)[k] == v1,
        m.insert(k, v1).insert(k, v2)[k] == v2,
        m.insert(k, v1).insert(k, v2) == m.insert(k, v2),
{
    assert(m.insert(k, v1).insert(k, v2) =~= m.insert(k, v2));
}

impl Default for PickleDB {
    fn default() -> (r: Self)
        ensures
            r@ == Map::<Seq<char>, Value>::empty(),
    {
        PickleDB::new()
    }
}

impl PickleDB {
    /// The records of the store, one per key, in its storage order.
    pub closed spec fn records(&self) -> Seq<(Seq<char>, Value)> {
        entry_views(self.inner@)
    }

    #[verifier::type_invariant]
    spec fn inv(&self) -> bool {
        unique_keys(self.records())
    }

    /// An empty store.
    pub fn new() -> (r: Self)
        ensures
            r@ == Map::<Seq<char>, Value>::empty(),
    {
        let r = PickleDB { inner: Vec::new() };
        assert(r.records() =~= seq![]);
        r
    }

    /// Moves the entries out, leaving the store empty.
    fn take_entries(&mut self) -> (r: Vec<(String, DataType)>)
        ensures
            r@ == old(self).inner@,
            final(self)@ == Map::<Seq<char>, Value>::empty(),
    {
        let mut other = PickleDB::new();
        std::mem::swap(self, &mut other);
        other.inner
    }

    fn find(&self, key: &String) -> (r: Option<usize>)
        ensures
            match r {
                Some(i) => i < self.records().len() && self.records()[i as int].0 == key@,
                None => forall|i: int| 0 <= i < self.records().len() ==> self.records()[i].0 != key@,
            },
    {
        let mut i: usize = 0;
        while i < self.inner.len()
            invariant
                i <= self.inner@.len(),
                forall|j: int| 0 <= j < i ==> self.records()[j].0 != key@,
            decreases self.inner@.len() - i,
        {
            if self.inner[i].0 == *key {
                return Some(i);
            }
            i = i + 1;
        }
        None
    }

    /// Stores `value` under `key`, and gives back the value it replaced.
    pub fn set(&mut self, key: String, value: DataType) -> (r: Option<DataType>)
        ensures
            final(self)@ == old(self)@.insert(key@, value@),
            r is Some <==> old(self)@.contains_key(key@),
            r matches Some(v) ==> v@ == old(self)@[key@],
    {
        proof {
            use_type_invariant(&*self);
        }
        let ghost rs = self.records();
        let ghost x = (key@, value@);
        match self.find(&key) {
            Some(i) => {
                proof {
                    lemma_map_of_index(rs, i as int);
                    lemma_map_of_update(rs, i as int, x);
                }
                let mut inner = self.take_entries();
                let old_entry = inner.remove(i);
                inner.insert(i, (key, value));
                assert(entry_views(inner@) =~= rs.update(i as int, x));
                *self = PickleDB { inner };
                assert(self.records() =~= rs.update(i as int, x));
                Some(old_entry.1)
            },
            None => {
                proof {
                    lemma_map_of_contains(rs, x.0);
                }
                let mut inner = self.take_entries();
                inner.push((key, value));
                assert(entry_views(inner@) =~= rs.push(x));
                assert(unique_keys(rs.push(x))) by {
                    assert forall|a: int, b: int| 0 <= a < b < rs.len() + 1 implies #[trigger] rs.push(x)[a].0
                        != #[trigger] rs.push(x)[b].0 by {
                        if b < rs.len() {
                            assert(rs[a].0 != rs[b].0);
                        }
                    }
                }
                *self = PickleDB { inner };
                assert(self.records() =~= rs.push(x));
                assert(self.records().drop_last() =~= rs);
                None
            },
        }
    }

    /// The value stored under `key`, if any.
    pub fn get(&self, key: &String) -> (r: Option<&DataType>)
        ensures
            r is Some <==> self@.contains_key(key@),
            r matches Some(v) ==> v@ == self@[key@],
    {
        proof {
            use_type_invariant(self);
            lemma_map_of_contains(self.records(), key@);
        }
        match self.find(key) {
            Some(i) => {
                proof {
                    lemma_map_of_index(self.records(), i as int);
                }
                Some(&self.inner[i].1)
            },
            None => None,
        }
    }

    /// Whether a value is stored under `key`.
    pub fn contains_key(&self, key: &String) -> (r: bool)
        ensures
            r == self@.contains_key(key@),
    {
        proof {
            use_type_invariant(self);
            lemma_map_of_contains(self.records(), key@);
        }
        self.find(key).is_some()
    }

    /// Takes the value stored under `key` out of the store.
    pub fn remove(&mut self, key: &String) -> (r: Option<DataType>)
        ensures
            final(self)@ == old(self)@.remove(key@),
            r is Some <==> old(self)@.contains_key(key@),
            r matches Some(v) ==> v@ == old(self)@[key@],
    {
        proof {
            use_type_invariant(&*self);
            lemma_map_of_contains(self.records(), key@);
        }
        let ghost rs = self.records();
        match self.find(key) {
            Some(i) => {
                proof {
                    lemma_map_of_index(rs, i as int);
                    lemma_map_of_remove(rs, i as int);
                }
                let mut inner = self.take_entries();
                let entry = inner.remove(i);
                assert(entry_views(inner@) =~= rs.remove(i as int));
                *self = PickleDB { inner };
                assert(self.records() =~= rs.remove(i as int));
                Some(entry.1)
            },
            None => {
                assert(old(self)@.remove(key@) =~= old(self)@);
                None
            },
        }
    }

    /// The value stored under `key` narrowed to `T`: `None` where the key is
    /// absent, a conversion error where the value is of another type.
    pub fn extract<T: FromValue>(&self, key: &String) -> (r: Option<Result<T, Error>>)
        ensures
            r is Some <==> self@.contains_key(key@),
            r matches Some(x) ==> (x is Ok <==> T::accepts(self@[key@])),
            r matches Some(x) ==> (x matches Ok(t) ==> T::converts_to(self@[key@], t)),
            r matches Some(x) ==> (x matches Err(e) ==> e == Error::ConversionError),
    {
        match self.get(key) {
            Some(v) => Some(T::from_value(v)),
            None => None,
        }
    }

    /// The store as a record stream: one record per key, in storage order.
    pub fn encode(&self) -> (r: Vec<u8>)
        ensures
            r@ == encode_records(self.records()),
            unique_keys(self.records()),
            self.records().len() == self@.len(),
            forall|i: int|
                0 <= i < self.records().len() ==> self@.contains_key(#[trigger] self.records()[i].0)
                    && self@[self.records()[i].0] == self.records()[i].1,
            representable(self.records()),
    {
        proof {
            use_type_invariant(self);
            lemma_map_of_len(self.records());
            assert forall|i: int| 0 <= i < self.records().len() implies self@.contains_key(
                #[trigger] self.records()[i].0,
            ) && self@[self.records()[i].0] == self.records()[i].1 by {
                lemma_map_of_index(self.records(), i);
            }
        }
        let ghost rs = self.records();
        let mut out: Vec<u8> = Vec::new();
        let mut i: usize = 0;
        assert(rs.take(0) =~= seq![]);
        while i < self.inner.len()
            invariant
                rs == self.records(),
                i <= self.inner@.len(),
                out@ == encode_records(rs.take(i as int)),
                representable(rs.take(i as int)),
            decreases self.inner@.len() - i,
        {
            let entry = &self.inner[i];
            let ghost before = out@;
            write_sized(&mut out, entry.0.as_str().as_bytes());
            write_value(&mut out, &entry.1);
            proof {
                let x = rs[i as int];
                lemma_encode_records_push(rs.take(i as int), x);
                assert(rs.take(i + 1) =~= rs.take(i as int).push(x));
                assert(out@ =~= before + encode_record(x.0, x.1));
                assert forall|j: int| 0 <= j < i + 1 implies encode_utf8(
                    #[trigger] rs.take(i + 1)[j].0,
                ).len() < pow256(8) && value_fits(rs.take(i + 1)[j].1) by {
                    if j < i {
                        assert(rs.take(i + 1)[j] == rs.take(i as int)[j]);
                    }
                }
            }
            i = i + 1;
        }
        assert(rs.take(i as int) =~= rs);
        out
    }

    /// Rebuilds a store from a record stream; a later record for a key
    /// replaces an earlier one.
    pub fn decode(encoded_data: &[u8]) -> (r: Result<PickleDB, Error>)
        ensures
            match decode_store(encoded_data@) {
                Some(m) => r matches Ok(db) && db@ == m,
                None => r == Err::<PickleDB, Error>(Error::DecodeError),
            },
    {
        let ghost b = encoded_data@;
        let mut db = PickleDB::new();
        let mut pos: usize = 0;
        let ghost mut done: Seq<(Seq<char>, Value)> = seq![];
        assert(b.skip(0) =~= b);
        assert(done + seq![] =~= done);
        while pos < encoded_data.len()
            invariant
                b == encoded_data@,
                pos <= b.len(),
                db@ == map_of(done),
                decode_records(b) == prepend_records(done, decode_records(b.skip(pos as int))),
            decreases b.len() - pos,
        {
            let ghost rest = b.skip(pos as int);
            match parse_record_at(encoded_data, pos) {
                Some((key, value, n)) => {
                    let ghost x = (key@, value@);
                    proof {
                        assert(rest.skip(n as int) =~= b.skip(pos + n));
                        match decode_records(b.skip(pos + n)) {
                            Some(t) => {
                                assert(done + (seq![x] + t) =~= done.push(x) + t);
                            },
                            None => {},
                        }
                        assert(done.push(x).drop_last() =~= done);
                    }
                    db.set(key, value);
                    proof {
                        done = done.push(x);
                    }
                    pos = pos + n;
                },
                None => {
                    return Err(Error::DecodeError);
                },
            }
        }
        assert(b.skip(pos as int) =~= seq![]);
        assert(done + seq![] =~= done);
        Ok(db)
    }

    /// The compressed image of the store, as `backup` and `backup_to_stream`
    /// write it: the record stream in a zlib stream.
    pub fn to_compressed(&self) -> (r: Result<Vec<u8>, Error>)
        ensures
            r matches Ok(c) && c@ == zlib_compressed(encode_records(self.records())),
            unique_keys(self.records()),
            representable(self.records()),
    {
        let data = self.encode();
        match compress_fast(data.as_slice()) {
            Some(c) => Ok(c),
            None => Err(Error::CompressionError),
        }
    }

    /// Rebuilds a store from its compressed image, as `load` and
    /// `load_from_stream` read it.
    pub fn from_compressed(data: &[u8]) -> (r: Result<PickleDB, Error>)
        ensures
            match zlib_decompressed(data@) {
                None => r == Err::<PickleDB, Error>(Error::CompressionError),
                Some(d) => match decode_store(d) {
                    Some(m) => r matches Ok(db) && db@ == m,
                    None => r == Err::<PickleDB, Error>(Error::DecodeError),
                },
            },
            forall|x: Seq<u8>| #[trigger] zlib_compressed(x) == data@ ==> zlib_decompressed(data@) == Some(x),
            forall|rs: Seq<(Seq<char>, Value)>|
                representable(rs) && #[trigger] zlib_compressed(encode_records(rs)) == data@ ==> (r matches Ok(db)
                    && db@ == map_of(rs)),
    {
        let r = match decompress_zlib(data) {
            Some(d) => PickleDB::decode(d.as_slice()),
            None => Err(Error::CompressionError),
        };
        proof {
            assert forall|rs: Seq<(Seq<char>, Value)>|
                representable(rs) && #[trigger] zlib_compressed(encode_records(rs)) == data@ implies (r matches Ok(
                db,
            ) && db@ == map_of(rs)) by {
                lemma_round_trip(rs);
            }
        }
        r
    }

    /// The entries of the store, each key once, in no particular order.
    pub fn into_entries(self) -> (r: Vec<(String, DataType)>)
        ensures
            unique_keys(entry_views(r@)),
            map_of(entry_views(r@)) == self@,
    {
        proof {
            use_type_invariant(&self);
        }
        self.inner
    }
}

} // verus!
