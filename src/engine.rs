//! The in-memory storage engine: named tables of byte keys and values,
//! atomic write batches, and snapshots that capture every table.
use vstd::prelude::*;

use crate::bytes::{lemma_lex_trans, lex_lt};
use crate::entries::{
    copy_bytes, entries_delete, entries_delete_range, entries_map, entries_model, entries_put,
    lookup, sorted_keys, span_removed, Entries, EntriesModel,
};
use crate::snapshot::MemorySnapshot;

verus! {

/// Every table with its pairs.
pub type Tables = Vec<(String, Entries)>;

/// What the tables hold, as strings and byte strings.
pub type TablesModel = Seq<(Seq<char>, EntriesModel)>;

/// The tables of `t` as strings and byte strings.
pub open spec fn tables_model(t: Tables) -> TablesModel {
    t@.map_values(|p: (String, Entries)| (p.0@, entries_model(p.1)))
}

/// Table names distinct, and each table's keys strictly ascending.
pub open spec fn tables_wf(t: TablesModel) -> bool {
    &&& forall|i: int, j: int| 0 <= i < j < t.len() ==> (#[trigger] t[i]).0 != (#[trigger] t[j]).0
    &&& forall|i: int| 0 <= i < t.len() ==> sorted_keys(#[trigger] t[i].1)
}

/// Whether `t` has a table named `name`.
pub open spec fn has_table(t: TablesModel, name: Seq<char>) -> bool {
    exists|i: int| 0 <= i < t.len() && (#[trigger] t[i]).0 == name
}

/// Table name to the map from key to value that it holds.
pub open spec fn tables_map(t: TablesModel) -> Map<Seq<char>, Map<Seq<u8>, Seq<u8>>> {
    Map::new(
        |n: Seq<char>| has_table(t, n),
        |n: Seq<char>| entries_map(t[choose|i: int| 0 <= i < t.len() && (#[trigger] t[i]).0 == n].1),
    )
}

/// Whether `b` begins with `p`.
pub open spec fn begins_with(b: Seq<u8>, p: Seq<u8>) -> bool {
    p.len() <= b.len() && b.subrange(0, p.len() as int) == p
}

/// The name that bincode gives to the bytes it encodes tables into.
pub uninterp spec fn bincode_image(t: TablesModel) -> Seq<u8>;

#[verifier::external_type_specification]
#[verifier::external_body]
pub struct ExBincodeErrorKind(bincode::ErrorKind);

/// Relies on `bincode::serialize`: the encoding of the tables. With its
/// fixed-width integers and no size limit, encoding vectors of strings and
/// byte vectors has no error path.
#[verifier::external_body]
fn encode_tables(t: &Tables) -> (r: Result<Vec<u8>, Box<bincode::ErrorKind>>)
    ensures
        r is Ok && r->Ok_0@ == bincode_image(tables_model(*t)),
{
    bincode::serialize(t)
}

/// Relies on `bincode::deserialize`: it decodes what `bincode::serialize`
/// encoded into the value encoded, and a value it decodes is encoded by
/// the leading bytes of `b` (trailing bytes are allowed).
#[verifier::external_body]
fn decode_tables(b: &[u8]) -> (r: Result<Tables, Box<bincode::ErrorKind>>)
    ensures
        forall|x: TablesModel| #[trigger] bincode_image(x) == b@ ==> r is Ok && tables_model(r->Ok_0) == x,
        r matches Ok(t) ==> begins_with(b@, bincode_image(tables_model(t))),
{
    bincode::deserialize(b)
}

/// Errors of the storage engine.
#[derive(Debug)]
pub enum EngineError {
    /// No table has this name.
    TableNotFound(String),
    /// Encoding or decoding of a snapshot failed.
    UnderlyingError(String),
    /// A read ran past the end of a snapshot.
    UnexpectedEof,
}

/// One write of a batch.
#[derive(Debug)]
pub enum WriteOperation {
    /// Binds `key` to `value` in `table`.
    Put { table: String, key: Vec<u8>, value: Vec<u8> },
    /// Removes `key` from `table`.
    Delete { table: String, key: Vec<u8> },
    /// Removes the keys of `[from, to)` from `table`.
    DeleteRange { table: String, from: Vec<u8>, to: Vec<u8> },
}

/// The table that `op` writes to.
pub open spec fn op_table(op: WriteOperation) -> Seq<char> {
    match op {
        WriteOperation::Put { table, .. } => table@,
        WriteOperation::Delete { table, .. } => table@,
        WriteOperation::DeleteRange { table, .. } => table@,
    }
}

/// The tables after `op`.
pub open spec fn apply_op(m: Map<Seq<char>, Map<Seq<u8>, Seq<u8>>>, op: WriteOperation) -> Map<
    Seq<char>,
    Map<Seq<u8>, Seq<u8>>,
> {
    match op {
        WriteOperation::Put { table, key, value } => m.insert(
            table@,
            m[table@].insert(key@, value@),
        ),
        WriteOperation::Delete { table, key } => m.insert(table@, m[table@].remove(key@)),
        WriteOperation::DeleteRange { table, from, to } => m.insert(
            table@,
            span_removed(m[table@], from@, to@),
        ),
    }
}

/// The tables after every operation of `ops`, in order.
pub open spec fn apply_ops(m: Map<Seq<char>, Map<Seq<u8>, Seq<u8>>>, ops: Seq<WriteOperation>) -> Map<
    Seq<char>,
    Map<Seq<u8>, Seq<u8>>,
>
    decreases ops.len(),
{
    if ops.len() == 0 {
        m
    } else {
        apply_op(apply_ops(m, ops.drop_last()), ops.last())
    }
}

/// Whether some operation of `ops` names a table that `m` lacks.
pub open spec fn names_missing_table(
    m: Map<Seq<char>, Map<Seq<u8>, Seq<u8>>>,
    ops: Seq<WriteOperation>,
) -> bool {
    exists|i: int| 0 <= i < ops.len() && !m.contains_key(op_table(#[trigger] ops[i]))
}

impl WriteOperation {
    /// A put of `value` under `key` in `table`.
    pub fn new_put(table: &str, key: Vec<u8>, value: Vec<u8>) -> (r: WriteOperation)
        ensures
            r == (WriteOperation::Put { table: r->Put_table, key: key, value: value }),
            r->Put_table@ == table@,
    {
        WriteOperation::Put { table: table.to_owned(), key, value }
    }

    /// A delete of `key` from `table`.
    pub fn new_delete(table: &str, key: &[u8]) -> (r: WriteOperation)
        ensures
            r is Delete,
            r->Delete_table@ == table@,
            r->Delete_key@ == key@,
    {
        WriteOperation::Delete { table: table.to_owned(), key: vstd::slice::slice_to_vec(key) }
    }

    /// A delete of the keys of `[from, to)` from `table`.
    pub fn new_delete_range(table: &str, from: &[u8], to: &[u8]) -> (r: WriteOperation)
        ensures
            r is DeleteRange,
            r->DeleteRange_table@ == table@,
            r->DeleteRange_from@ == from@,
            r->DeleteRange_to@ == to@,
    {
        WriteOperation::DeleteRange {
            table: table.to_owned(),
            from: vstd::slice::slice_to_vec(from),
            to: vstd::slice::slice_to_vec(to),
        }
    }

    /// The table written to.
    pub fn table(&self) -> (r: &String)
        ensures
            r@ == op_table(*self),
    {
        match self {
            WriteOperation::Put { table, .. } => table,
            WriteOperation::Delete { table, .. } => table,
            WriteOperation::DeleteRange { table, .. } => table,
        }
    }
}

/// In well-formed tables, table `i` is what the map says of its name.
proof fn lemma_tables_map_at(t: TablesModel, i: int)
    requires
        tables_wf(t),
        0 <= i < t.len(),
    ensures
        tables_map(t).contains_key(t[i].0),
        tables_map(t)[t[i].0] == entries_map(t[i].1),
{
    assert(has_table(t, t[i].0));
    let j = choose|j: int| 0 <= j < t.len() && (#[trigger] t[j]).0 == t[i].0;
    assert(j == i);
}

/// Replacing the pairs of table `i` replaces what the map says of its name.
proof fn lemma_tables_map_update(t: TablesModel, i: int, e: EntriesModel)
    requires
        tables_wf(t),
        0 <= i < t.len(),
        sorted_keys(e),
    ensures
        tables_wf(t.update(i, (t[i].0, e))),
        tables_map(t.update(i, (t[i].0, e))) == tables_map(t).insert(t[i].0, entries_map(e)),
{
    let u = t.update(i, (t[i].0, e));
    assert forall|a: int, b: int| 0 <= a < b < u.len() implies (#[trigger] u[a]).0 != (
    #[trigger] u[b]).0 by {
        assert(t[a].0 == u[a].0 && t[b].0 == u[b].0);
    }
    let m = tables_map(t).insert(t[i].0, entries_map(e));
    assert forall|n: Seq<char>| #[trigger] tables_map(u).contains_key(n) <==> m.contains_key(n) by {
        if has_table(t, n) {
            let j = choose|j: int| 0 <= j < t.len() && (#[trigger] t[j]).0 == n;
            assert(u[j].0 == n);
        }
        if has_table(u, n) {
            let j = choose|j: int| 0 <= j < u.len() && (#[trigger] u[j]).0 == n;
            assert(t[j].0 == n);
        }
    }
    assert forall|n: Seq<char>| #[trigger] tables_map(u).contains_key(n) implies tables_map(u)[n]
        == m[n] by {
        let j = choose|j: int| 0 <= j < u.len() && (#[trigger] u[j]).0 == n;
        lemma_tables_map_at(u, j);
        if j != i {
            lemma_tables_map_at(t, j);
        }
    }
    assert(tables_map(u) =~= m);
}

/// The in-memory storage engine.
#[derive(Debug)]
pub struct MemoryEngine {
    tables: Tables,
}

impl View for MemoryEngine {
    type V = Map<Seq<char>, Map<Seq<u8>, Seq<u8>>>;

    /// Table name to the map from key to value that the table holds.
    closed spec fn view(&self) -> Self::V {
        tables_map(tables_model(self.tables))
    }
}

/// Whether the table named `n` lies in `names`.
pub open spec fn names_contain(names: Seq<&str>, n: Seq<char>) -> bool {
    exists|i: int| 0 <= i < names.len() && (#[trigger] names[i])@ == n
}

/// Whether `v` is the pairs of `m` in strictly ascending key order.
pub open spec fn lists_table(v: EntriesModel, m: Map<Seq<u8>, Seq<u8>>) -> bool {
    sorted_keys(v) && entries_map(v) == m
}

impl MemoryEngine {
    /// The engine is well formed.
    pub closed spec fn wf(&self) -> bool {
        tables_wf(tables_model(self.tables))
    }

    /// The bytes of a snapshot of this engine.
    pub closed spec fn snapshot_image(&self) -> Seq<u8> {
        bincode_image(tables_model(self.tables))
    }

    /// The engine holds what any well-formed tables that `bytes` encode hold.
    pub closed spec fn restored_from(&self, bytes: Seq<u8>) -> bool {
        forall|x: TablesModel| bytes == bincode_image(x) && tables_wf(x) ==> tables_model(self.tables) == x
    }

    /// Whether `bytes` encode well-formed tables.
    pub open spec fn encodes_tables(bytes: Seq<u8>) -> bool {
        exists|x: TablesModel| bytes == bincode_image(x) && tables_wf(x)
    }

    /// Whether `bytes` begin with the encoding of well-formed tables.
    pub open spec fn begins_with_tables(bytes: Seq<u8>) -> bool {
        exists|x: TablesModel| #[trigger] begins_with(bytes, bincode_image(x)) && tables_wf(x)
    }

    /// An engine with an empty table for each name of `tables`.
    pub fn new(tables: &[&str]) -> (r: Result<MemoryEngine, EngineError>)
        ensures
            r matches Ok(e) && e.wf() && e@.dom() == Set::new(|n: Seq<char>| names_contain(tables@, n))
                && forall|n: Seq<char>| #[trigger] e@.contains_key(n) ==> e@[n] == Map::<
                Seq<u8>,
                Seq<u8>,
            >::empty(),
    {
        let mut t: Tables = Vec::new();
        let mut i: usize = 0;
        while i < tables.len()
            invariant
                i <= tables@.len(),
                tables_wf(tables_model(t)),
                forall|n: Seq<char>|
                    has_table(tables_model(t), n) <==> names_contain(tables@.subrange(0, i as int), n),
                forall|j: int| 0 <= j < t@.len() ==> (#[trigger] t@[j]).1@.len() == 0,
            decreases tables@.len() - i,
        {
            let name: String = tables[i].to_owned();
            let found = find_table(&t, &name);
            let ghost old_t = tables_model(t);
            if found.is_none() {
                let empty: Entries = Vec::new();
                proof {
                    assert(entries_model(empty) =~= Seq::empty());
                }
                t.push((name, empty));
                proof {
                    assert(tables_model(t) =~= old_t.push((tables@[i as int]@, Seq::empty())));
                }
            }
            proof {
                let sub = tables@.subrange(0, i + 1);
                assert forall|n: Seq<char>|
                    has_table(tables_model(t), n) <==> names_contain(sub, n) by {
                    if names_contain(sub, n) {
                        let j = choose|j: int| 0 <= j < sub.len() && (#[trigger] sub[j])@ == n;
                        if j < i {
                            assert(tables@.subrange(0, i as int)[j] == sub[j]);
                        }
                    }
                    if names_contain(tables@.subrange(0, i as int), n) {
                        let j = choose|j: int|
                            0 <= j < i && (#[trigger] tables@.subrange(0, i as int)[j])@ == n;
                        assert(sub[j] == tables@.subrange(0, i as int)[j]);
                    }
                    if has_table(tables_model(t), n) && found.is_none() {
                        let j = choose|j: int|
                            0 <= j < tables_model(t).len() && (#[trigger] tables_model(t)[j]).0 == n;
                        if j < old_t.len() {
                            assert(old_t[j].0 == n);
                        } else {
                            assert(sub[i as int]@ == n);
                        }
                    }
                    if found.is_some() && n == tables@[i as int]@ {
                        assert(has_table(old_t, n));
                    }
                    if found.is_none() && n == tables@[i as int]@ {
                        assert(tables_model(t)[old_t.len() as int].0 == n);
                    }
                    if found.is_none() && has_table(old_t, n) {
                        let j = choose|j: int| 0 <= j < old_t.len() && (#[trigger] old_t[j]).0 == n;
                        assert(tables_model(t)[j].0 == n);
                    }
                }
            }
            i = i + 1;
        }
        assert(tables@.subrange(0, i as int) =~= tables@);
        let e = MemoryEngine { tables: t };
        proof {
            let tm = tables_model(t);
            assert forall|n: Seq<char>| #[trigger] e@.contains_key(n) implies e@[n] == Map::<
                Seq<u8>,
                Seq<u8>,
            >::empty() by {
                let j = choose|j: int| 0 <= j < tm.len() && (#[trigger] tm[j]).0 == n;
                lemma_tables_map_at(tm, j);
                assert(tm[j].1.len() == 0);
                assert(entries_map(tm[j].1) =~= Map::empty());
            }
            assert(e@.dom() =~= Set::new(|n: Seq<char>| names_contain(tables@, n)));
        }
        Ok(e)
    }

    /// The value of `key` in `table`.
    pub fn get(&self, table: &str, key: &[u8]) -> (r: Result<Option<Vec<u8>>, EngineError>)
        requires
            self.wf(),
        ensures
            !self@.contains_key(table@) ==> (r matches Err(EngineError::TableNotFound(n)) && n@ == table@),
            self@.contains_key(table@) ==> (r matches Ok(v) && match v {
                Some(v) => self@[table@].contains_key(key@) && v@ == self@[table@][key@],
                None => !self@[table@].contains_key(key@),
            }),
    {
        let name: String = table.to_owned();
        match find_table(&self.tables, &name) {
            None => Err(EngineError::TableNotFound(name)),
            Some(i) => {
                proof {
                    lemma_tables_map_at(tables_model(self.tables), i as int);
                }
                Ok(lookup(&self.tables[i].1, key))
            },
        }
    }

    /// The value of each key of `keys` in `table`, in the order of `keys`.
    pub fn get_multi(&self, table: &str, keys: &[Vec<u8>]) -> (r: Result<
        Vec<Option<Vec<u8>>>,
        EngineError,
    >)
        requires
            self.wf(),
        ensures
            !self@.contains_key(table@) ==> (r matches Err(EngineError::TableNotFound(n)) && n@ == table@),
            self@.contains_key(table@) ==> (r matches Ok(vs) && vs@.len() == keys@.len() && forall|
                j: int,
            |
                0 <= j < keys@.len() ==> match #[trigger] vs@[j] {
                    Some(v) => self@[table@].contains_key(keys@[j]@) && v@ == self@[table@][keys@[j]@],
                    None => !self@[table@].contains_key(keys@[j]@),
                }),
    {
        let name: String = table.to_owned();
        match find_table(&self.tables, &name) {
            None => Err(EngineError::TableNotFound(name)),
            Some(i) => {
                proof {
                    lemma_tables_map_at(tables_model(self.tables), i as int);
                }
                let e = &self.tables[i].1;
                let ghost m = self@[table@];
                let mut out: Vec<Option<Vec<u8>>> = Vec::new();
                let mut j: usize = 0;
                while j < keys.len()
                    invariant
                        j <= keys@.len(),
                        sorted_keys(entries_model(*e)),
                        m == entries_map(entries_model(*e)),
                        out@.len() == j,
                        forall|x: int|
                            0 <= x < j ==> match #[trigger] out@[x] {
                                Some(v) => m.contains_key(keys@[x]@) && v@ == m[keys@[x]@],
                                None => !m.contains_key(keys@[x]@),
                            },
                    decreases keys@.len() - j,
                {
                    out.push(lookup(e, keys[j].as_slice()));
                    j = j + 1;
                }
                Ok(out)
            },
        }
    }

    /// Every pair of `table`, in ascending key order.
    pub fn get_all(&self, table: &str) -> (r: Result<Vec<(Vec<u8>, Vec<u8>)>, EngineError>)
        requires
            self.wf(),
        ensures
            !self@.contains_key(table@) ==> (r matches Err(EngineError::TableNotFound(n)) && n@ == table@),
            self@.contains_key(table@) ==> (r matches Ok(v) && lists_table(
                entries_model(v),
                self@[table@],
            )),
    {
        let name: String = table.to_owned();
        match find_table(&self.tables, &name) {
            None => Err(EngineError::TableNotFound(name)),
            Some(i) => {
                proof {
                    lemma_tables_map_at(tables_model(self.tables), i as int);
                }
                let e = &self.tables[i].1;
                let mut out: Entries = Vec::new();
                let mut j: usize = 0;
                while j < e.len()
                    invariant
                        j <= e@.len(),
                        entries_model(out) == entries_model(*e).subrange(0, j as int),
                    decreases e@.len() - j,
                {
                    let ghost prev = entries_model(out);
                    out.push((copy_bytes(&e[j].0), copy_bytes(&e[j].1)));
                    assert(entries_model(out) =~= prev.push(entries_model(*e)[j as int]));
                    j = j + 1;
                    assert(entries_model(out) =~= entries_model(*e).subrange(0, j as int));
                }
                assert(entries_model(*e).subrange(0, j as int) =~= entries_model(*e));
                Ok(out)
            },
        }
    }

    /// Applies every operation of `ops` in order, or none: when an operation
    /// names an unknown table the engine is left as it was.
    pub fn write_batch(&mut self, ops: Vec<WriteOperation>, sync: bool) -> (r: Result<(), EngineError>)
        requires
            old(self).wf(),
        ensures
            final(self).wf(),
            names_missing_table(old(self)@, ops@) ==> *final(self) == *old(self),
            names_missing_table(old(self)@, ops@) ==> (r matches Err(EngineError::TableNotFound(n))
                && exists|i: int|
                0 <= i < ops@.len() && op_table(#[trigger] ops@[i]) == n@ && !old(self)@.contains_key(n@)
                    && forall|j: int| 0 <= j < i ==> old(self)@.contains_key(op_table(#[trigger] ops@[j]))),
            !names_missing_table(old(self)@, ops@) ==> r is Ok && final(self)@ == apply_ops(
                old(self)@,
                ops@,
            ),
    {
        let ghost m0 = self@;
        let mut idx: Vec<usize> = Vec::new();
        let mut i: usize = 0;
        while i < ops.len()
            invariant
                i <= ops@.len(),
                self.wf(),
                m0 == self@,
                idx@.len() == i,
                forall|j: int|
                    0 <= j < i ==> #[trigger] idx@[j] < self.tables@.len() && tables_model(
                        self.tables,
                    )[idx@[j] as int].0 == op_table(ops@[j]),
                forall|j: int| 0 <= j < i ==> m0.contains_key(op_table(#[trigger] ops@[j])),
            decreases ops@.len() - i,
        {
            match find_table(&self.tables, ops[i].table()) {
                None => {
                    let name = ops[i].table().clone();
                    return Err(EngineError::TableNotFound(name));
                },
                Some(t) => {
                    proof {
                        lemma_tables_map_at(tables_model(self.tables), t as int);
                    }
                    idx.push(t);
                },
            }
            i = i + 1;
        }
        let mut k: usize = 0;
        while k < ops.len()
            invariant
                k <= ops@.len(),
                idx@.len() == ops@.len(),
                self.wf(),
                self.tables@.len() == old(self).tables@.len(),
                forall|j: int|
                    0 <= j < ops@.len() ==> #[trigger] idx@[j] < self.tables@.len() && tables_model(
                        self.tables,
                    )[idx@[j] as int].0 == op_table(ops@[j]),
                forall|j: int| 0 <= j < ops@.len() ==> m0.contains_key(op_table(#[trigger] ops@[j])),
                self@ == apply_ops(m0, ops@.subrange(0, k as int)),
            decreases ops@.len() - k,
        {
            let t = idx[k];
            let ghost before = tables_model(self.tables);
            let ghost names = before.map_values(|p: (Seq<char>, EntriesModel)| p.0);
            let (name, mut entries) = self.tables.remove(t);
            proof {
                lemma_tables_map_at(before, t as int);
            }
            match &ops[k] {
                WriteOperation::Put { key, value, .. } => {
                    entries_put(&mut entries, copy_bytes(key), copy_bytes(value));
                },
                WriteOperation::Delete { key, .. } => {
                    entries_delete(&mut entries, key.as_slice());
                },
                WriteOperation::DeleteRange { from, to, .. } => {
                    entries_delete_range(&mut entries, from.as_slice(), to.as_slice());
                },
            }
            let ghost new_e = entries_model(entries);
            self.tables.insert(t, (name, entries));
            proof {
                assert(tables_model(self.tables) =~= before.update(t as int, (before[t as int].0, new_e)));
                lemma_tables_map_update(before, t as int, new_e);
                let sub = ops@.subrange(0, k + 1);
                assert(sub.drop_last() =~= ops@.subrange(0, k as int));
                assert(sub.last() == ops@[k as int]);
                assert forall|j: int|
                    0 <= j < ops@.len() implies #[trigger] idx@[j] < self.tables@.len() && tables_model(
                        self.tables,
                    )[idx@[j] as int].0 == op_table(ops@[j]) by {
                    assert(tables_model(self.tables)[idx@[j] as int].0 == before[idx@[j] as int].0);
                }
            }
            k = k + 1;
        }
        assert(ops@.subrange(0, k as int) =~= ops@);
        Ok(())
    }

    /// A snapshot of every table.
    pub fn get_snapshot(&self) -> (r: Result<MemorySnapshot, EngineError>)
        ensures
            r matches Ok(s) && s.data() == self.snapshot_image() && s.position() == 0,
    {
        match encode_tables(&self.tables) {
            Ok(data) => Ok(MemorySnapshot::from_bytes(data)),
            Err(_) => {
                proof {
                    assert(false);
                }
                Err(EngineError::UnderlyingError("serialize memory engine failed".to_owned()))
            },
        }
    }

    /// Replaces every table with those of `snapshot`. Bytes that do not
    /// begin with the encoding of well-formed tables are refused, and the
    /// engine is left as it was.
    pub fn apply_snapshot(&mut self, snapshot: MemorySnapshot) -> (r: Result<(), EngineError>)
        requires
            old(self).wf(),
        ensures
            final(self).wf(),
            r is Ok ==> final(self).restored_from(snapshot.data()),
            r is Ok ==> begins_with(snapshot.data(), final(self).snapshot_image()),
            r is Err ==> (r matches Err(EngineError::UnderlyingError(_)) && *final(self) == *old(self)),
            !Self::begins_with_tables(snapshot.data()) ==> (r matches Err(EngineError::UnderlyingError(_))
                && *final(self) == *old(self)),
            Self::encodes_tables(snapshot.data()) ==> r is Ok,
    {
        let data = snapshot.into_bytes();
        match decode_tables(data.as_slice()) {
            Ok(t) => {
                if check_tables(&t) {
                    proof {
                        assert(begins_with(data@, bincode_image(tables_model(t))));
                    }
                    self.tables = t;
                    Ok(())
                } else {
                    Err(EngineError::UnderlyingError("snapshot holds malformed tables".to_owned()))
                }
            },
            Err(_) => Err(
                EngineError::UnderlyingError("deserialize memory engine failed".to_owned()),
            ),
        }
    }
}

/// Restoring a snapshot of a well-formed engine gives an engine that holds
/// the same tables with the same pairs, so that `get_all` lists each table
/// alike on both.
pub proof fn lemma_snapshot_round_trip(source: MemoryEngine, restored: MemoryEngine)
    requires
        source.wf(),
        restored.wf(),
        restored.restored_from(source.snapshot_image()),
    ensures
        restored@ == source@,
{
}

/// Applying a snapshot of a well-formed engine succeeds.
pub proof fn lemma_snapshot_applies(source: MemoryEngine)
    requires
        source.wf(),
    ensures
        MemoryEngine::encodes_tables(source.snapshot_image()),
{
    assert(source.snapshot_image() == bincode_image(tables_model(source.tables)));
}

/// The index of the table named `name`.
fn find_table(t: &Tables, name: &String) -> (r: Option<usize>)
    ensures
        match r {
            Some(i) => i < t@.len() && tables_model(*t)[i as int].0 == name@,
            None => !has_table(tables_model(*t), name@),
        },
{
    let mut i: usize = 0;
    while i < t.len()
        invariant
            i <= t@.len(),
            forall|j: int| 0 <= j < i ==> (#[trigger] tables_model(*t)[j]).0 != name@,
        decreases t@.len() - i,
    {
        if t[i].0 == *name {
            return Some(i);
        }
        i = i + 1;
    }
    None
}

/// Whether keys of `e` strictly ascend.
fn check_sorted(e: &Entries) -> (r: bool)
    ensures
        r == sorted_keys(entries_model(*e)),
{
    let ghost s = entries_model(*e);
    if e.len() == 0 {
        return true;
    }
    let mut i: usize = 1;
    while i < e.len()
        invariant
            1 <= i <= e@.len(),
            s == entries_model(*e),
            forall|a: int, b: int| 0 <= a < b < i ==> lex_lt(#[trigger] s[a].0, #[trigger] s[b].0),
        decreases e@.len() - i,
    {
        if crate::bytes::compare_bytes(e[i - 1].0.as_slice(), e[i].0.as_slice()) >= 0 {
            assert(!lex_lt(s[i - 1].0, s[i as int].0));
            return false;
        }
        proof {
            assert forall|a: int, b: int| 0 <= a < b < i + 1 implies lex_lt(
                #[trigger] s[a].0,
                #[trigger] s[b].0,
            ) by {
                if b == i && a < i - 1 {
                    lemma_lex_trans(s[a].0, s[i - 1].0, s[b].0);
                }
            }
        }
        i = i + 1;
    }
    true
}

/// Whether `t` is well formed.
fn check_tables(t: &Tables) -> (r: bool)
    ensures
        r == tables_wf(tables_model(*t)),
{
    let ghost s = tables_model(*t);
    let mut i: usize = 0;
    while i < t.len()
        invariant
            i <= t@.len(),
            s == tables_model(*t),
            forall|a: int, b: int| 0 <= a < b < i ==> (#[trigger] s[a]).0 != (#[trigger] s[b]).0,
            forall|a: int| 0 <= a < i ==> sorted_keys(#[trigger] s[a].1),
        decreases t@.len() - i,
    {
        assert(s[i as int].1 == entries_model(t@[i as int].1));
        if !check_sorted(&t[i].1) {
            return false;
        }
        let mut j: usize = 0;
        while j < i
            invariant
                j <= i < t@.len(),
                s == tables_model(*t),
                forall|a: int| 0 <= a < j ==> (#[trigger] s[a]).0 != s[i as int].0,
            decreases i - j,
        {
            if t[j].0 == t[i].0 {
                assert(s[j as int].0 == s[i as int].0);
                return false;
            }
            j = j + 1;
        }
        i = i + 1;
    }
    true
}

} // verus!
