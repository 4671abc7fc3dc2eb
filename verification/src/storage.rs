use vstd::prelude::*;
use vstd::string::StrSliceExecFns;
use vstd::utf8::{decode_utf8, valid_utf8};

use crate::error::KvError;
use crate::pb::{Kvpair, Value, Vv};
use crate::strutil::str_eq_string;

verus! {

/// The model of one table: logical keys to stored values.
pub type TableModel = Map<Seq<char>, Option<Vv>>;

/// The model of a whole backend: table names to tables.
pub type StoreModel = Map<Seq<char>, TableModel>;

/// What a lookup of `(table, key)` sees in a store model: `None` when the
/// table or the key is absent, otherwise the stored value.
pub open spec fn store_get(m: StoreModel, table: Seq<char>, key: Seq<char>) -> Option<Option<Vv>> {
    if m.contains_key(table) && m[table].contains_key(key) {
        Some(m[table][key])
    } else {
        None
    }
}

/// The store model after `set(table, key, value)`: the table is created on
/// first use.
pub open spec fn store_set(
    m: StoreModel,
    table: Seq<char>,
    key: Seq<char>,
    value: Option<Vv>,
) -> StoreModel {
    let t = if m.contains_key(table) {
        m[table]
    } else {
        Map::<Seq<char>, Option<Vv>>::empty()
    };
    m.insert(table, t.insert(key, value))
}

/// The store model after `del(table, key)`.
pub open spec fn store_del(m: StoreModel, table: Seq<char>, key: Seq<char>) -> StoreModel {
    if m.contains_key(table) {
        m.insert(table, m[table].remove(key))
    } else {
        m
    }
}

/// Setting a key then reading it back yields exactly the value that was set.
pub proof fn lemma_set_then_get(m: StoreModel, table: Seq<char>, key: Seq<char>, value: Option<Vv>)
    ensures
        store_get(store_set(m, table, key, value), table, key) == Some(value),
{
}

/// Setting a fresh key reports no previous binding, and a second set of the
/// same key reports the first value.
pub proof fn lemma_set_returns_previous(
    m: StoreModel,
    table: Seq<char>,
    key: Seq<char>,
    v1: Option<Vv>,
    v2: Option<Vv>,
)
    requires
        store_get(m, table, key) is None,
    ensures
        store_get(store_set(m, table, key, v1), table, key) == Some(v1),
        store_get(store_set(store_set(m, table, key, v1), table, key, v2), table, key) == Some(v2),
{
}

/// Deleting a freshly set key yields the value that was set, and a subsequent
/// lookup reports not-found.
pub proof fn lemma_set_del_get(m: StoreModel, table: Seq<char>, key: Seq<char>, value: Option<Vv>)
    ensures
        store_get(store_set(m, table, key, value), table, key) == Some(value),
        store_get(store_del(store_set(m, table, key, value), table, key), table, key) is None,
{
}

/// The uniform storage contract: get/set/contains/del/scan over
/// `(table, key) -> value`.
///
/// `st()` is the backend's model, `wf()` its internal well-formedness, and
/// `infallible()` says whether its operations are guaranteed to succeed (true
/// of the in-memory backend, false of a backend that may report I/O or
/// encoding failures).
pub trait Storage: Sized {
    /// The model of the backend's current contents.
    spec fn st(&self) -> StoreModel;

    /// The backend's internal well-formedness, established by its
    /// constructors and preserved by every operation.
    spec fn wf(&self) -> bool;

    /// Whether every operation of this backend is guaranteed to return `Ok`.
    spec fn infallible(&self) -> bool;

    /// Returns the present value of `(table, key)`, or `None` when absent.
    fn get(&self, table: &str, key: &str) -> (r: Result<Option<Value>, KvError>)
        requires
            self.wf(),
        ensures
            r matches Ok(ov) ==> match ov {
                Some(v) => store_get(self.st(), table@, key@) == Some(v@),
                None => store_get(self.st(), table@, key@) is None,
            },
            self.infallible() ==> r is Ok,
    ;

    /// Inserts or overwrites `(table, key)`; returns the previous value if
    /// any.
    fn set(&mut self, table: &str, key: String, value: Value) -> (r: Result<
        Option<Value>,
        KvError,
    >)
        requires
            old(self).wf(),
        ensures
            final(self).wf(),
            r matches Ok(prev) ==> {
                &&& final(self).st() == store_set(old(self).st(), table@, key@, value@)
                &&& match prev {
                    Some(p) => store_get(old(self).st(), table@, key@) == Some(p@),
                    None => store_get(old(self).st(), table@, key@) is None,
                }
            },
            r is Err ==> final(self).st() == old(self).st(),
            final(self).infallible() == old(self).infallible(),
            old(self).infallible() ==> r is Ok,
    ;

    /// Whether `(table, key)` is present.
    fn contains(&self, table: &str, key: &str) -> (r: Result<bool, KvError>)
        requires
            self.wf(),
        ensures
            r matches Ok(b) ==> b == (store_get(self.st(), table@, key@) is Some),
            self.infallible() ==> r is Ok,
    ;

    /// Removes `(table, key)`; returns the previous value if any.
    fn del(&mut self, table: &str, key: &str) -> (r: Result<Option<Value>, KvError>)
        requires
            old(self).wf(),
        ensures
            final(self).wf(),
            r matches Ok(prev) ==> {
                &&& final(self).st() == store_del(old(self).st(), table@, key@)
                &&& match prev {
                    Some(p) => store_get(old(self).st(), table@, key@) == Some(p@),
                    None => store_get(old(self).st(), table@, key@) is None,
                }
            },
            r is Err ==> final(self).st() == old(self).st(),
            final(self).infallible() == old(self).infallible(),
            old(self).infallible() ==> r is Ok,
    ;

    /// A snapshot of all pairs of `table`; every pair of the table appears
    /// exactly once, in backend-defined order.
    fn get_all(&self, table: &str) -> (r: Result<Vec<Kvpair>, KvError>)
        requires
            self.wf(),
        ensures
            r matches Ok(ps) ==> {
                &&& forall|i: int|
                    0 <= i < ps@.len() ==> store_get(self.st(), table@, (#[trigger] ps@[i])@.key)
                        == Some(ps@[i]@.value)
                &&& forall|k: Seq<char>|
                    store_get(self.st(), table@, k) is Some ==> exists|i: int|
                        0 <= i < ps@.len() && (#[trigger] ps@[i])@.key == k
                &&& forall|i: int, j: int|
                    0 <= i < j < ps@.len() ==> (#[trigger] ps@[i])@.key != (#[trigger] ps@[j])@.key
            },
            self.infallible() ==> r is Ok,
    ;
}

/// One stored entry of the in-memory backend.
pub struct MemEntry {
    key: String,
    val: Value,
}

/// One table of the in-memory backend.
pub struct MemTableEntry {
    name: String,
    entries: Vec<MemEntry>,
}

/// The in-memory storage backend: tables of key-value pairs kept in
/// insertion order, every operation infallible.
pub struct MemTable {
    tables: Vec<MemTableEntry>,
}

/// Keys are pairwise distinct.
spec fn entries_distinct(es: Seq<MemEntry>) -> bool {
    forall|i: int, j: int| 0 <= i < j < es.len() ==> (#[trigger] es[i]).key@ != (#[trigger] es[j]).key@
}

/// Table names are pairwise distinct.
spec fn tables_distinct(ts: Seq<MemTableEntry>) -> bool {
    forall|i: int, j: int| 0 <= i < j < ts.len() ==> (#[trigger] ts[i]).name@ != (#[trigger] ts[j]).name@
}

/// The model of one in-memory table.
spec fn entries_model(es: Seq<MemEntry>) -> TableModel
    decreases es.len(),
{
    if es.len() == 0 {
        Map::<Seq<char>, Option<Vv>>::empty()
    } else {
        entries_model(es.drop_last()).insert(es.last().key@, es.last().val@)
    }
}

/// The model of the whole in-memory backend.
spec fn tables_model(ts: Seq<MemTableEntry>) -> StoreModel
    decreases ts.len(),
{
    if ts.len() == 0 {
        Map::<Seq<char>, TableModel>::empty()
    } else {
        tables_model(ts.drop_last()).insert(ts.last().name@, entries_model(ts.last().entries@))
    }
}

proof fn lemma_entries_absent(es: Seq<MemEntry>, k: Seq<char>)
    requires
        forall|i: int| 0 <= i < es.len() ==> (#[trigger] es[i]).key@ != k,
    ensures
        !entries_model(es).contains_key(k),
    decreases es.len(),
{
    if es.len() > 0 {
        lemma_entries_absent(es.drop_last(), k);
    }
}

proof fn lemma_entries_present(es: Seq<MemEntry>, i: int)
    requires
        entries_distinct(es),
        0 <= i < es.len(),
    ensures
        entries_model(es).contains_key(es[i].key@),
        entries_model(es)[es[i].key@] == es[i].val@,
    decreases es.len(),
{
    if i < es.len() - 1 {
        assert(entries_distinct(es.drop_last()));
        lemma_entries_present(es.drop_last(), i);
    }
}

proof fn lemma_entries_contains(es: Seq<MemEntry>, k: Seq<char>)
    requires
        entries_model(es).contains_key(k),
    ensures
        exists|i: int| 0 <= i < es.len() && (#[trigger] es[i]).key@ == k,
    decreases es.len(),
{
    if es.len() > 0 {
        if es.last().key@ == k {
            assert(es[es.len() - 1].key@ == k);
        } else {
            lemma_entries_contains(es.drop_last(), k);
        }
    }
}

proof fn lemma_entries_push(es: Seq<MemEntry>, e: MemEntry)
    ensures
        entries_model(es.push(e)) == entries_model(es).insert(e.key@, e.val@),
{
    assert(es.push(e).drop_last() =~= es);
    assert(es.push(e).last() == e);
}

proof fn lemma_entries_update(es: Seq<MemEntry>, i: int, e: MemEntry)
    requires
        entries_distinct(es),
        0 <= i < es.len(),
        e.key@ == es[i].key@,
    ensures
        entries_model(es.update(i, e)) =~= entries_model(es).insert(e.key@, e.val@),
        entries_distinct(es.update(i, e)),
    decreases es.len(),
{
    let es2 = es.update(i, e);
    assert(entries_distinct(es2));
    if i == es.len() - 1 {
        assert(es2.drop_last() =~= es.drop_last());
        assert(es2.last() == e);
    } else {
        assert(es2.drop_last() =~= es.drop_last().update(i, e));
        assert(es2.last() == es.last());
        assert(entries_distinct(es.drop_last()));
        lemma_entries_update(es.drop_last(), i, e);
        assert(es.last().key@ != e.key@);
        assert(entries_model(es.drop_last()).insert(e.key@, e.val@).insert(
            es.last().key@,
            es.last().val@,
        ) =~= entries_model(es.drop_last()).insert(es.last().key@, es.last().val@).insert(
            e.key@,
            e.val@,
        ));
    }
}

proof fn lemma_entries_remove(es: Seq<MemEntry>, i: int)
    requires
        entries_distinct(es),
        0 <= i < es.len(),
    ensures
        entries_model(es.remove(i)) =~= entries_model(es).remove(es[i].key@),
        entries_distinct(es.remove(i)),
    decreases es.len(),
{
    let k = es[i].key@;
    let es2 = es.remove(i);
    assert(entries_distinct(es2)) by {
        assert forall|a: int, b: int| 0 <= a < b < es2.len() implies (#[trigger] es2[a]).key@ != (
        #[trigger] es2[b]).key@ by {
            let a0 = if a < i {
                a
            } else {
                a + 1
            };
            let b0 = if b < i {
                b
            } else {
                b + 1
            };
            assert(es2[a] == es[a0]);
            assert(es2[b] == es[b0]);
        }
    }
    if i == es.len() - 1 {
        assert(es2 =~= es.drop_last());
        assert forall|j: int| 0 <= j < es.drop_last().len() implies (
        #[trigger] es.drop_last()[j]).key@ != k by {
            assert(es.drop_last()[j] == es[j]);
        }
        lemma_entries_absent(es.drop_last(), k);
    } else {
        assert(es2.drop_last() =~= es.drop_last().remove(i));
        assert(es2.last() == es.last());
        assert(entries_distinct(es.drop_last()));
        lemma_entries_remove(es.drop_last(), i);
        assert(es.last().key@ != k);
        assert(entries_model(es.drop_last()).remove(k).insert(es.last().key@, es.last().val@)
            =~= entries_model(es.drop_last()).insert(es.last().key@, es.last().val@).remove(k));
    }
}

proof fn lemma_tables_absent(ts: Seq<MemTableEntry>, t: Seq<char>)
    requires
        forall|i: int| 0 <= i < ts.len() ==> (#[trigger] ts[i]).name@ != t,
    ensures
        !tables_model(ts).contains_key(t),
    decreases ts.len(),
{
    if ts.len() > 0 {
        lemma_tables_absent(ts.drop_last(), t);
    }
}

proof fn lemma_tables_present(ts: Seq<MemTableEntry>, i: int)
    requires
        tables_distinct(ts),
        0 <= i < ts.len(),
    ensures
        tables_model(ts).contains_key(ts[i].name@),
        tables_model(ts)[ts[i].name@] == entries_model(ts[i].entries@),
    decreases ts.len(),
{
    if i < ts.len() - 1 {
        assert(tables_distinct(ts.drop_last()));
        lemma_tables_present(ts.drop_last(), i);
    }
}

proof fn lemma_tables_push(ts: Seq<MemTableEntry>, te: MemTableEntry)
    ensures
        tables_model(ts.push(te)) == tables_model(ts).insert(te.name@, entries_model(te.entries@)),
{
    assert(ts.push(te).drop_last() =~= ts);
    assert(ts.push(te).last() == te);
}

proof fn lemma_tables_update(ts: Seq<MemTableEntry>, i: int, te: MemTableEntry)
    requires
        tables_distinct(ts),
        0 <= i < ts.len(),
        te.name@ == ts[i].name@,
    ensures
        tables_model(ts.update(i, te)) =~= tables_model(ts).insert(
            te.name@,
            entries_model(te.entries@),
        ),
        tables_distinct(ts.update(i, te)),
    decreases ts.len(),
{
    let ts2 = ts.update(i, te);
    assert(tables_distinct(ts2));
    if i == ts.len() - 1 {
        assert(ts2.drop_last() =~= ts.drop_last());
        assert(ts2.last() == te);
    } else {
        assert(ts2.drop_last() =~= ts.drop_last().update(i, te));
        assert(ts2.last() == ts.last());
        assert(tables_distinct(ts.drop_last()));
        lemma_tables_update(ts.drop_last(), i, te);
        assert(ts.last().name@ != te.name@);
        assert(tables_model(ts.drop_last()).insert(te.name@, entries_model(te.entries@)).insert(
            ts.last().name@,
            entries_model(ts.last().entries@),
        ) =~= tables_model(ts.drop_last()).insert(
            ts.last().name@,
            entries_model(ts.last().entries@),
        ).insert(te.name@, entries_model(te.entries@)));
    }
}

/// Finds the index of `table` in `tables`.
fn find_table(tables: &Vec<MemTableEntry>, table: &str) -> (r: Option<usize>)
    ensures
        match r {
            Some(i) => i < tables@.len() && tables@[i as int].name@ == table@,
            None => forall|i: int| 0 <= i < tables@.len() ==> (#[trigger] tables@[i]).name@
                != table@,
        },
{
    let mut i: usize = 0;
    while i < tables.len()
        invariant
            0 <= i <= tables@.len(),
            forall|j: int| 0 <= j < i as int ==> (#[trigger] tables@[j]).name@ != table@,
        decreases tables@.len() - i,
    {
        if str_eq_string(table, &tables[i].name) {
            return Some(i);
        }
        i = i + 1;
    }
    None
}

/// Finds the index of `key` in `entries`.
fn find_entry(entries: &Vec<MemEntry>, key: &str) -> (r: Option<usize>)
    ensures
        match r {
            Some(i) => i < entries@.len() && entries@[i as int].key@ == key@,
            None => forall|i: int| 0 <= i < entries@.len() ==> (#[trigger] entries@[i]).key@
                != key@,
        },
{
    let mut i: usize = 0;
    while i < entries.len()
        invariant
            0 <= i <= entries@.len(),
            forall|j: int| 0 <= j < i as int ==> (#[trigger] entries@[j]).key@ != key@,
        decreases entries@.len() - i,
    {
        if str_eq_string(key, &entries[i].key) {
            return Some(i);
        }
        i = i + 1;
    }
    None
}

impl MemTable {
    /// Creates an empty in-memory backend.
    pub fn new() -> (r: Self)
        ensures
            r.wf(),
            r.st() == Map::<Seq<char>, TableModel>::empty(),
            r.infallible(),
    {
        MemTable { tables: Vec::new() }
    }
}

impl Default for MemTable {
    /// An empty in-memory backend.
    fn default() -> (r: Self)
        ensures
            r.wf(),
            r.st() == Map::<Seq<char>, TableModel>::empty(),
            r.infallible(),
    {
        MemTable::new()
    }
}

impl Storage for MemTable {
    closed spec fn st(&self) -> StoreModel {
        tables_model(self.tables@)
    }

    closed spec fn wf(&self) -> bool {
        &&& tables_distinct(self.tables@)
        &&& forall|i: int|
            0 <= i < self.tables@.len() ==> entries_distinct((#[trigger] self.tables@[i]).entries@)
    }

    closed spec fn infallible(&self) -> bool {
        true
    }

    fn get(&self, table: &str, key: &str) -> (r: Result<Option<Value>, KvError>) {
        match find_table(&self.tables, table) {
            Some(ti) => {
                proof {
                    lemma_tables_present(self.tables@, ti as int);
                }
                match find_entry(&self.tables[ti].entries, key) {
                    Some(ei) => {
                        proof {
                            lemma_entries_present(self.tables@[ti as int].entries@, ei as int);
                        }
                        Ok(Some(self.tables[ti].entries[ei].val.clone()))
                    },
                    None => {
                        proof {
                            lemma_entries_absent(self.tables@[ti as int].entries@, key@);
                        }
                        Ok(None)
                    },
                }
            },
            None => {
                proof {
                    lemma_tables_absent(self.tables@, table@);
                }
                Ok(None)
            },
        }
    }

    fn set(&mut self, table: &str, key: String, value: Value) -> (r: Result<
        Option<Value>,
        KvError,
    >) {
        let ghost m0 = self.st();
        let ghost kv = key@;
        let ghost vv = value@;
        match find_table(&self.tables, table) {
            Some(ti) => {
                proof {
                    lemma_tables_present(self.tables@, ti as int);
                }
                let mut te = self.tables.remove(ti);
                let ghost te0 = te;
                let r = match find_entry(&te.entries, key.as_str()) {
                    Some(ei) => {
                        proof {
                            lemma_entries_present(te.entries@, ei as int);
                        }
                        let prev = te.entries[ei].val.clone();
                        te.entries[ei] = MemEntry { key, val: value };
                        proof {
                            lemma_entries_update(te0.entries@, ei as int, te.entries@[ei as int]);
                        }
                        Ok(Some(prev))
                    },
                    None => {
                        proof {
                            lemma_entries_absent(te.entries@, kv);
                        }
                        te.entries.push(MemEntry { key, val: value });
                        proof {
                            lemma_entries_push(te0.entries@, te.entries@.last());
                            assert(te.entries@ =~= te0.entries@.push(te.entries@.last()));
                        }
                        Ok(None)
                    },
                };
                proof {
                    assert(entries_model(te.entries@) =~= entries_model(te0.entries@).insert(
                        kv,
                        vv,
                    ));
                }
                let ghost te1 = te;
                self.tables.insert(ti, te);
                proof {
                    assert(self.tables@ =~= old(self).tables@.update(ti as int, te1));
                    lemma_tables_update(old(self).tables@, ti as int, te1);
                    assert(self.st() =~= store_set(m0, table@, kv, vv));
                }
                r
            },
            None => {
                proof {
                    lemma_tables_absent(self.tables@, table@);
                }
                let mut entries: Vec<MemEntry> = Vec::new();
                entries.push(MemEntry { key, val: value });
                proof {
                    lemma_entries_push(Seq::<MemEntry>::empty(), entries@.last());
                    assert(entries@ =~= Seq::<MemEntry>::empty().push(entries@.last()));
                }
                let name = crate::strutil::str_to_string(table);
                let te = MemTableEntry { name, entries };
                let ghost te1 = te;
                self.tables.push(te);
                proof {
                    assert(self.tables@ =~= old(self).tables@.push(te1));
                    lemma_tables_push(old(self).tables@, te1);
                    assert(entries_model(te1.entries@) =~= Map::<Seq<char>, Option<Vv>>::empty()
                        .insert(kv, vv));
                    assert(self.st() =~= store_set(m0, table@, kv, vv));
                }
                Ok(None)
            },
        }
    }

    fn contains(&self, table: &str, key: &str) -> (r: Result<bool, KvError>) {
        match find_table(&self.tables, table) {
            Some(ti) => {
                proof {
                    lemma_tables_present(self.tables@, ti as int);
                }
                match find_entry(&self.tables[ti].entries, key) {
                    Some(ei) => {
                        proof {
                            lemma_entries_present(self.tables@[ti as int].entries@, ei as int);
                        }
                        Ok(true)
                    },
                    None => {
                        proof {
                            lemma_entries_absent(self.tables@[ti as int].entries@, key@);
                        }
                        Ok(false)
                    },
                }
            },
            None => {
                proof {
                    lemma_tables_absent(self.tables@, table@);
                }
                Ok(false)
            },
        }
    }

    fn del(&mut self, table: &str, key: &str) -> (r: Result<Option<Value>, KvError>) {
        let ghost m0 = self.st();
        match find_table(&self.tables, table) {
            Some(ti) => {
                proof {
                    lemma_tables_present(self.tables@, ti as int);
                }
                let mut te = self.tables.remove(ti);
                let ghost te0 = te;
                let r = match find_entry(&te.entries, key) {
                    Some(ei) => {
                        proof {
                            lemma_entries_present(te.entries@, ei as int);
                            lemma_entries_remove(te.entries@, ei as int);
                        }
                        let removed = te.entries.remove(ei);
                        Ok(Some(removed.val))
                    },
                    None => {
                        proof {
                            lemma_entries_absent(te.entries@, key@);
                            assert(entries_model(te.entries@).remove(key@) =~= entries_model(
                                te.entries@,
                            ));
                        }
                        Ok(None)
                    },
                };
                proof {
                    assert(entries_model(te.entries@) =~= entries_model(te0.entries@).remove(
                        key@,
                    ));
                }
                let ghost te1 = te;
                self.tables.insert(ti, te);
                proof {
                    assert(self.tables@ =~= old(self).tables@.update(ti as int, te1));
                    lemma_tables_update(old(self).tables@, ti as int, te1);
                    assert(self.st() =~= store_del(m0, table@, key@));
                }
                r
            },
            None => {
                proof {
                    lemma_tables_absent(self.tables@, table@);
                }
                Ok(None)
            },
        }
    }

    fn get_all(&self, table: &str) -> (r: Result<Vec<Kvpair>, KvError>) {
        match find_table(&self.tables, table) {
            Some(ti) => {
                proof {
                    lemma_tables_present(self.tables@, ti as int);
                }
                let mut pairs: Vec<Kvpair> = Vec::new();
                let n = self.tables[ti].entries.len();
                let mut i: usize = 0;
                while i < n
                    invariant
                        self.wf(),
                        ti < self.tables@.len(),
                        self.tables@[ti as int].name@ == table@,
                        tables_model(self.tables@).contains_key(table@),
                        tables_model(self.tables@)[table@] == entries_model(
                            self.tables@[ti as int].entries@,
                        ),
                        n == self.tables@[ti as int].entries@.len(),
                        0 <= i <= n,
                        pairs@.len() == i as int,
                        forall|j: int|
                            0 <= j < i as int ==> (#[trigger] pairs@[j])@.key
                                == self.tables@[ti as int].entries@[j].key@ && pairs@[j]@.value
                                == self.tables@[ti as int].entries@[j].val@,
                    decreases n - i,
                {
                    let e = &self.tables[ti].entries[i];
                    pairs.push(Kvpair::new(e.key.clone(), e.val.clone()));
                    i = i + 1;
                }
                proof {
                    let es = self.tables@[ti as int].entries@;
                    assert forall|j: int|
                        0 <= j < pairs@.len() implies store_get(
                        self.st(),
                        table@,
                        (#[trigger] pairs@[j])@.key,
                    ) == Some(pairs@[j]@.value) by {
                        lemma_entries_present(es, j);
                    }
                    assert forall|k: Seq<char>|
                        store_get(self.st(), table@, k) is Some implies exists|j: int|
                        0 <= j < pairs@.len() && (#[trigger] pairs@[j])@.key == k by {
                        lemma_entries_contains(es, k);
                        let j = choose|j: int| 0 <= j < es.len() && (#[trigger] es[j]).key@ == k;
                        assert(pairs@[j]@.key == k);
                    }
                }
                Ok(pairs)
            },
            None => {
                proof {
                    lemma_tables_absent(self.tables@, table@);
                }
                Ok(Vec::new())
            },
        }
    }
}

/// The index of the first `:` in `s` at or after `from`, or the length when
/// there is none.
pub open spec fn spec_find_colon(s: Seq<char>, from: int) -> int
    decreases s.len() - from when 0 <= from <= s.len()
{
    if from < 0 || from >= s.len() {
        s.len() as int
    } else if s[from] == ':' {
        from
    } else {
        spec_find_colon(s, from + 1)
    }
}

proof fn lemma_find_colon_range(s: Seq<char>, from: int)
    requires
        0 <= from <= s.len(),
    ensures
        from <= spec_find_colon(s, from) <= s.len(),
        spec_find_colon(s, from) < s.len() ==> s[spec_find_colon(s, from)] == ':',
    decreases s.len() - from,
{
    if from < s.len() && s[from] != ':' {
        lemma_find_colon_range(s, from + 1);
    }
}

/// The logical key a stored full key decodes to, under the `table:key`
/// namespacing rule: the run of characters between the first `:` and the
/// next `:` or the end.  `None` when the bytes are not UTF-8 or hold no `:`.
pub open spec fn spec_ivec_key(b: Seq<u8>) -> Option<Seq<char>> {
    if !valid_utf8(b) {
        None
    } else {
        let s = decode_utf8(b);
        let i = spec_find_colon(s, 0);
        if i == s.len() {
            None
        } else {
            Some(s.subrange(i + 1, spec_find_colon(s, i + 1)))
        }
    }
}

fn find_colon(s: &str, n: usize, from: usize) -> (r: usize)
    requires
        n == s@.len(),
        from <= n,
    ensures
        r == spec_find_colon(s@, from as int),
{
    let mut i = from;
    while i < n
        invariant
            n == s@.len(),
            from <= i <= n,
            spec_find_colon(s@, from as int) == spec_find_colon(s@, i as int),
        decreases n - i,
    {
        if s.get_char(i) == ':' {
            return i;
        }
        i = i + 1;
    }
    i
}

/// Recovers the logical key of a full key the on-disk backend stored under
/// the `table:key` rule.  Like the composition itself, this truncates at the
/// next `:`, so logical keys containing `:` do not survive the round trip;
/// the scheme concerns only the flat-namespace backend, and the in-memory
/// backend accepts any key.
pub fn ivec_to_key(ivec: &[u8]) -> (r: Option<String>)
    ensures
        match r {
            Some(k) => spec_ivec_key(ivec@) == Some(k@),
            None => spec_ivec_key(ivec@) is None,
        },
{
    let bytes = vstd::slice::slice_to_vec(ivec);
    let s = match crate::frame::string_from_utf8(bytes) {
        Some(s) => s,
        None => {
            return None;
        },
    };
    let n = s.as_str().unicode_len();
    let i = find_colon(s.as_str(), n, 0);
    proof {
        lemma_find_colon_range(s@, 0);
    }
    if i == n {
        return None;
    }
    proof {
        lemma_find_colon_range(s@, i as int + 1);
    }
    let j = find_colon(s.as_str(), n, i + 1);
    let sub = s.as_str().substring_char(i + 1, j);
    Some(crate::strutil::str_to_string(sub))
}

} // verus!
