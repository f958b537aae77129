//! The persistent key-value store and the transaction-scoped overlay.
//!
//! A [`Store`] is a sequence of tables (namespaces), each a key-value
//! map.  An [`Overlay`] stages one transaction's writes in a log over a
//! base store: reads observe the base merged with the staged writes,
//! writes land only in the log.  The log can be rolled back to a
//! checkpoint (one call's contribution), discarded wholesale (the
//! transaction failed), or committed to the base (every call passed).

use vstd::prelude::*;

use crate::types::bytes_eq;

verus! {

/// One key-value pair of a table.
#[derive(Debug, Clone, PartialEq)]
pub struct Entry {
    pub key: Vec<u8>,
    pub value: Vec<u8>,
}

/// One namespace of the store.
#[derive(Debug, Clone, PartialEq)]
pub struct Table {
    pub entries: Vec<Entry>,
}

/// The persistent store: an indexed sequence of tables.
#[derive(Debug, Clone, PartialEq)]
pub struct Store {
    pub tables: Vec<Table>,
}

/// One staged write of an overlay.
#[derive(Debug, Clone, PartialEq)]
pub struct StagedWrite {
    pub table: usize,
    pub key: Vec<u8>,
    pub value: Vec<u8>,
}

/// A transaction's staged view over a base store.
#[derive(Debug, Clone, PartialEq)]
pub struct Overlay {
    pub base: Store,
    pub log: Vec<StagedWrite>,
}

/// The map a list of entries denotes: later entries win.
pub open spec fn entries_view(es: Seq<Entry>) -> Map<Seq<u8>, Seq<u8>>
    decreases es.len(),
{
    if es.len() == 0 {
        Map::empty()
    } else {
        entries_view(es.drop_last()).insert(es.last().key@, es.last().value@)
    }
}

/// The map a table denotes.
pub open spec fn table_view(t: Table) -> Map<Seq<u8>, Seq<u8>> {
    entries_view(t.entries@)
}

/// The maps a store denotes, one per table.
pub open spec fn store_view(s: Store) -> Seq<Map<Seq<u8>, Seq<u8>>> {
    s.tables@.map_values(|t: Table| table_view(t))
}

/// The maps after staging a write log over base maps, in order; a write
/// to a table that does not exist changes nothing.
pub open spec fn apply_log(
    base: Seq<Map<Seq<u8>, Seq<u8>>>,
    log: Seq<StagedWrite>,
) -> Seq<Map<Seq<u8>, Seq<u8>>>
    decreases log.len(),
{
    if log.len() == 0 {
        base
    } else {
        let prev = apply_log(base, log.drop_last());
        let w = log.last();
        if w.table < prev.len() {
            prev.update(w.table as int, prev[w.table as int].insert(w.key@, w.value@))
        } else {
            prev
        }
    }
}

/// The maps an overlay denotes: its staged writes over its base.
pub open spec fn overlay_view(o: Overlay) -> Seq<Map<Seq<u8>, Seq<u8>>> {
    apply_log(store_view(o.base), o.log@)
}

/// Staging writes never adds or removes tables.
pub proof fn lemma_apply_log_len(base: Seq<Map<Seq<u8>, Seq<u8>>>, log: Seq<StagedWrite>)
    ensures
        apply_log(base, log).len() == base.len(),
    decreases log.len(),
{
    if log.len() > 0 {
        lemma_apply_log_len(base, log.drop_last());
    }
}

/// If no write at or after position `i` of the log touches `(t, k)`,
/// the staged view at `(t, k)` is the view after only the first `i`
/// writes.
proof fn lemma_apply_log_untouched(
    base: Seq<Map<Seq<u8>, Seq<u8>>>,
    log: Seq<StagedWrite>,
    i: int,
    t: int,
    k: Seq<u8>,
)
    requires
        0 <= i <= log.len(),
        forall|j: int|
            i <= j < log.len() ==> !((#[trigger] log[j].table) == t && log[j].key@ == k),
    ensures
        apply_log(base, log).len() == base.len(),
        0 <= t < base.len() ==> apply_log(base, log)[t].contains_key(k) == apply_log(
            base,
            log.take(i),
        )[t].contains_key(k),
        0 <= t < base.len() && apply_log(base, log)[t].contains_key(k) ==> apply_log(base, log)[t][k]
            == apply_log(base, log.take(i))[t][k],
    decreases log.len() - i,
{
    lemma_apply_log_len(base, log);
    if i == log.len() {
        assert(log.take(i) =~= log);
    } else {
        lemma_apply_log_untouched(base, log, i + 1, t, k);
        lemma_apply_log_len(base, log.take(i));
        lemma_apply_log_len(base, log.take(i + 1));
        assert(log.take(i + 1).drop_last() =~= log.take(i));
        assert(log.take(i + 1).last() == log[i]);
    }
}

impl Table {
    /// A table with no entries.
    pub fn new() -> (r: Table)
        ensures
            table_view(r) == Map::<Seq<u8>, Seq<u8>>::empty(),
    {
        let r = Table { entries: Vec::new() };
        proof {
            assert(table_view(r) =~= Map::<Seq<u8>, Seq<u8>>::empty());
        }
        r
    }

    /// Look `key` up: the value of the latest entry with that key.
    #[verifier::loop_isolation(false)]
    pub fn get(&self, key: &Vec<u8>) -> (r: Option<&Vec<u8>>)
        ensures
            match r {
                Some(v) => table_view(*self).contains_key(key@) && v@ == table_view(*self)[key@],
                None => !table_view(*self).contains_key(key@),
            },
    {
        let n = self.entries.len();
        let mut i: usize = n;
        while i > 0
            invariant
                0 <= i <= n,
                forall|j: int| i <= j < n ==> (#[trigger] self.entries@[j].key@) != key@,
            decreases i,
        {
            let e = vstd::std_specs::vec::vec_index(&self.entries, i - 1);
            if bytes_eq(&e.key, key) {
                proof {
                    lemma_entries_view_suffix(self.entries@, i as int, key@);
                    assert(self.entries@.take(i as int).drop_last() =~= self.entries@.take(
                        i as int - 1,
                    ));
                    assert(self.entries@.take(i as int).last() == self.entries@[i as int - 1]);
                }
                return Some(&e.value);
            }
            i -= 1;
        }
        proof {
            lemma_entries_view_suffix(self.entries@, 0, key@);
            assert(self.entries@.take(0) =~= Seq::<Entry>::empty());
        }
        None
    }

    /// Whether `key` is present.
    pub fn contains_key(&self, key: &Vec<u8>) -> (r: bool)
        ensures
            r == table_view(*self).contains_key(key@),
    {
        match self.get(key) {
            Some(_) => true,
            None => false,
        }
    }

    /// Bind `key` to `value`, replacing any earlier binding.
    pub fn set(&mut self, key: Vec<u8>, value: Vec<u8>)
        ensures
            table_view(*final(self)) == table_view(*old(self)).insert(key@, value@),
    {
        let ghost k = key@;
        let ghost v = value@;
        self.entries.push(Entry { key, value });
        proof {
            assert(self.entries@.drop_last() =~= old(self).entries@);
        }
    }
}

/// If no entry at or after position `i` has key `k`, the table's view
/// at `k` is the view of the first `i` entries.
proof fn lemma_entries_view_suffix(es: Seq<Entry>, i: int, k: Seq<u8>)
    requires
        0 <= i <= es.len(),
        forall|j: int| i <= j < es.len() ==> (#[trigger] es[j].key@) != k,
    ensures
        entries_view(es).contains_key(k) == entries_view(es.take(i)).contains_key(k),
        entries_view(es).contains_key(k) ==> entries_view(es)[k] == entries_view(es.take(i))[k],
    decreases es.len() - i,
{
    if i == es.len() {
        assert(es.take(i) =~= es);
    } else {
        lemma_entries_view_suffix(es, i + 1, k);
        assert(es.take(i + 1).drop_last() =~= es.take(i));
        assert(es.take(i + 1).last() == es[i]);
    }
}

impl Store {
    /// A store with `n` empty tables.
    #[verifier::loop_isolation(false)]
    pub fn new(n: usize) -> (r: Store)
        ensures
            store_view(r).len() == n,
            forall|t: int| 0 <= t < n ==> store_view(r)[t] == Map::<Seq<u8>, Seq<u8>>::empty(),
    {
        let mut tables: Vec<Table> = Vec::new();
        let mut i: usize = 0;
        while i < n
            invariant
                0 <= i <= n,
                tables@.len() == i,
                forall|t: int|
                    0 <= t < i ==> table_view(#[trigger] tables@[t]) == Map::<
                        Seq<u8>,
                        Seq<u8>,
                    >::empty(),
            decreases n - i,
        {
            tables.push(Table::new());
            i += 1;
        }
        Store { tables }
    }

    /// The number of tables.
    pub fn table_count(&self) -> (r: usize)
        ensures
            r == store_view(*self).len(),
    {
        self.tables.len()
    }

    /// Look `key` up in table `t`.
    pub fn get(&self, t: usize, key: &Vec<u8>) -> (r: Option<&Vec<u8>>)
        requires
            t < store_view(*self).len(),
        ensures
            match r {
                Some(v) => store_view(*self)[t as int].contains_key(key@) && v@ == store_view(
                    *self,
                )[t as int][key@],
                None => !store_view(*self)[t as int].contains_key(key@),
            },
    {
        vstd::std_specs::vec::vec_index(&self.tables, t).get(key)
    }

    /// Bind `key` to `value` in table `t`.
    pub fn set(&mut self, t: usize, key: Vec<u8>, value: Vec<u8>)
        requires
            t < store_view(*old(self)).len(),
        ensures
            store_view(*final(self)) == store_view(*old(self)).update(
                t as int,
                store_view(*old(self))[t as int].insert(key@, value@),
            ),
    {
        let tb = table_mut(&mut self.tables, t);
        tb.set(key, value);
        proof {
            assert(store_view(*self) =~= store_view(*old(self)).update(
                t as int,
                store_view(*old(self))[t as int].insert(key@, value@),
            ));
        }
    }
}

/// Exclusive access to one table of a store.
fn table_mut(v: &mut Vec<Table>, i: usize) -> (element: &mut Table)
    requires
        i < old(v).len(),
    ensures
        *element == old(v)@[i as int],
        final(v)@ == old(v)@.update(i as int, *final(element)),
{
    &mut v[i]
}

impl Overlay {
    /// Stage a fresh overlay over a base store.
    pub fn new(base: Store) -> (r: Overlay)
        ensures
            r.base == base,
            r.log@ == Seq::<StagedWrite>::empty(),
            overlay_view(r) == store_view(base),
    {
        Overlay { base, log: Vec::new() }
    }

    /// The number of tables visible through the overlay.
    pub fn table_count(&self) -> (r: usize)
        ensures
            r == overlay_view(*self).len(),
    {
        proof {
            lemma_apply_log_len(store_view(self.base), self.log@);
        }
        self.base.table_count()
    }

    /// Read `key` in table `t`: the staged write wins over the base.
    #[verifier::loop_isolation(false)]
    pub fn get(&self, t: usize, key: &Vec<u8>) -> (r: Option<&Vec<u8>>)
        requires
            t < overlay_view(*self).len(),
        ensures
            match r {
                Some(v) => overlay_view(*self)[t as int].contains_key(key@) && v@ == overlay_view(
                    *self,
                )[t as int][key@],
                None => !overlay_view(*self)[t as int].contains_key(key@),
            },
    {
        proof {
            lemma_apply_log_len(store_view(self.base), self.log@);
        }
        let n = self.log.len();
        let mut i: usize = n;
        while i > 0
            invariant
                0 <= i <= n,
                forall|j: int|
                    i <= j < n ==> !((#[trigger] self.log@[j].table) == t && self.log@[j].key@
                        == key@),
            decreases i,
        {
            let w = vstd::std_specs::vec::vec_index(&self.log, i - 1);
            if w.table == t && bytes_eq(&w.key, key) {
                proof {
                    lemma_apply_log_untouched(store_view(self.base), self.log@, i as int, t as int, key@);
                    lemma_apply_log_len(store_view(self.base), self.log@.take(i as int));
                    assert(self.log@.take(i as int).drop_last() =~= self.log@.take(i as int - 1));
                    assert(self.log@.take(i as int).last() == self.log@[i as int - 1]);
                }
                return Some(&w.value);
            }
            i -= 1;
        }
        proof {
            lemma_apply_log_untouched(store_view(self.base), self.log@, 0, t as int, key@);
            assert(self.log@.take(0) =~= Seq::<StagedWrite>::empty());
        }
        self.base.get(t, key)
    }

    /// Whether `key` is present in table `t`, staged or in the base.
    pub fn contains_key(&self, t: usize, key: &Vec<u8>) -> (r: bool)
        requires
            t < overlay_view(*self).len(),
        ensures
            r == overlay_view(*self)[t as int].contains_key(key@),
    {
        match self.get(t, key) {
            Some(_) => true,
            None => false,
        }
    }

    /// Stage a write of `value` under `key` in table `t`; the base is
    /// untouched.
    pub fn insert(&mut self, t: usize, key: Vec<u8>, value: Vec<u8>)
        requires
            t < overlay_view(*old(self)).len(),
        ensures
            final(self).base == old(self).base,
            final(self).log@ == old(self).log@.push(
                StagedWrite { table: t, key: key, value: value },
            ),
            overlay_view(*final(self)) == overlay_view(*old(self)).update(
                t as int,
                overlay_view(*old(self))[t as int].insert(key@, value@),
            ),
    {
        proof {
            lemma_apply_log_len(store_view(self.base), self.log@);
        }
        let ghost k = key@;
        let ghost v = value@;
        self.log.push(StagedWrite { table: t, key, value });
        proof {
            assert(self.log@.drop_last() =~= old(self).log@);
        }
    }

    /// The current length of the write log; a later
    /// [`Overlay::rollback`] to it discards exactly the writes staged
    /// in between.
    pub fn checkpoint(&self) -> (r: usize)
        ensures
            r == self.log@.len(),
    {
        self.log.len()
    }

    /// Discard every write staged after the checkpoint.
    pub fn rollback(&mut self, cp: usize)
        requires
            cp <= old(self).log@.len(),
        ensures
            final(self).base == old(self).base,
            final(self).log@ == old(self).log@.take(cp as int),
    {
        self.log.truncate(cp);
    }

    /// Discard the whole overlay: the base store comes back unchanged.
    pub fn discard(self) -> (r: Store)
        ensures
            r == self.base,
    {
        self.base
    }

    /// Promote the staged writes into the base store, in order: the
    /// committed store denotes exactly what the overlay denoted.
    #[verifier::loop_isolation(false)]
    pub fn commit(self) -> (r: Store)
        requires
            forall|j: int|
                0 <= j < self.log@.len() ==> (#[trigger] self.log@[j].table) < store_view(
                    self.base,
                ).len(),
        ensures
            store_view(r) == overlay_view(self),
    {
        let Overlay { base, log } = self;
        let mut store = base;
        let mut log = log;
        let mut i: usize = 0;
        let total = log.len();
        proof {
            assert(self.log@.take(0) =~= Seq::<StagedWrite>::empty());
        }
        while log.len() > 0
            invariant
                i + log.len() == total,
                log@ == self.log@.skip(i as int),
                store_view(store) == apply_log(store_view(self.base), self.log@.take(i as int)),
            decreases log.len(),
        {
            let w = log.remove(0);
            proof {
                assert(w == self.log@[i as int]);
                assert(log@ =~= self.log@.skip(i as int + 1));
                lemma_apply_log_len(store_view(self.base), self.log@.take(i as int));
                assert(self.log@.take(i as int + 1).drop_last() =~= self.log@.take(i as int));
                assert(self.log@.take(i as int + 1).last() == self.log@[i as int]);
            }
            store.set(w.table, w.key, w.value);
            i += 1;
        }
        proof {
            assert(self.log@.take(i as int) =~= self.log@);
        }
        store
    }
}

} // verus!
