//! The `.fico` store: objects by entity and id, kept in memory, written to
//! and read from a FishFile document table.
//!
//! The document's root table maps each entity to a table of its objects,
//! keyed `id_<object id>` (object ids may start with a digit, which a
//! FishFile key may not), each object written by `to_fish_value`.

use vstd::prelude::*;

use crate::assoc::{
    has_key, insert_all, insert_entry, key_pos, keys_unique, lemma_insert_all_unique, lemma_key_pos,
    lookup, remove_entry,
};
use crate::entity::{
    decode_entries, decode_start, fish_entries, law_fish_value_roundtrip, lemma_decode_keeps_entity,
    next_rev, parsed_time, reserved_key, rfc3339_of, ManagedObject, ObjectView, Timestamp,
};
use crate::error::CoreDataError;
use crate::paths::{fico_path, joined};
use crate::text::{begins_with, chars_eq, chars_of, concat, slice_copy, starts_with_chars, string_of};
use crate::value::{table_entries, Table, Val, Value};

verus! {

broadcast use vstd::string::group_string_axioms;

/// The document key of an object id: `id_` then the id.
pub open spec fn encoded_id(id: Seq<char>) -> Seq<char> {
    "id_"@ + id
}

/// The object id of a document key: the key without a leading `id_`.
pub open spec fn decoded_id(key: Seq<char>) -> Seq<char> {
    if begins_with(key, "id_"@) {
        key.skip(3)
    } else {
        key
    }
}

/// The document key of an object id.
pub fn encode_id(id: &str) -> (r: String)
    ensures
        r@ == encoded_id(id@),
{
    concat("id_", id)
}

/// The object id of a document key.
pub fn decode_id(key: &str) -> (r: String)
    ensures
        r@ == decoded_id(key@),
{
    let k = chars_of(key);
    let p = chars_of("id_");
    proof {
        reveal_strlit("id_");
    }
    if starts_with_chars(k.as_slice(), p.as_slice()) {
        let rest = slice_copy(k.as_slice(), 3, k.len());
        assert(rest@ =~= key@.skip(3));
        string_of(rest.as_slice())
    } else {
        key.to_string()
    }
}

/// An object id read back from its document key is the id.
pub proof fn law_id_roundtrip(id: Seq<char>)
    ensures
        decoded_id(encoded_id(id)) == id,
{
    reveal_strlit("id_");
    let k = encoded_id(id);
    assert(k.take(3) =~= "id_"@);
    assert(k.skip(3) =~= id);
}

/// The rows of one entity: document keys with their objects.
pub open spec fn rows_view(rows: Seq<(String, ManagedObject)>) -> Seq<(Seq<char>, ObjectView)> {
    Seq::new(rows.len(), |i: int| (rows[i].0@, rows[i].1@))
}

/// The tables of a store: each entity with its rows.
pub open spec fn tables_view(ts: Seq<(String, Vec<(String, ManagedObject)>)>) -> Seq<
    (Seq<char>, Seq<(Seq<char>, ObjectView)>),
> {
    Seq::new(ts.len(), |i: int| (ts[i].0@, rows_view(ts[i].1@)))
}

/// What a store holds, as mathematics.
pub struct FicoStoreView {
    pub bundle_id: Seq<char>,
    pub path: Seq<char>,
    pub tables: Seq<(Seq<char>, Seq<(Seq<char>, ObjectView)>)>,
    pub loaded: bool,
}

/// The rows of entity `e` (none when it has no table).
pub open spec fn rows_of(
    ts: Seq<(Seq<char>, Seq<(Seq<char>, ObjectView)>)>,
    e: Seq<char>,
) -> Seq<(Seq<char>, ObjectView)> {
    match lookup(ts, e) {
        Some(r) => r,
        None => Seq::empty(),
    }
}

/// The tables after storing `o` in the table of `e` under key `k`: it
/// replaces the row of that key in place, or is appended (after a new table
/// for `e`, when needed).
pub open spec fn with_row(
    ts: Seq<(Seq<char>, Seq<(Seq<char>, ObjectView)>)>,
    e: Seq<char>,
    k: Seq<char>,
    o: ObjectView,
) -> Seq<(Seq<char>, Seq<(Seq<char>, ObjectView)>)> {
    insert_entry(ts, e, insert_entry(rows_of(ts, e), k, o))
}

/// The tables after storing `o` under its entity and id.
pub open spec fn with_object(ts: Seq<(Seq<char>, Seq<(Seq<char>, ObjectView)>)>, o: ObjectView) -> Seq<
    (Seq<char>, Seq<(Seq<char>, ObjectView)>),
> {
    with_row(ts, o.entity, o.object_id, o)
}

/// The tables with a table for `e` (appended, empty, when missing).
pub open spec fn with_table(ts: Seq<(Seq<char>, Seq<(Seq<char>, ObjectView)>)>, e: Seq<char>) -> Seq<
    (Seq<char>, Seq<(Seq<char>, ObjectView)>),
> {
    if has_key(ts, e) {
        ts
    } else {
        ts.push((e, Seq::empty()))
    }
}

/// The objects of some rows that are not deleted, in order.
pub open spec fn live_objects(rows: Seq<(Seq<char>, ObjectView)>) -> Seq<ObjectView>
    decreases rows.len(),
{
    if rows.len() == 0 {
        Seq::empty()
    } else if rows.last().1.deleted {
        live_objects(rows.drop_last())
    } else {
        live_objects(rows.drop_last()).push(rows.last().1)
    }
}

/// Position of the first table holding a row with key `id`, or -1.
pub open spec fn table_with_id(ts: Seq<(Seq<char>, Seq<(Seq<char>, ObjectView)>)>, id: Seq<char>) -> int
    decreases ts.len(),
{
    if ts.len() == 0 {
        -1
    } else if table_with_id(ts.drop_last(), id) >= 0 {
        table_with_id(ts.drop_last(), id)
    } else if has_key(ts.last().1, id) {
        ts.len() - 1
    } else {
        -1
    }
}

/// An object marked deleted: the marker set, the revision bumped, the time
/// given.
pub open spec fn tombstone(o: ObjectView, t: Timestamp) -> ObjectView {
    ObjectView { deleted: true, rev: next_rev(o.rev), updated_at: t, ..o }
}

/// The tables after marking the row with key `id` in table `ti` deleted at time `t`.
pub open spec fn with_tombstone(
    ts: Seq<(Seq<char>, Seq<(Seq<char>, ObjectView)>)>,
    ti: int,
    id: Seq<char>,
    t: Timestamp,
) -> Seq<(Seq<char>, Seq<(Seq<char>, ObjectView)>)> {
    let rows = ts[ti].1;
    let p = key_pos(rows, id);
    ts.update(ti, (ts[ti].0, rows.update(p, (id, tombstone(rows[p].1, t)))))
}

/// The store: per entity, per document key, an object; each entity has at
/// most one table, each key at most one row in it, and every object sits
/// in the table of its entity.
pub struct FicoStore {
    bundle_id: String,
    path: String,
    tables: Vec<(String, Vec<(String, ManagedObject)>)>,
    loaded: bool,
}

/// Whether tables are well formed: unique entities, unique keys per
/// entity, every object in its entity's table.
pub open spec fn tables_wf(ts: Seq<(Seq<char>, Seq<(Seq<char>, ObjectView)>)>) -> bool {
    &&& keys_unique(ts)
    &&& forall|t: int| 0 <= t < ts.len() ==> keys_unique(#[trigger] ts[t].1)
    &&& forall|t: int, r: int|
        0 <= t < ts.len() && 0 <= r < ts[t].1.len() ==> (#[trigger] ts[t].1[r]).1.entity == ts[t].0
}

impl View for FicoStore {
    type V = FicoStoreView;

    closed spec fn view(&self) -> FicoStoreView {
        FicoStoreView {
            bundle_id: self.bundle_id@,
            path: self.path@,
            tables: tables_view(self.tables@),
            loaded: self.loaded,
        }
    }
}

/// Position of the table of entity `e`, or `None`.
fn find_table(ts: &Vec<(String, Vec<(String, ManagedObject)>)>, e: &str) -> (r: Option<usize>)
    ensures
        match r {
            Some(i) => i < ts@.len() && key_pos(tables_view(ts@), e@) == i,
            None => !has_key(tables_view(ts@), e@),
        },
{
    let ghost tv = tables_view(ts@);
    proof {
        lemma_key_pos(tv, e@);
    }
    let ec = chars_of(e);
    let mut i: usize = 0;
    while i < ts.len()
        invariant
            tv == tables_view(ts@),
            -1 <= key_pos(tv, e@) < tv.len(),
            key_pos(tv, e@) >= 0 ==> tv[key_pos(tv, e@)].0 == e@,
            forall|j: int| 0 <= j < tv.len() && (key_pos(tv, e@) < 0 || j < key_pos(tv, e@)) ==> tv[j].0 != e@,
            ec@ == e@,
            i <= ts@.len(),
            forall|j: int| 0 <= j < i ==> tv[j].0 != e@,
        decreases ts@.len() - i,
    {
        let nc = chars_of(ts[i].0.as_str());
        if chars_eq(nc.as_slice(), ec.as_slice()) {
            assert(tv[i as int].0 == e@);
            return Some(i);
        }
        i = i + 1;
    }
    None
}

/// Position of the row with key `id`, or `None`.
fn find_row(rows: &Vec<(String, ManagedObject)>, id: &str) -> (r: Option<usize>)
    ensures
        match r {
            Some(i) => i < rows@.len() && key_pos(rows_view(rows@), id@) == i,
            None => !has_key(rows_view(rows@), id@),
        },
{
    let ghost rv = rows_view(rows@);
    proof {
        lemma_key_pos(rv, id@);
    }
    let ic = chars_of(id);
    let mut i: usize = 0;
    while i < rows.len()
        invariant
            rv == rows_view(rows@),
            -1 <= key_pos(rv, id@) < rv.len(),
            key_pos(rv, id@) >= 0 ==> rv[key_pos(rv, id@)].0 == id@,
            forall|j: int| 0 <= j < rv.len() && (key_pos(rv, id@) < 0 || j < key_pos(rv, id@)) ==> rv[j].0 != id@,
            ic@ == id@,
            i <= rows@.len(),
            forall|j: int| 0 <= j < i ==> rv[j].0 != id@,
        decreases rows@.len() - i,
    {
        let kc = chars_of(rows[i].0.as_str());
        if chars_eq(kc.as_slice(), ic.as_slice()) {
            assert(rv[i as int].0 == id@);
            return Some(i);
        }
        i = i + 1;
    }
    None
}

impl FicoStore {
    /// Whether the store is well formed (see `tables_wf`).
    pub open spec fn wf(&self) -> bool {
        tables_wf(self@.tables)
    }

    /// An empty, not yet loaded store for `bundle_id` kept at `path`.
    pub fn with_path(bundle_id: &str, path: &str) -> (r: FicoStore)
        ensures
            r.wf(),
            r@ == (FicoStoreView {
                bundle_id: bundle_id@,
                path: path@,
                tables: Seq::empty(),
                loaded: false,
            }),
    {
        let r = FicoStore {
            bundle_id: bundle_id.to_string(),
            path: path.to_string(),
            tables: Vec::new(),
            loaded: false,
        };
        assert(r@.tables =~= Seq::<(Seq<char>, Seq<(Seq<char>, ObjectView)>)>::empty());
        r
    }

    /// The bundle the store belongs to.
    pub fn bundle_id(&self) -> (r: &str)
        ensures
            r@ == self@.bundle_id,
    {
        self.bundle_id.as_str()
    }

    /// Where the store is kept.
    pub fn path(&self) -> (r: &str)
        ensures
            r@ == self@.path,
    {
        self.path.as_str()
    }

    /// Whether the store has been loaded.
    pub fn is_loaded(&self) -> (r: bool)
        ensures
            r == self@.loaded,
    {
        self.loaded
    }
}

/// Storing an object in the table of its entity keeps the tables well formed.
pub proof fn lemma_with_row_wf(
    ts: Seq<(Seq<char>, Seq<(Seq<char>, ObjectView)>)>,
    e: Seq<char>,
    k: Seq<char>,
    o: ObjectView,
)
    requires
        tables_wf(ts),
        o.entity == e,
    ensures
        tables_wf(with_row(ts, e, k, o)),
{
    lemma_key_pos(ts, e);
    let rows = rows_of(ts, e);
    assert(keys_unique(rows)) by {
        if has_key(ts, e) {
            assert(rows == ts[key_pos(ts, e)].1);
        }
    }
    crate::assoc::lemma_insert_unique(rows, k, o);
    let rows2 = insert_entry(rows, k, o);
    crate::assoc::lemma_insert_unique(ts, e, rows2);
    let ts2 = with_row(ts, e, k, o);
    lemma_key_pos(rows, k);
    assert forall|r: int| 0 <= r < rows2.len() implies (#[trigger] rows2[r]).1.entity == e by {
        if has_key(rows, k) {
            if r != key_pos(rows, k) {
                assert(rows2[r] == rows[r]);
                assert(rows[r] == ts[key_pos(ts, e)].1[r]);
            }
        } else if r < rows.len() {
            assert(rows2[r] == rows[r]);
            assert(rows[r] == ts[key_pos(ts, e)].1[r]);
        }
    }
    assert forall|t: int| 0 <= t < ts2.len() implies keys_unique(#[trigger] ts2[t].1) by {
        if has_key(ts, e) {
            if t != key_pos(ts, e) {
                assert(ts2[t] == ts[t]);
            }
        } else if t < ts.len() {
            assert(ts2[t] == ts[t]);
        }
    }
    assert forall|t: int, r: int|
        0 <= t < ts2.len() && 0 <= r < ts2[t].1.len() implies (#[trigger] ts2[t].1[r]).1.entity == ts2[t].0 by {
        if has_key(ts, e) {
            if t != key_pos(ts, e) {
                assert(ts2[t] == ts[t]);
            } else {
                assert(ts2[t] == (e, rows2));
            }
        } else if t < ts.len() {
            assert(ts2[t] == ts[t]);
        } else {
            assert(ts2[t] == (e, rows2));
        }
    }
}

proof fn lemma_tables_view_set(
    ts: Seq<(String, Vec<(String, ManagedObject)>)>,
    i: int,
    x: (String, Vec<(String, ManagedObject)>),
)
    requires
        0 <= i < ts.len(),
    ensures
        tables_view(ts.update(i, x)) == tables_view(ts).update(i, (x.0@, rows_view(x.1@))),
{
    assert(tables_view(ts.update(i, x)) =~= tables_view(ts).update(i, (x.0@, rows_view(x.1@))));
}

impl FicoStore {
    /// Store `obj` in the table of `e` under key `k` (see `with_row`).
    fn put_row(&mut self, e: String, k: String, obj: ManagedObject)
        requires
            old(self).wf(),
            obj@.entity == e@,
        ensures
            final(self).wf(),
            final(self)@ == (FicoStoreView {
                tables: with_row(old(self)@.tables, e@, k@, obj@),
                ..old(self)@
            }),
    {
        let ghost ov = obj@;
        let ghost tv = self@.tables;
        let ghost ev = e@;
        let ghost kv = k@;
        proof {
            lemma_with_row_wf(tv, ev, kv, ov);
        }
        match find_table(&self.tables, e.as_str()) {
            Some(ti) => {
                let (name, mut rows) = self.tables.remove(ti);
                assert(tv[ti as int] == (name@, rows_view(rows@)));
                proof {
                    lemma_key_pos(tv, ev);
                }
                assert(rows_of(tv, ev) == rows_view(rows@));
                let ghost rv = rows_view(rows@);
                match find_row(&rows, k.as_str()) {
                    Some(ri) => {
                        rows.set(ri, (k, obj));
                        assert(rows_view(rows@) =~= rv.update(ri as int, (kv, ov)));
                    },
                    None => {
                        rows.push((k, obj));
                        assert(rows_view(rows@) =~= rv.push((kv, ov)));
                    },
                }
                assert(rows_view(rows@) == insert_entry(rv, kv, ov));
                let ghost newt = (name, rows);
                self.tables.insert(ti, (name, rows));
                assert(self.tables@ =~= old(self).tables@.update(ti as int, newt));
                proof {
                    lemma_tables_view_set(old(self).tables@, ti as int, newt);
                }
                assert(self@.tables =~= with_row(tv, ev, kv, ov));
            },
            None => {
                let mut rows: Vec<(String, ManagedObject)> = Vec::new();
                rows.push((k, obj));
                assert(rows_view(rows@) =~= seq![(kv, ov)]);
                assert(rows_of(tv, ev) == Seq::<(Seq<char>, ObjectView)>::empty());
                assert(insert_entry(Seq::<(Seq<char>, ObjectView)>::empty(), kv, ov) =~= seq![(kv, ov)]) by {
                    lemma_key_pos(Seq::<(Seq<char>, ObjectView)>::empty(), kv);
                }
                self.tables.push((e, rows));
                assert(self@.tables =~= with_row(tv, ev, kv, ov));
            },
        }
    }

    /// Store `obj` in the table of its entity under its id, replacing an
    /// object with that id there.
    pub fn insert(&mut self, obj: ManagedObject)
        requires
            old(self).wf(),
        ensures
            final(self).wf(),
            final(self)@ == (FicoStoreView {
                tables: with_object(old(self)@.tables, obj@),
                ..old(self)@
            }),
    {
        let e = obj.entity.clone();
        let id = obj.object_id.clone();
        self.put_row(e, id, obj);
    }
}

/// The document rows of an entity: each object that is not deleted, under
/// its encoded key, as `to_fish_value` writes it.
pub open spec fn doc_rows(rows: Seq<(Seq<char>, ObjectView)>) -> Seq<(Seq<char>, Val)>
    decreases rows.len(),
{
    if rows.len() == 0 {
        Seq::empty()
    } else if rows.last().1.deleted {
        doc_rows(rows.drop_last())
    } else {
        doc_rows(rows.drop_last()).push(
            (encoded_id(rows.last().0), Val::Table(fish_entries(rows.last().1))),
        )
    }
}

/// The document entries of the tables: each entity with the table of its
/// document rows (inserted in turn).
pub open spec fn doc_tables(ts: Seq<(Seq<char>, Seq<(Seq<char>, ObjectView)>)>) -> Seq<(Seq<char>, Val)> {
    Seq::new(ts.len(), |i: int| (ts[i].0, Val::Table(insert_all(Seq::empty(), doc_rows(ts[i].1)))))
}

/// The root table of the document a store saves: every entity (deleted
/// objects purged), inserted in turn.
pub open spec fn saved_document(ts: Seq<(Seq<char>, Seq<(Seq<char>, ObjectView)>)>) -> Seq<
    (Seq<char>, Val),
> {
    insert_all(Seq::empty(), doc_tables(ts))
}

/// Reading the object entries of one entity's document table into the
/// tables; `times[j]` is the time an object gets when its entry has none.
pub open spec fn load_objects(
    ts: Seq<(Seq<char>, Seq<(Seq<char>, ObjectView)>)>,
    e: Seq<char>,
    es: Seq<(Seq<char>, Val)>,
    times: Seq<Timestamp>,
) -> Seq<(Seq<char>, Seq<(Seq<char>, ObjectView)>)>
    decreases es.len(),
{
    if es.len() == 0 {
        ts
    } else {
        let prev = load_objects(ts, e, es.drop_last(), times.drop_last());
        let k = decoded_id(es.last().0);
        match es.last().1 {
            Val::Table(oes) => with_row(prev, e, k, decode_entries(oes, decode_start(e, k, times.last()))),
            _ => prev,
        }
    }
}

/// The tables read from a document's root table: each entity whose entry
/// is a table contributes its objects (entries that are no tables are
/// skipped); an entity with no objects gets no table.
pub open spec fn load_entities(root: Seq<(Seq<char>, Val)>, times: Seq<Seq<Timestamp>>) -> Seq<
    (Seq<char>, Seq<(Seq<char>, ObjectView)>),
>
    decreases root.len(),
{
    if root.len() == 0 {
        Seq::empty()
    } else {
        let prev = load_entities(root.drop_last(), times.drop_last());
        match root.last().1 {
            Val::Table(es) => load_objects(prev, root.last().0, es, times.last()),
            _ => prev,
        }
    }
}

impl FicoStore {
    /// The root table of the document to save: per entity, the objects
    /// that are not deleted, keyed `id_<key>`.
    pub fn document(&self) -> (r: Value)
        requires
            self.wf(),
        ensures
            r.view() == Val::Table(saved_document(self@.tables)),
    {
        let ghost tv = self@.tables;
        let mut root = Table::new();
        let mut i: usize = 0;
        assert(doc_tables(tv.take(0)) =~= Seq::<(Seq<char>, Val)>::empty());
        while i < self.tables.len()
            invariant
                tv == self@.tables,
                i <= tv.len(),
                table_entries(root) == insert_all(Seq::empty(), doc_tables(tv.take(i as int))),
            decreases tv.len() - i,
        {
            let rows = &self.tables[i].1;
            let ghost rv = rows_view(rows@);
            assert(tv[i as int].1 == rv);
            let mut et = Table::new();
            let mut j: usize = 0;
            assert(rv.take(0) =~= Seq::<(Seq<char>, ObjectView)>::empty());
            while j < rows.len()
                invariant
                    rv == rows_view(rows@),
                    j <= rv.len(),
                    table_entries(et) == insert_all(Seq::empty(), doc_rows(rv.take(j as int))),
                decreases rv.len() - j,
            {
                assert(rv.take(j + 1).drop_last() =~= rv.take(j as int));
                assert(rv.take(j + 1).last() == rv[j as int]);
                if !rows[j].1.deleted {
                    let key = encode_id(rows[j].0.as_str());
                    let v = rows[j].1.to_fish_value();
                    let ghost before = doc_rows(rv.take(j as int));
                    et.insert(key, v);
                    assert(doc_rows(rv.take(j + 1)) == before.push((encoded_id(rv[j as int].0), Val::Table(fish_entries(rv[j as int].1)))));
                    assert(before.push((encoded_id(rv[j as int].0), Val::Table(fish_entries(rv[j as int].1)))).drop_last() =~= before);
                }
                j = j + 1;
            }
            assert(rv.take(rv.len() as int) =~= rv);
            let ghost dt = doc_tables(tv.take(i as int));
            root.insert(self.tables[i].0.clone(), Value::Table(et));
            assert(doc_tables(tv.take(i + 1)) =~= dt.push((tv[i as int].0, Val::Table(insert_all(Seq::empty(), doc_rows(rv))))));
            assert(doc_tables(tv.take(i + 1)).drop_last() =~= dt);
            i = i + 1;
        }
        assert(tv.take(tv.len() as int) =~= tv);
        Value::Table(root)
    }

    /// Forget every object and count the store as loaded (what loading gives
    /// when there is no file yet).
    pub fn reset(&mut self)
        requires
            old(self).wf(),
        ensures
            final(self).wf(),
            final(self)@ == (FicoStoreView { tables: Seq::empty(), loaded: true, ..old(self)@ }),
    {
        self.tables = Vec::new();
        self.loaded = true;
        assert(self@.tables =~= Seq::<(Seq<char>, Seq<(Seq<char>, ObjectView)>)>::empty());
    }

    /// Replace the objects with those read from a document's root table
    /// (see `load_entities`) and count the store as loaded.
    pub fn install(&mut self, root: &Table)
        requires
            old(self).wf(),
        ensures
            final(self).wf(),
            final(self)@.bundle_id == old(self)@.bundle_id,
            final(self)@.path == old(self)@.path,
            final(self)@.loaded,
            exists|times: Seq<Seq<Timestamp>>|
                final(self)@.tables == #[trigger] load_entities(table_entries(*root), times),
    {
        let ghost rootes = table_entries(*root);
        self.tables = Vec::new();
        assert(self@.tables =~= Seq::<(Seq<char>, Seq<(Seq<char>, ObjectView)>)>::empty());
        let ghost mut times: Seq<Seq<Timestamp>> = Seq::empty();
        let n = root.len();
        let mut i: usize = 0;
        assert(rootes.take(0) =~= Seq::<(Seq<char>, Val)>::empty());
        while i < n
            invariant
                rootes == table_entries(*root),
                n == rootes.len(),
                i <= n,
                self.wf(),
                self@.bundle_id == old(self)@.bundle_id,
                self@.path == old(self)@.path,
                times.len() == i,
                self@.tables == load_entities(rootes.take(i as int), times),
            decreases n - i,
        {
            let (name, v) = root.entry(i);
            assert(rootes.take(i + 1).drop_last() =~= rootes.take(i as int));
            assert(rootes.take(i + 1).last() == rootes[i as int]);
            let ghost mut tin: Seq<Timestamp> = Seq::empty();
            let ghost start_tables = self@.tables;
            match v.as_table() {
                Some(t) => {
                    let ghost es = table_entries(*t);
                    let m = t.len();
                    let mut j: usize = 0;
                    assert(es.take(0) =~= Seq::<(Seq<char>, Val)>::empty());
                    while j < m
                        invariant
                            es == table_entries(*t),
                            m == es.len(),
                            j <= m,
                            self.wf(),
                            self@.bundle_id == old(self)@.bundle_id,
                            self@.path == old(self)@.path,
                            tin.len() == j,
                            self@.tables == load_objects(start_tables, name@, es.take(j as int), tin),
                        decreases m - j,
                    {
                        let (k, ov) = t.entry(j);
                        assert(es.take(j + 1).drop_last() =~= es.take(j as int));
                        assert(es.take(j + 1).last() == es[j as int]);
                        let id = decode_id(k.as_str());
                        match ManagedObject::from_fish_value(name.as_str(), id.as_str(), ov) {
                            Some(obj) => {
                                let ghost oes = ov.view()->Table_0;
                                let ghost t0 = choose|t0: Timestamp|
                                    obj@ == decode_entries(oes, #[trigger] decode_start(name@, id@, t0));
                                proof {
                                    lemma_decode_keeps_entity(oes, decode_start(name@, id@, t0));
                                    let prev = tin;
                                    tin = tin.push(t0);
                                    assert(tin.drop_last() =~= prev);
                                }
                                self.put_row(name.clone(), id, obj);
                            },
                            None => {
                                proof {
                                    let tt: Timestamp = vstd::pervasive::arbitrary();
                                    let prev = tin;
                                    tin = tin.push(tt);
                                    assert(tin.drop_last() =~= prev);
                                }
                            },
                        }
                        j = j + 1;
                    }
                    assert(es.take(m as int) =~= es);
                },
                None => {},
            }
            proof {
                let prev = times;
                times = times.push(tin);
                assert(times.drop_last() =~= prev);
            }
            i = i + 1;
        }
        assert(rootes.take(n as int) =~= rootes);
        self.loaded = true;
    }
}

/// The rows that are not deleted, in order.
pub open spec fn live_rows(rows: Seq<(Seq<char>, ObjectView)>) -> Seq<(Seq<char>, ObjectView)>
    decreases rows.len(),
{
    if rows.len() == 0 {
        Seq::empty()
    } else if rows.last().1.deleted {
        live_rows(rows.drop_last())
    } else {
        live_rows(rows.drop_last()).push(rows.last())
    }
}

/// The rows that `load_objects` reads from an entity's document table, in order.
pub open spec fn decoded_rows(e: Seq<char>, es: Seq<(Seq<char>, Val)>, times: Seq<Timestamp>) -> Seq<
    (Seq<char>, ObjectView),
>
    decreases es.len(),
{
    if es.len() == 0 {
        Seq::empty()
    } else {
        let prev = decoded_rows(e, es.drop_last(), times.drop_last());
        let k = decoded_id(es.last().0);
        match es.last().1 {
            Val::Table(oes) => prev.push((k, decode_entries(oes, decode_start(e, k, times.last())))),
            _ => prev,
        }
    }
}

/// An object survives being written and read back (see
/// `law_fish_value_roundtrip`).
pub open spec fn storable(o: ObjectView) -> bool {
    &&& keys_unique(o.values)
    &&& forall|i: int| 0 <= i < o.values.len() ==> !reserved_key(#[trigger] o.values[i].0)
    &&& parsed_time(rfc3339_of(o.updated_at)) == Some(o.updated_at)
}

proof fn lemma_load_objects(
    ts: Seq<(Seq<char>, Seq<(Seq<char>, ObjectView)>)>,
    e: Seq<char>,
    es: Seq<(Seq<char>, Val)>,
    times: Seq<Timestamp>,
)
    ensures
        rows_of(load_objects(ts, e, es, times), e) == insert_all(rows_of(ts, e), decoded_rows(e, es, times)),
        forall|e2: Seq<char>| e2 != e ==> #[trigger] rows_of(load_objects(ts, e, es, times), e2) == rows_of(ts, e2),
    decreases es.len(),
{
    if es.len() > 0 {
        lemma_load_objects(ts, e, es.drop_last(), times.drop_last());
        let prev = load_objects(ts, e, es.drop_last(), times.drop_last());
        let prev_d = decoded_rows(e, es.drop_last(), times.drop_last());
        let k = decoded_id(es.last().0);
        let cur = load_objects(ts, e, es, times);
        match es.last().1 {
            Val::Table(oes) => {
                let o = decode_entries(oes, decode_start(e, k, times.last()));
                let rows2 = insert_entry(rows_of(prev, e), k, o);
                assert(cur == insert_entry(prev, e, rows2));
                crate::assoc::law_lookup_after_insert(prev, e, rows2, e);
                assert(rows_of(cur, e) == rows2);
                let d = decoded_rows(e, es, times);
                assert(d == prev_d.push((k, o)));
                assert(d.drop_last() =~= prev_d);
                assert(insert_all(rows_of(ts, e), d) == insert_entry(insert_all(rows_of(ts, e), prev_d), k, o));
                assert forall|e2: Seq<char>| e2 != e implies #[trigger] rows_of(cur, e2) == rows_of(ts, e2) by {
                    crate::assoc::law_lookup_after_insert(prev, e, rows2, e2);
                    assert(rows_of(prev, e2) == rows_of(ts, e2));
                }
            },
            _ => {
                assert(cur == prev);
                assert(decoded_rows(e, es, times) == prev_d);
            },
        }
    }
}

proof fn lemma_decoded_live_rows(e: Seq<char>, rows: Seq<(Seq<char>, ObjectView)>, times: Seq<Timestamp>)
    requires
        forall|r: int| 0 <= r < rows.len() ==> (#[trigger] rows[r]).1.entity == e,
        forall|r: int| 0 <= r < rows.len() && !(#[trigger] rows[r]).1.deleted ==> storable(rows[r].1),
    ensures
        decoded_rows(e, doc_rows(rows), times) == live_rows(rows),
    decreases rows.len(),
{
    if rows.len() > 0 {
        let r1 = rows.drop_last();
        assert forall|r: int| 0 <= r < r1.len() implies (#[trigger] r1[r]).1.entity == e by {
            assert(r1[r] == rows[r]);
        }
        assert forall|r: int| 0 <= r < r1.len() && !(#[trigger] r1[r]).1.deleted implies storable(r1[r].1) by {
            assert(r1[r] == rows[r]);
        }
        let last = rows.last();
        assert(last == rows[rows.len() - 1]);
        if last.1.deleted {
            lemma_decoded_live_rows(e, r1, times);
        } else {
            lemma_decoded_live_rows(e, r1, times.drop_last());
            let es = doc_rows(rows);
            assert(es.drop_last() =~= doc_rows(r1));
            law_id_roundtrip(last.0);
            law_fish_value_roundtrip(last.1, last.0, times.last());
        }
    }
}

proof fn lemma_doc_rows_keys(rows: Seq<(Seq<char>, ObjectView)>)
    requires
        keys_unique(rows),
    ensures
        keys_unique(doc_rows(rows)),
        forall|d: int| 0 <= d < doc_rows(rows).len() ==> exists|r: int|
            0 <= r < rows.len() && (#[trigger] doc_rows(rows)[d]).0 == encoded_id(#[trigger] rows[r].0),
    decreases rows.len(),
{
    if rows.len() > 0 {
        let r1 = rows.drop_last();
        assert(keys_unique(r1)) by {
            assert forall|a: int, b: int| 0 <= a < b < r1.len() implies r1[a].0 != r1[b].0 by {
                assert(r1[a] == rows[a] && r1[b] == rows[b]);
            }
        }
        lemma_doc_rows_keys(r1);
        let d1 = doc_rows(r1);
        let d = doc_rows(rows);
        if !rows.last().1.deleted {
            assert forall|x: int| 0 <= x < d.len() implies exists|r: int|
                0 <= r < rows.len() && (#[trigger] d[x]).0 == encoded_id(#[trigger] rows[r].0) by {
                if x < d1.len() {
                    assert(d[x] == d1[x]);
                    let r = choose|r: int| 0 <= r < r1.len() && d1[x].0 == encoded_id(#[trigger] r1[r].0);
                    assert(r1[r] == rows[r]);
                } else {
                    assert(rows[rows.len() - 1] == rows.last());
                }
            }
            assert forall|a: int, b: int| 0 <= a < b < d.len() implies d[a].0 != d[b].0 by {
                if b == d.len() - 1 {
                    assert(d[a] == d1[a]);
                    let r = choose|r: int| 0 <= r < r1.len() && d1[a].0 == encoded_id(#[trigger] r1[r].0);
                    assert(r1[r] == rows[r]);
                    assert(rows[r].0 != rows[rows.len() - 1].0);
                    law_id_roundtrip(rows[r].0);
                    law_id_roundtrip(rows.last().0);
                } else {
                    assert(d[a] == d1[a] && d[b] == d1[b]);
                }
            }
        } else {
            assert forall|x: int| 0 <= x < d.len() implies exists|r: int|
                0 <= r < rows.len() && (#[trigger] d[x]).0 == encoded_id(#[trigger] rows[r].0) by {
                let r = choose|r: int| 0 <= r < r1.len() && d1[x].0 == encoded_id(#[trigger] r1[r].0);
                assert(r1[r] == rows[r]);
            }
        }
    }
}

proof fn lemma_live_rows_keys(rows: Seq<(Seq<char>, ObjectView)>)
    requires
        keys_unique(rows),
    ensures
        keys_unique(live_rows(rows)),
        forall|x: int| 0 <= x < live_rows(rows).len() ==> exists|r: int|
            0 <= r < rows.len() && #[trigger] live_rows(rows)[x] == #[trigger] rows[r],
    decreases rows.len(),
{
    if rows.len() > 0 {
        let r1 = rows.drop_last();
        assert(keys_unique(r1)) by {
            assert forall|a: int, b: int| 0 <= a < b < r1.len() implies r1[a].0 != r1[b].0 by {
                assert(r1[a] == rows[a] && r1[b] == rows[b]);
            }
        }
        lemma_live_rows_keys(r1);
        let l1 = live_rows(r1);
        let l = live_rows(rows);
        assert forall|x: int| 0 <= x < l.len() implies exists|r: int| 0 <= r < rows.len() && #[trigger] l[x] == #[trigger] rows[r] by {
            if x < l1.len() {
                assert(l[x] == l1[x]);
                let r = choose|r: int| 0 <= r < r1.len() && l1[x] == #[trigger] r1[r];
                assert(r1[r] == rows[r]);
            } else {
                assert(rows[rows.len() - 1] == rows.last());
            }
        }
        if !rows.last().1.deleted {
            assert forall|a: int, b: int| 0 <= a < b < l.len() implies l[a].0 != l[b].0 by {
                if b == l.len() - 1 {
                    assert(l[a] == l1[a]);
                    let r = choose|r: int| 0 <= r < r1.len() && l1[a] == #[trigger] r1[r];
                    assert(r1[r] == rows[r]);
                    assert(rows[r].0 != rows[rows.len() - 1].0);
                } else {
                    assert(l[a] == l1[a] && l[b] == l1[b]);
                }
            }
        }
    }
}

proof fn lemma_live_objects_of_live_rows(rows: Seq<(Seq<char>, ObjectView)>)
    ensures
        live_objects(live_rows(rows)) == live_objects(rows),
    decreases rows.len(),
{
    if rows.len() > 0 {
        lemma_live_objects_of_live_rows(rows.drop_last());
        if !rows.last().1.deleted {
            let l = live_rows(rows);
            assert(l.drop_last() =~= live_rows(rows.drop_last()));
        }
    }
}

proof fn lemma_load_doc_tables(ts: Seq<(Seq<char>, Seq<(Seq<char>, ObjectView)>)>, times: Seq<Seq<Timestamp>>)
    requires
        tables_wf(ts),
        forall|t: int, r: int|
            0 <= t < ts.len() && 0 <= r < ts[t].1.len() && !(#[trigger] ts[t].1[r]).1.deleted ==> storable(ts[t].1[r].1),
    ensures
        forall|e: Seq<char>| #[trigger] rows_of(load_entities(doc_tables(ts), times), e) == live_rows(rows_of(ts, e)),
    decreases ts.len(),
{
    if ts.len() > 0 {
        let t1 = ts.drop_last();
        let last = ts.last();
        assert(last == ts[ts.len() - 1]);
        assert(tables_wf(t1)) by {
            assert forall|a: int, b: int| 0 <= a < b < t1.len() implies t1[a].0 != t1[b].0 by {
                assert(t1[a] == ts[a] && t1[b] == ts[b]);
            }
            assert forall|t: int| 0 <= t < t1.len() implies keys_unique(#[trigger] t1[t].1) by {
                assert(t1[t] == ts[t]);
            }
            assert forall|t: int, r: int| 0 <= t < t1.len() && 0 <= r < t1[t].1.len() implies (#[trigger] t1[t].1[r]).1.entity
                == t1[t].0 by {
                assert(t1[t] == ts[t]);
            }
        }
        assert forall|t: int, r: int|
            0 <= t < t1.len() && 0 <= r < t1[t].1.len() && !(#[trigger] t1[t].1[r]).1.deleted implies storable(t1[t].1[r].1) by {
            assert(t1[t] == ts[t]);
        }
        lemma_load_doc_tables(t1, times.drop_last());
        let dt = doc_tables(ts);
        assert(dt.drop_last() =~= doc_tables(t1));
        let rows_l = last.1;
        let e_l = last.0;
        assert(keys_unique(rows_l));
        lemma_doc_rows_keys(rows_l);
        lemma_insert_all_unique(doc_rows(rows_l));
        assert(dt.last() == (e_l, Val::Table(doc_rows(rows_l))));
        let prev = load_entities(doc_tables(t1), times.drop_last());
        lemma_load_objects(prev, e_l, doc_rows(rows_l), times.last());
        assert forall|r: int| 0 <= r < rows_l.len() implies (#[trigger] rows_l[r]).1.entity == e_l by {
            assert(ts[ts.len() - 1].1[r] == rows_l[r]);
        }
        assert forall|r: int| 0 <= r < rows_l.len() && !(#[trigger] rows_l[r]).1.deleted implies storable(rows_l[r].1) by {
            assert(ts[ts.len() - 1].1[r] == rows_l[r]);
        }
        lemma_decoded_live_rows(e_l, rows_l, times.last());
        lemma_key_pos(t1, e_l);
        assert(!has_key(t1, e_l)) by {
            if has_key(t1, e_l) {
                assert(t1[key_pos(t1, e_l)] == ts[key_pos(t1, e_l)]);
            }
        }
        assert(rows_of(prev, e_l) == live_rows(rows_of(t1, e_l)));
        assert(rows_of(t1, e_l) == Seq::<(Seq<char>, ObjectView)>::empty());
        assert(live_rows(Seq::<(Seq<char>, ObjectView)>::empty()) == Seq::<(Seq<char>, ObjectView)>::empty());
        lemma_live_rows_keys(rows_l);
        lemma_insert_all_unique(live_rows(rows_l));
        assert(key_pos(ts, e_l) == ts.len() - 1);
        assert forall|e: Seq<char>| #[trigger] rows_of(load_entities(dt, times), e) == live_rows(rows_of(ts, e)) by {
            if e != e_l {
                assert(rows_of(load_entities(doc_tables(t1), times.drop_last()), e) == live_rows(rows_of(t1, e)));
                lemma_key_pos(t1, e);
            }
        }
    }
}

/// What is saved is what is loaded: reading back the document a store
/// saves gives, for every entity, exactly its rows that are not deleted,
/// under the same keys and in the same order (tombstones are purged, so
/// they neither come back nor pile up), hence the same objects to fetch
/// (whatever times loading would give objects without one), provided the
/// store is well formed and each such object survives being written and
/// read back (`storable`).
pub proof fn law_save_then_load(
    ts: Seq<(Seq<char>, Seq<(Seq<char>, ObjectView)>)>,
    times: Seq<Seq<Timestamp>>,
    e: Seq<char>,
)
    requires
        tables_wf(ts),
        forall|t: int, r: int|
            0 <= t < ts.len() && 0 <= r < ts[t].1.len() && !(#[trigger] ts[t].1[r]).1.deleted ==> storable(ts[t].1[r].1),
    ensures
        rows_of(load_entities(saved_document(ts), times), e) == live_rows(rows_of(ts, e)),
        live_objects(rows_of(load_entities(saved_document(ts), times), e)) == live_objects(rows_of(ts, e)),
{
    let dt = doc_tables(ts);
    assert(keys_unique(dt)) by {
        assert forall|a: int, b: int| 0 <= a < b < dt.len() implies dt[a].0 != dt[b].0 by {}
    }
    lemma_insert_all_unique(dt);
    lemma_load_doc_tables(ts, times);
    assert(rows_of(load_entities(dt, times), e) == live_rows(rows_of(ts, e)));
    lemma_live_objects_of_live_rows(rows_of(ts, e));
}

/// `table_with_id` finds the first table holding a row with the key.
proof fn lemma_table_with_id(ts: Seq<(Seq<char>, Seq<(Seq<char>, ObjectView)>)>, id: Seq<char>)
    ensures
        -1 <= table_with_id(ts, id) < ts.len(),
        table_with_id(ts, id) >= 0 ==> has_key(ts[table_with_id(ts, id)].1, id),
        forall|j: int|
            0 <= j < ts.len() && (table_with_id(ts, id) < 0 || j < table_with_id(ts, id)) ==> !has_key(
                #[trigger] ts[j].1,
                id,
            ),
    decreases ts.len(),
{
    if ts.len() > 0 {
        lemma_table_with_id(ts.drop_last(), id);
        assert forall|j: int|
            0 <= j < ts.len() && (table_with_id(ts, id) < 0 || j < table_with_id(ts, id)) implies !has_key(
            #[trigger] ts[j].1,
            id,
        ) by {
            if j < ts.len() - 1 {
                assert(ts[j] == ts.drop_last()[j]);
            }
        }
        if table_with_id(ts.drop_last(), id) >= 0 {
            assert(ts[table_with_id(ts, id)] == ts.drop_last()[table_with_id(ts, id)]);
        }
    }
}

/// `table_with_id` of a prefix in which no table holds the key.
proof fn lemma_table_with_id_prefix(ts: Seq<(Seq<char>, Seq<(Seq<char>, ObjectView)>)>, id: Seq<char>, i: int)
    requires
        0 <= i <= ts.len(),
        forall|j: int| 0 <= j < i ==> !has_key(#[trigger] ts[j].1, id),
    ensures
        table_with_id(ts.take(i), id) < 0,
        i < ts.len() && has_key(ts[i].1, id) ==> table_with_id(ts, id) == i,
    decreases i,
{
    lemma_table_with_id(ts.take(i), id);
    assert forall|j: int| 0 <= j < i implies !has_key(#[trigger] ts.take(i)[j].1, id) by {
        assert(ts.take(i)[j] == ts[j]);
    }
    if table_with_id(ts.take(i), id) >= 0 {
        let w = table_with_id(ts.take(i), id);
        assert(ts.take(i)[w] == ts[w]);
    }
    if i < ts.len() && has_key(ts[i].1, id) {
        lemma_table_with_id(ts, id);
        lemma_table_with_id_take(ts, id, i + 1);
        assert(ts.take(i + 1).drop_last() =~= ts.take(i));
        assert(ts.take(i + 1).last() == ts[i]);
        assert(table_with_id(ts.take(i + 1), id) == i);
    }
}

/// A table found in a prefix is the one found in the whole.
proof fn lemma_table_with_id_take(ts: Seq<(Seq<char>, Seq<(Seq<char>, ObjectView)>)>, id: Seq<char>, n: int)
    requires
        0 <= n <= ts.len(),
        table_with_id(ts.take(n), id) >= 0,
    ensures
        table_with_id(ts, id) == table_with_id(ts.take(n), id),
    decreases ts.len() - n,
{
    if n < ts.len() {
        assert(ts.take(n + 1).drop_last() =~= ts.take(n));
        lemma_table_with_id_take(ts, id, n + 1);
    } else {
        assert(ts.take(n) =~= ts);
    }
}

/// The objects of some rows.
pub open spec fn objects_view(v: Seq<ManagedObject>) -> Seq<ObjectView> {
    Seq::new(v.len(), |i: int| v[i]@)
}

impl FicoStore {
    /// Replace the object with the id of `obj` in the table of its entity.
    /// Where there is none, the error is `NotFound(<id>)`, and the entity is
    /// left with a table (an empty one, when it had none).
    pub fn update(&mut self, obj: ManagedObject) -> (r: Result<(), CoreDataError>)
        requires
            old(self).wf(),
        ensures
            final(self).wf(),
            has_key(rows_of(old(self)@.tables, obj@.entity), obj@.object_id) ==> r is Ok
                && final(self)@ == (FicoStoreView {
                tables: with_object(old(self)@.tables, obj@),
                ..old(self)@
            }),
            !has_key(rows_of(old(self)@.tables, obj@.entity), obj@.object_id) ==> (r matches Err(
                CoreDataError::NotFound(m),
            ) && m@ == obj@.object_id && final(self)@ == (FicoStoreView {
                tables: with_table(old(self)@.tables, obj@.entity),
                ..old(self)@
            })),
    {
        let ghost tv = self@.tables;
        let ghost ov = obj@;
        proof {
            lemma_key_pos(tv, ov.entity);
        }
        match find_table(&self.tables, obj.entity.as_str()) {
            Some(ti) => {
                assert(rows_of(tv, ov.entity) == rows_view(self.tables[ti as int].1@));
                match find_row(&self.tables[ti].1, obj.object_id.as_str()) {
                    Some(_) => {
                        let e = obj.entity.clone();
                        let id = obj.object_id.clone();
                        self.put_row(e, id, obj);
                        Ok(())
                    },
                    None => {
                        assert(with_table(tv, ov.entity) == tv);
                        Err(CoreDataError::NotFound(obj.object_id))
                    },
                }
            },
            None => {
                assert(rows_of(tv, ov.entity) == Seq::<(Seq<char>, ObjectView)>::empty());
                let rows: Vec<(String, ManagedObject)> = Vec::new();
                let id = obj.object_id;
                assert(rows_view(rows@) =~= Seq::<(Seq<char>, ObjectView)>::empty());
                self.tables.push((obj.entity, rows));
                assert(self@.tables =~= with_table(tv, ov.entity));
                proof {
                    let ts2 = self@.tables;
                    assert forall|a: int, b: int| 0 <= a < b < ts2.len() implies ts2[a].0 != ts2[b].0 by {
                        if b == ts2.len() - 1 {
                            assert(ts2[a] == tv[a]);
                        }
                    }
                    assert forall|t: int| 0 <= t < ts2.len() implies keys_unique(#[trigger] ts2[t].1) by {
                        if t < tv.len() {
                            assert(ts2[t] == tv[t]);
                        }
                    }
                    assert forall|t: int, q: int|
                        0 <= t < ts2.len() && 0 <= q < ts2[t].1.len() implies (#[trigger] ts2[t].1[q]).1.entity
                        == ts2[t].0 by {
                        assert(ts2[t] == tv[t]);
                    }
                }
                Err(CoreDataError::NotFound(id))
            },
        }
    }

    /// Mark the object with key `object_id` deleted (see `tombstone`), in
    /// the first table that holds one; `NotFound(<id>)` when none does.
    pub fn delete(&mut self, object_id: &str) -> (r: Result<(), CoreDataError>)
        requires
            old(self).wf(),
        ensures
            final(self).wf(),
            table_with_id(old(self)@.tables, object_id@) < 0 ==> (r matches Err(
                CoreDataError::NotFound(m),
            ) && m@ == object_id@ && final(self)@ == old(self)@),
            table_with_id(old(self)@.tables, object_id@) >= 0 ==> r is Ok && exists|t: Timestamp|
                final(self)@ == (FicoStoreView {
                    tables: #[trigger] with_tombstone(
                        old(self)@.tables,
                        table_with_id(old(self)@.tables, object_id@),
                        object_id@,
                        t,
                    ),
                    ..old(self)@
                }),
    {
        let ghost tv = self@.tables;
        let mut i: usize = 0;
        while i < self.tables.len()
            invariant
                tv == self@.tables,
                tables_wf(tv),
                *self == *old(self),
                i <= tv.len(),
                forall|j: int| 0 <= j < i ==> !has_key(#[trigger] tv[j].1, object_id@),
            decreases tv.len() - i,
        {
            match find_row(&self.tables[i].1, object_id) {
                Some(ri) => {
                    proof {
                        lemma_table_with_id_prefix(tv, object_id@, i as int);
                    }
                    let (name, mut rows) = self.tables.remove(i);
                    assert(tv[i as int] == (name@, rows_view(rows@)));
                    let ghost rv = rows_view(rows@);
                    let ghost old_rows = rows@;
                    proof {
                        lemma_key_pos(rv, object_id@);
                    }
                    let (k, mut obj) = rows.remove(ri);
                    let ghost ov = obj@;
                    obj.mark_deleted();
                    let ghost t = obj.updated_at;
                    assert(obj@ == tombstone(ov, t));
                    let ghost kv = k@;
                    rows.insert(ri, (k, obj));
                    assert(kv == object_id@);
                    assert(rows@ =~= old_rows.update(ri as int, rows@[ri as int]));
                    assert(rows_view(rows@) =~= rv.update(ri as int, (object_id@, tombstone(rv[ri as int].1, t))));
                    let ghost newt = (name, rows);
                    self.tables.insert(i, (name, rows));
                    assert(self.tables@ =~= old(self).tables@.update(i as int, newt));
                    proof {
                        lemma_tables_view_set(old(self).tables@, i as int, newt);
                    }
                    assert(self@.tables =~= with_tombstone(tv, i as int, object_id@, t));
                    proof {
                        let ts2 = self@.tables;
                        let rows2 = ts2[i as int].1;
                        assert forall|a: int, b: int| 0 <= a < b < ts2.len() implies ts2[a].0 != ts2[b].0 by {
                            assert(ts2[a].0 == tv[a].0 && ts2[b].0 == tv[b].0);
                        }
                        assert forall|a: int, b: int| 0 <= a < b < rows2.len() implies rows2[a].0 != rows2[b].0 by {
                            assert(rows2[a].0 == rv[a].0 && rows2[b].0 == rv[b].0);
                        }
                        assert forall|t2: int| 0 <= t2 < ts2.len() implies keys_unique(#[trigger] ts2[t2].1) by {
                            if t2 != i {
                                assert(ts2[t2] == tv[t2]);
                            }
                        }
                        assert forall|t2: int, q: int|
                            0 <= t2 < ts2.len() && 0 <= q < ts2[t2].1.len() implies (#[trigger] ts2[t2].1[q]).1.entity
                            == ts2[t2].0 by {
                            if t2 != i {
                                assert(ts2[t2] == tv[t2]);
                            } else {
                                assert(ts2[t2].1[q].1.entity == rv[q].1.entity);
                            }
                        }
                    }
                    return Ok(());
                },
                None => {},
            }
            i = i + 1;
        }
        proof {
            lemma_table_with_id_prefix(tv, object_id@, tv.len() as int);
            assert(tv.take(tv.len() as int) =~= tv);
        }
        Err(CoreDataError::NotFound(object_id.to_string()))
    }

    /// The objects of `entity` that are not deleted, in order.
    pub fn fetch_all(&self, entity: &str) -> (r: Vec<ManagedObject>)
        requires
            self.wf(),
        ensures
            objects_view(r@) == live_objects(rows_of(self@.tables, entity@)),
    {
        let ghost tv = self@.tables;
        let mut out: Vec<ManagedObject> = Vec::new();
        proof {
            lemma_key_pos(tv, entity@);
        }
        match find_table(&self.tables, entity) {
            Some(ti) => {
                let rows = &self.tables[ti].1;
                let ghost rv = rows_view(rows@);
                assert(rows_of(tv, entity@) == rv);
                let mut j: usize = 0;
                assert(rv.take(0) =~= Seq::<(Seq<char>, ObjectView)>::empty());
                assert(objects_view(out@) =~= Seq::<ObjectView>::empty());
                while j < rows.len()
                    invariant
                        rv == rows_view(rows@),
                        j <= rv.len(),
                        objects_view(out@) == live_objects(rv.take(j as int)),
                    decreases rv.len() - j,
                {
                    assert(rv.take(j + 1).drop_last() =~= rv.take(j as int));
                    assert(rv.take(j + 1).last() == rv[j as int]);
                    if !rows[j].1.deleted {
                        let ghost before = out@;
                        out.push(rows[j].1.clone());
                        assert(objects_view(out@) =~= objects_view(before).push(rv[j as int].1));
                    }
                    j = j + 1;
                }
                assert(rv.take(rv.len() as int) =~= rv);
            },
            None => {
                assert(objects_view(out@) =~= Seq::<ObjectView>::empty());
            },
        }
        out
    }
}

/// The first of some objects with the given object id.
pub open spec fn first_with_id(objs: Seq<ObjectView>, id: Seq<char>) -> Option<ObjectView>
    decreases objs.len(),
{
    if objs.len() == 0 {
        None
    } else if objs[0].object_id == id {
        Some(objs[0])
    } else {
        first_with_id(objs.drop_first(), id)
    }
}

/// Storing a row after making sure the entity has a table is storing it.
proof fn lemma_with_table_then_row(
    ts: Seq<(Seq<char>, Seq<(Seq<char>, ObjectView)>)>,
    e: Seq<char>,
    k: Seq<char>,
    o: ObjectView,
)
    ensures
        with_row(with_table(ts, e), e, k, o) == with_row(ts, e, k, o),
{
    if !has_key(ts, e) {
        let t2 = ts.push((e, Seq::<(Seq<char>, ObjectView)>::empty()));
        lemma_key_pos(ts, e);
        lemma_key_pos(t2, e);
        assert(key_pos(t2, e) == ts.len()) by {
            if 0 <= key_pos(t2, e) < ts.len() {
                assert(t2[key_pos(t2, e)] == ts[key_pos(t2, e)]);
            }
        }
        assert(rows_of(t2, e) == Seq::<(Seq<char>, ObjectView)>::empty());
        assert(rows_of(ts, e) == Seq::<(Seq<char>, ObjectView)>::empty());
        let rows2 = insert_entry(Seq::<(Seq<char>, ObjectView)>::empty(), k, o);
        assert(with_row(t2, e, k, o) =~= ts.push((e, rows2)));
    }
}

/// Tombstoning a row takes it out of the live objects as removing it would.
proof fn lemma_live_tombstone(rows: Seq<(Seq<char>, ObjectView)>, p: int, x: (Seq<char>, ObjectView))
    requires
        0 <= p < rows.len(),
        x.1.deleted,
    ensures
        live_objects(rows.update(p, x)) == live_objects(rows.remove(p)),
    decreases rows.len(),
{
    let u = rows.update(p, x);
    if p == rows.len() - 1 {
        assert(u.drop_last() =~= rows.drop_last());
        assert(rows.remove(p) =~= rows.drop_last());
    } else {
        lemma_live_tombstone(rows.drop_last(), p, x);
        assert(u.drop_last() =~= rows.drop_last().update(p, x));
        assert(rows.remove(p).drop_last() =~= rows.drop_last().remove(p));
        assert(rows.remove(p).last() == rows.last());
        assert(u.last() == rows.last());
    }
}

/// A read after a write: once an object is stored, its entity's rows are
/// the old rows with it stored under its id (in place, or appended), and
/// every other entity keeps its rows.
pub proof fn law_rows_after_insert(
    ts: Seq<(Seq<char>, Seq<(Seq<char>, ObjectView)>)>,
    o: ObjectView,
    other: Seq<char>,
)
    ensures
        rows_of(with_object(ts, o), o.entity) == insert_entry(rows_of(ts, o.entity), o.object_id, o),
        other != o.entity ==> rows_of(with_object(ts, o), other) == rows_of(ts, other),
{
    let rows2 = insert_entry(rows_of(ts, o.entity), o.object_id, o);
    crate::assoc::law_lookup_after_insert(ts, o.entity, rows2, other);
}

/// An object that is not deleted, stored under a new id, is the last of
/// what fetching its entity gives, after the objects it gave before.
pub proof fn law_fetch_after_insert(ts: Seq<(Seq<char>, Seq<(Seq<char>, ObjectView)>)>, o: ObjectView)
    requires
        !o.deleted,
        !has_key(rows_of(ts, o.entity), o.object_id),
    ensures
        live_objects(rows_of(with_object(ts, o), o.entity)) == live_objects(rows_of(ts, o.entity)).push(o),
{
    law_rows_after_insert(ts, o, o.entity);
    let rows = rows_of(ts, o.entity);
    assert(insert_entry(rows, o.object_id, o) == rows.push((o.object_id, o)));
    assert(rows.push((o.object_id, o)).drop_last() =~= rows);
}

/// Deleting hides: once the row with key `id` is marked deleted, fetching
/// its entity gives what it gave with that row removed, and every other
/// entity's rows stay as they were.
pub proof fn law_delete_hides(
    ts: Seq<(Seq<char>, Seq<(Seq<char>, ObjectView)>)>,
    id: Seq<char>,
    t: Timestamp,
    other: Seq<char>,
)
    requires
        tables_wf(ts),
        table_with_id(ts, id) >= 0,
    ensures
        ({
            let ti = table_with_id(ts, id);
            let e = ts[ti].0;
            &&& live_objects(rows_of(with_tombstone(ts, ti, id, t), e)) == live_objects(
                remove_entry(rows_of(ts, e), id),
            )
            &&& other != e ==> rows_of(with_tombstone(ts, ti, id, t), other) == rows_of(ts, other)
        }),
{
    lemma_table_with_id(ts, id);
    let ti = table_with_id(ts, id);
    let e = ts[ti].0;
    let rows = ts[ti].1;
    let ts2 = with_tombstone(ts, ti, id, t);
    lemma_key_pos(ts, e);
    crate::assoc::lemma_key_pos_unique(ts, e, ti);
    lemma_key_pos(ts2, e);
    assert(ts2[ti].0 == e);
    assert(keys_unique(ts2)) by {
        assert forall|a: int, b: int| 0 <= a < b < ts2.len() implies ts2[a].0 != ts2[b].0 by {
            assert(ts2[a].0 == ts[a].0 && ts2[b].0 == ts[b].0);
        }
    }
    crate::assoc::lemma_key_pos_unique(ts2, e, ti);
    assert(rows_of(ts, e) == rows);
    let p = key_pos(rows, id);
    lemma_key_pos(rows, id);
    assert(rows_of(ts2, e) == rows.update(p, (id, tombstone(rows[p].1, t))));
    lemma_live_tombstone(rows, p, (id, tombstone(rows[p].1, t)));
    if other != e {
        lemma_key_pos(ts, other);
        lemma_key_pos(ts2, other);
        if has_key(ts, other) {
            crate::assoc::lemma_key_pos_unique(ts2, other, key_pos(ts, other));
            assert(ts2[key_pos(ts, other)] == ts[key_pos(ts, other)]);
        } else {
            assert(!has_key(ts2, other)) by {
                if has_key(ts2, other) {
                    assert(ts2[key_pos(ts2, other)].0 == ts[key_pos(ts2, other)].0);
                }
            }
        }
    }
}

/// Every row sits under its object's id (as `insert` and `save_object`
/// store them).
pub open spec fn ids_match(rows: Seq<(Seq<char>, ObjectView)>) -> bool {
    forall|r: int| 0 <= r < rows.len() ==> (#[trigger] rows[r]).0 == rows[r].1.object_id
}

/// Each live object is the object of some row.
proof fn lemma_live_objects_from(rows: Seq<(Seq<char>, ObjectView)>)
    ensures
        forall|x: int|
            0 <= x < live_objects(rows).len() ==> exists|r: int|
                0 <= r < rows.len() && #[trigger] live_objects(rows)[x] == (#[trigger] rows[r]).1,
    decreases rows.len(),
{
    if rows.len() > 0 {
        let r1 = rows.drop_last();
        lemma_live_objects_from(r1);
        let l = live_objects(rows);
        let l1 = live_objects(r1);
        assert forall|x: int| 0 <= x < l.len() implies exists|r: int|
            0 <= r < rows.len() && #[trigger] l[x] == (#[trigger] rows[r]).1 by {
            if x < l1.len() {
                assert(l[x] == l1[x]);
                let r = choose|r: int| 0 <= r < r1.len() && l1[x] == (#[trigger] r1[r]).1;
                assert(r1[r] == rows[r]);
            } else {
                assert(rows[rows.len() - 1] == rows.last());
            }
        }
    }
}

/// What is deleted is not fetched: once the row with key `id` is marked
/// deleted, no object that fetching its entity gives has that id (where
/// rows sit under their objects' ids).
pub proof fn law_deleted_not_fetched(
    ts: Seq<(Seq<char>, Seq<(Seq<char>, ObjectView)>)>,
    id: Seq<char>,
    t: Timestamp,
)
    requires
        tables_wf(ts),
        table_with_id(ts, id) >= 0,
        ids_match(ts[table_with_id(ts, id)].1),
    ensures
        ({
            let ti = table_with_id(ts, id);
            let got = live_objects(rows_of(with_tombstone(ts, ti, id, t), ts[ti].0));
            forall|x: int| 0 <= x < got.len() ==> (#[trigger] got[x]).object_id != id
        }),
{
    lemma_table_with_id(ts, id);
    let ti = table_with_id(ts, id);
    let e = ts[ti].0;
    let rows = ts[ti].1;
    law_delete_hides(ts, id, t, e);
    lemma_key_pos(ts, e);
    crate::assoc::lemma_key_pos_unique(ts, e, ti);
    assert(rows_of(ts, e) == rows);
    lemma_key_pos(rows, id);
    let p = key_pos(rows, id);
    let rest = remove_entry(rows, id);
    assert(rest == rows.remove(p));
    lemma_live_objects_from(rest);
    let got = live_objects(rest);
    assert forall|x: int| 0 <= x < got.len() implies (#[trigger] got[x]).object_id != id by {
        let r = choose|r: int| 0 <= r < rest.len() && got[x] == (#[trigger] rest[r]).1;
        let q = if r < p { r } else { r + 1 };
        assert(rest[r] == rows[q]);
        assert(rows[q].0 != rows[p].0);
        assert(rows[q].0 == rows[q].1.object_id);
    }
}

impl FicoStore {
    /// Store `obj`: replace the object with its id in the table of its
    /// entity, or add it there (an update, falling back to an insert).
    pub fn save_object(&mut self, obj: ManagedObject)
        requires
            old(self).wf(),
        ensures
            final(self).wf(),
            final(self)@ == (FicoStoreView {
                tables: with_object(old(self)@.tables, obj@),
                ..old(self)@
            }),
    {
        let ghost tv = self@.tables;
        let ghost ov = obj@;
        let again = obj.clone();
        match self.update(obj) {
            Ok(()) => {},
            Err(_) => {
                proof {
                    lemma_with_table_then_row(tv, ov.entity, ov.object_id, ov);
                }
                self.insert(again);
            },
        }
    }

    /// The object of `entity` with object id `id` that is not deleted (the
    /// first, in order); `NotFound(<id>)` when there is none.
    pub fn object(&self, entity: &str, id: &str) -> (r: Result<ManagedObject, CoreDataError>)
        requires
            self.wf(),
        ensures
            match first_with_id(live_objects(rows_of(self@.tables, entity@)), id@) {
                Some(o) => r matches Ok(x) && x@ == o,
                None => r matches Err(CoreDataError::NotFound(m)) && m@ == id@,
            },
    {
        let all = self.fetch_all(entity);
        crate::context::find_object(all, id)
    }
}

impl FicoStore {
    /// An empty, not yet loaded store for `bundle_id`, kept at its `.fico`
    /// path under the preferences root `prefs_root`.
    pub fn new(bundle_id: &str, prefs_root: &str) -> (r: FicoStore)
        ensures
            r.wf(),
            r@ == (FicoStoreView {
                bundle_id: bundle_id@,
                path: joined(joined(prefs_root@, bundle_id@), "storage.fico"@),
                tables: Seq::empty(),
                loaded: false,
            }),
    {
        let path = fico_path(prefs_root, bundle_id);
        FicoStore::with_path(bundle_id, path.as_str())
    }

    /// Create an object of `entity` (see `ManagedObject::new`), store it and
    /// give it back.
    pub fn insert_new(&mut self, entity: &str) -> (r: ManagedObject)
        requires
            old(self).wf(),
        ensures
            r@.entity == entity@,
            r@.values == Seq::<(Seq<char>, Val)>::empty(),
            r@.rev == 1,
            !r@.deleted,
            final(self).wf(),
            final(self)@ == (FicoStoreView {
                tables: with_object(old(self)@.tables, r@),
                ..old(self)@
            }),
    {
        let obj = ManagedObject::new(entity);
        let copy = obj.clone();
        self.insert(copy);
        obj
    }
}

} // verus!
