//! `ManagedObject`: a CoreData-like row / document, and the schema hints.

use vstd::prelude::*;

use crate::assoc::{
    has_key, insert_all, insert_entry, keys_unique, lemma_insert_all_unique, lemma_insert_fresh, lookup,
    remove_entry,
};
use crate::value::{table_entries, Table, Val, Value};

verus! {

broadcast use vstd::string::group_string_axioms;

/// A point in time: chrono's `DateTime<Utc>`, held opaquely.
#[verifier::external_body]
#[derive(Debug)]
pub struct Timestamp {
    t: chrono::DateTime<chrono::Utc>,
}

impl Clone for Timestamp {
    /// chrono's `DateTime<Utc>` is `Copy`: the copy is the same time.
    #[verifier::external_body]
    fn clone(&self) -> (r: Timestamp)
        ensures
            r == *self,
    {
        *self
    }
}

impl Copy for Timestamp {

}

/// The RFC 3339 text that chrono's `DateTime::<Utc>::to_rfc3339` writes for a time.
pub uninterp spec fn rfc3339_of(t: Timestamp) -> Seq<char>;

/// What chrono's `FromStr for DateTime<Utc>` reads from a text (a relaxed
/// RFC 3339), or `None` where it refuses the text.
pub uninterp spec fn parsed_time(s: Seq<char>) -> Option<Timestamp>;

/// chrono's `Utc::now`: the current time; nothing is promised of it.
/// (chrono panics if the system clock reads before 1970.)
#[verifier::external_body]
pub(crate) fn utc_now() -> (r: Timestamp) {
    Timestamp { t: chrono::Utc::now() }
}

/// chrono's `DateTime::<Utc>::to_rfc3339`.
#[verifier::external_body]
pub(crate) fn rfc3339(t: &Timestamp) -> (r: String)
    ensures
        r@ == rfc3339_of(*t),
{
    t.t.to_rfc3339()
}

/// chrono's `s.parse::<DateTime<Utc>>()`, its error dropped.
#[verifier::external_body]
pub(crate) fn parse_time(s: &str) -> (r: Option<Timestamp>)
    ensures
        r == parsed_time(s@),
{
    match s.parse::<chrono::DateTime<chrono::Utc>>() {
        Ok(t) => Some(Timestamp { t }),
        Err(_) => None,
    }
}

/// uuid's `Uuid::new_v4().to_string()`: a random identifier in the 36-character
/// hyphenated form; which one is left open.
#[verifier::external_body]
pub(crate) fn new_object_id() -> (r: String)
    ensures
        r@.len() == 36,
{
    uuid::Uuid::new_v4().to_string()
}

impl Timestamp {
    /// The current time.
    pub fn now() -> (r: Timestamp) {
        utc_now()
    }

    /// The time as RFC 3339 text.
    pub fn to_rfc3339(&self) -> (r: String)
        ensures
            r@ == rfc3339_of(*self),
    {
        rfc3339(self)
    }

    /// The time an RFC 3339 text gives, if it is one.
    pub fn parse(s: &str) -> (r: Option<Timestamp>)
        ensures
            r == parsed_time(s@),
    {
        parse_time(s)
    }
}

/// A single managed object (row / document).
#[derive(Debug)]
pub struct ManagedObject {
    /// Stable object ID (a UUID v4 for new objects).
    pub object_id: String,
    /// Entity / table name.
    pub entity: String,
    /// Attributes, in insertion order.
    pub values: Table,
    /// Revision, bumped on each change (wrapping).
    pub rev: u64,
    /// Time of the last change.
    pub updated_at: Timestamp,
    /// Soft-delete marker.
    pub deleted: bool,
}

/// What a managed object is, as mathematics.
pub struct ObjectView {
    pub object_id: Seq<char>,
    pub entity: Seq<char>,
    pub values: Seq<(Seq<char>, Val)>,
    pub rev: u64,
    pub updated_at: Timestamp,
    pub deleted: bool,
}

impl View for ManagedObject {
    type V = ObjectView;

    open spec fn view(&self) -> ObjectView {
        ObjectView {
            object_id: self.object_id@,
            entity: self.entity@,
            values: table_entries(self.values),
            rev: self.rev,
            updated_at: self.updated_at,
            deleted: self.deleted,
        }
    }
}

/// The revision after one more change: `rev.wrapping_add(1)`.
pub open spec fn next_rev(r: u64) -> u64 {
    if r == u64::MAX {
        0
    } else {
        (r + 1) as u64
    }
}

/// The bookkeeping entries that `to_fish_value` writes ahead of the attributes.
pub open spec fn meta_entries(o: ObjectView) -> Seq<(Seq<char>, Val)> {
    seq![
        ("object_id"@, Val::Text(o.object_id)),
        ("entity"@, Val::Text(o.entity)),
        ("rev"@, Val::Integer(#[verifier::truncate] (o.rev as i64))),
        ("updated_at"@, Val::Text(rfc3339_of(o.updated_at))),
        ("deleted"@, Val::Bool(o.deleted)),
    ]
}

/// The table that `to_fish_value` builds: the bookkeeping entries, then the
/// attributes, each inserted in turn (an attribute named like a bookkeeping
/// key replaces that entry's value).
pub open spec fn fish_entries(o: ObjectView) -> Seq<(Seq<char>, Val)> {
    insert_all(Seq::empty(), meta_entries(o) + o.values)
}

/// What reading one table entry does to the object being decoded.
pub open spec fn decode_step(acc: ObjectView, k: Seq<char>, v: Val) -> ObjectView {
    if k == "object_id"@ {
        match v {
            Val::Text(s) => ObjectView { object_id: s, ..acc },
            _ => acc,
        }
    } else if k == "rev"@ {
        match v {
            Val::Integer(i) => ObjectView { rev: #[verifier::truncate] (i as u64), ..acc },
            _ => acc,
        }
    } else if k == "updated_at"@ {
        match v {
            Val::Text(s) => match parsed_time(s) {
                Some(t) => ObjectView { updated_at: t, ..acc },
                None => acc,
            },
            _ => acc,
        }
    } else if k == "deleted"@ {
        match v {
            Val::Bool(b) => ObjectView { deleted: b, ..acc },
            _ => acc,
        }
    } else if k == "entity"@ {
        acc
    } else {
        ObjectView { values: insert_entry(acc.values, k, v), ..acc }
    }
}

/// Reading the entries of a stored table in order.
pub open spec fn decode_entries(es: Seq<(Seq<char>, Val)>, acc: ObjectView) -> ObjectView
    decreases es.len(),
{
    if es.len() == 0 {
        acc
    } else {
        decode_step(decode_entries(es.drop_last(), acc), es.last().0, es.last().1)
    }
}

/// The object that decoding starts from: the given entity and id, revision 1,
/// not deleted, the given time.
pub open spec fn decode_start(entity: Seq<char>, id: Seq<char>, t: Timestamp) -> ObjectView {
    ObjectView {
        object_id: id,
        entity: entity,
        values: Seq::empty(),
        rev: 1,
        updated_at: t,
        deleted: false,
    }
}

impl Clone for ManagedObject {
    fn clone(&self) -> (r: ManagedObject)
        ensures
            r@ == self@,
    {
        ManagedObject {
            object_id: self.object_id.clone(),
            entity: self.entity.clone(),
            values: self.values.clone(),
            rev: self.rev,
            updated_at: self.updated_at,
            deleted: self.deleted,
        }
    }
}

impl ManagedObject {
    /// A new object of `entity` with a fresh random id, no attributes,
    /// revision 1, stamped now.
    pub fn new(entity: &str) -> (r: ManagedObject)
        ensures
            r@.entity == entity@,
            r@.object_id.len() == 36,
            r@.values == Seq::<(Seq<char>, Val)>::empty(),
            r@.rev == 1,
            !r@.deleted,
    {
        ManagedObject {
            object_id: new_object_id(),
            entity: entity.to_string(),
            values: Table::new(),
            rev: 1,
            updated_at: utc_now(),
            deleted: false,
        }
    }

    /// A new object of `entity` with the given id, no attributes, revision 1,
    /// stamped now.
    pub fn with_id(entity: &str, id: &str) -> (r: ManagedObject)
        ensures
            r@.entity == entity@,
            r@.object_id == id@,
            r@.values == Seq::<(Seq<char>, Val)>::empty(),
            r@.rev == 1,
            !r@.deleted,
    {
        ManagedObject {
            object_id: id.to_string(),
            entity: entity.to_string(),
            values: Table::new(),
            rev: 1,
            updated_at: utc_now(),
            deleted: false,
        }
    }

    /// The value of attribute `key`.
    pub fn get(&self, key: &str) -> (r: Option<&Value>)
        ensures
            match r {
                Some(v) => lookup(self@.values, key@) == Some(v.view()),
                None => lookup(self@.values, key@) is None,
            },
    {
        self.values.get(key)
    }

    /// Count one more change: the revision goes up (wrapping) and the time is now.
    fn bump(&mut self)
        ensures
            final(self)@ == (ObjectView {
                rev: next_rev(old(self).rev),
                updated_at: final(self).updated_at,
                ..old(self)@
            }),
    {
        self.rev = self.rev.wrapping_add(1);
        self.updated_at = utc_now();
    }

    /// Set attribute `key` to `value` (in place when present, else appended)
    /// and count a change.
    pub fn set(&mut self, key: &str, value: Value)
        ensures
            final(self)@ == (ObjectView {
                values: insert_entry(old(self)@.values, key@, value.view()),
                rev: next_rev(old(self).rev),
                updated_at: final(self).updated_at,
                ..old(self)@
            }),
    {
        self.values.insert(key.to_string(), value);
        self.bump();
    }

    /// Remove attribute `key`, giving back its value; a change is counted
    /// only when there was one.
    pub fn remove(&mut self, key: &str) -> (r: Option<Value>)
        ensures
            match r {
                Some(v) => lookup(old(self)@.values, key@) == Some(v.view()) && final(self)@ == (
                ObjectView {
                    values: remove_entry(old(self)@.values, key@),
                    rev: next_rev(old(self).rev),
                    updated_at: final(self).updated_at,
                    ..old(self)@
                }),
                None => !has_key(old(self)@.values, key@) && final(self)@ == old(self)@,
            },
    {
        let v = self.values.shift_remove(key);
        if v.is_some() {
            self.bump();
        } else {
            assert(remove_entry(old(self)@.values, key@) == old(self)@.values);
        }
        v
    }

    /// Whether attribute `key` is present.
    pub fn contains(&self, key: &str) -> (r: bool)
        ensures
            r == has_key(self@.values, key@),
    {
        self.values.contains_key(key)
    }

    /// Soft-delete: set the marker and count a change.
    pub fn mark_deleted(&mut self)
        ensures
            final(self)@ == (ObjectView {
                deleted: true,
                rev: next_rev(old(self).rev),
                updated_at: final(self).updated_at,
                ..old(self)@
            }),
    {
        self.deleted = true;
        self.bump();
    }

    /// The table that represents this object in a `.fico` document.
    pub fn to_fish_value(&self) -> (r: Value)
        ensures
            r.view() == Val::Table(fish_entries(self@)),
            keys_unique(self@.values),
    {
        let ghost all = meta_entries(self@) + self@.values;
        let mut t = Table::new();
        t.insert("object_id".to_string(), Value::Text(self.object_id.clone()));
        assert(table_entries(t) == insert_all(Seq::empty(), all.take(1))) by {
            assert(all.take(1).drop_last() =~= Seq::<(Seq<char>, Val)>::empty());
            assert(insert_all(Seq::empty(), all.take(1).drop_last()) == Seq::<
                (Seq<char>, Val),
            >::empty());
            assert(all.take(1).last() == all[0]);
        }
        t.insert("entity".to_string(), Value::Text(self.entity.clone()));
        assert(table_entries(t) == insert_all(Seq::empty(), all.take(2))) by {
            assert(all.take(2).drop_last() =~= all.take(1));
        }
        t.insert("rev".to_string(), Value::Integer(#[verifier::truncate] (self.rev as i64)));
        assert(table_entries(t) == insert_all(Seq::empty(), all.take(3))) by {
            assert(all.take(3).drop_last() =~= all.take(2));
        }
        let stamp = rfc3339(&self.updated_at);
        t.insert("updated_at".to_string(), Value::Text(stamp));
        assert(table_entries(t) == insert_all(Seq::empty(), all.take(4))) by {
            assert(all.take(4).drop_last() =~= all.take(3));
        }
        t.insert("deleted".to_string(), Value::Bool(self.deleted));
        assert(table_entries(t) == insert_all(Seq::empty(), all.take(5))) by {
            assert(all.take(5).drop_last() =~= all.take(4));
        }
        let n = self.values.len();
        let mut i: usize = 0;
        while i < n
            invariant
                n == self@.values.len(),
                all == meta_entries(self@) + self@.values,
                i <= n,
                table_entries(t) == insert_all(Seq::empty(), all.take(5 + i)),
                forall|a: int, j: int|
                    0 <= a < i && 0 <= j < n && j != a ==> #[trigger] self@.values[j].0
                        != #[trigger] self@.values[a].0,
            decreases n - i,
        {
            let (k, v) = self.values.entry(i);
            assert(self@.values[i as int].0 == k@);
            t.insert(k.clone(), v.clone());
            i = i + 1;
            assert(all.take(5 + i).drop_last() =~= all.take(5 + i - 1));
            assert(all.take(5 + i).last() == self@.values[i - 1]);
        }
        assert(all.take(5 + n) =~= all);
        assert(keys_unique(self@.values)) by {
            assert forall|a: int, b: int| 0 <= a < b < n implies self@.values[a].0 != self@.values[b].0 by {
                assert(self@.values[b].0 != self@.values[a].0);
            }
        }
        Value::Table(t)
    }

    /// Rebuild an object from its table in a `.fico` document: `entity_hint`
    /// is its entity, `id` its id unless the table names one; unknown or
    /// ill-typed bookkeeping entries are skipped; every other entry is an
    /// attribute. `None` when `v` is no table.
    pub fn from_fish_value(entity_hint: &str, id: &str, v: &Value) -> (r: Option<ManagedObject>)
        ensures
            match v.view() {
                Val::Table(es) => r matches Some(o) && exists|t0: Timestamp|
                    {
                        &&& o@ == decode_entries(es, #[trigger] decode_start(entity_hint@, id@, t0))
                        &&& o@ == (ObjectView {
                            values: attribute_entries(es),
                            ..decoded_by_lookup(es, decode_start(entity_hint@, id@, t0))
                        })
                    },
                _ => r is None,
            },
    {
        let table = match v.as_table() {
            Some(t) => t,
            None => {
                return None;
            },
        };
        let k_object_id = "object_id".to_string();
        let k_rev = "rev".to_string();
        let k_updated_at = "updated_at".to_string();
        let k_deleted = "deleted".to_string();
        let k_entity = "entity".to_string();
        let start_time = utc_now();
        let mut obj = ManagedObject {
            object_id: id.to_string(),
            entity: entity_hint.to_string(),
            values: Table::new(),
            rev: 1,
            updated_at: start_time,
            deleted: false,
        };
        let ghost es = table_entries(*table);
        let n = table.len();
        let mut i: usize = 0;
        assert(es.take(0) =~= Seq::<(Seq<char>, Val)>::empty());
        while i < n
            invariant
                es == table_entries(*table),
                n == es.len(),
                i <= n,
                k_object_id@ == "object_id"@,
                k_rev@ == "rev"@,
                k_updated_at@ == "updated_at"@,
                k_deleted@ == "deleted"@,
                k_entity@ == "entity"@,
                obj@ == decode_entries(
                    es.take(i as int),
                    decode_start(entity_hint@, id@, start_time),
                ),
                forall|a: int, j: int|
                    0 <= a < i && 0 <= j < es.len() && j != a ==> #[trigger] es[j].0 != #[trigger] es[a].0,
            decreases n - i,
        {
            let (k, val) = table.entry(i);
            assert(es[i as int].0 == k@);
            assert(es.take(i + 1).drop_last() =~= es.take(i as int));
            assert(es.take(i + 1).last() == es[i as int]);
            if *k == k_object_id {
                if let Some(s) = val.as_str() {
                    obj.object_id = s.to_string();
                }
            } else if *k == k_rev {
                if let Some(x) = val.as_i64() {
                    obj.rev = #[verifier::truncate] (x as u64);
                }
            } else if *k == k_updated_at {
                if let Some(s) = val.as_str() {
                    if let Some(t) = parse_time(s) {
                        obj.updated_at = t;
                    }
                }
            } else if *k == k_deleted {
                if let Some(b) = val.as_bool() {
                    obj.deleted = b;
                }
            } else if *k == k_entity {
            } else {
                obj.values.insert(k.clone(), val.clone());
            }
            i = i + 1;
        }
        assert(es.take(n as int) =~= es);
        let ghost start = decode_start(entity_hint@, id@, start_time);
        assert(obj@ == decode_entries(es, start));
        proof {
            assert(keys_unique(es)) by {
                assert forall|a: int, b: int| 0 <= a < b < es.len() implies es[a].0 != es[b].0 by {
                    assert(es[b].0 != es[a].0);
                }
            }
            lemma_decode_by_lookup(es, start);
            lemma_attribute_entries_unique(es);
            assert(Seq::<(Seq<char>, Val)>::empty() + attribute_entries(es) =~= attribute_entries(es));
            lemma_insert_all_from(Seq::empty(), attribute_entries(es));
        }
        Some(obj)
    }

    /// The text of attribute `key` when it is a text.
    pub fn get_str(&self, key: &str) -> (r: Option<&str>)
        ensures
            match lookup(self@.values, key@) {
                Some(Val::Text(s)) => r matches Some(x) && x@ == s,
                _ => r is None,
            },
    {
        match self.get(key) {
            Some(v) => v.as_str(),
            None => None,
        }
    }

    /// The number of attribute `key` when it is an integer.
    pub fn get_i64(&self, key: &str) -> (r: Option<i64>)
        ensures
            r == (match lookup(self@.values, key@) {
                Some(Val::Integer(i)) => Some(i),
                _ => None::<i64>,
            }),
    {
        match self.get(key) {
            Some(v) => v.as_i64(),
            None => None,
        }
    }

    /// The flag of attribute `key` when it is a boolean.
    pub fn get_bool(&self, key: &str) -> (r: Option<bool>)
        ensures
            r == (match lookup(self@.values, key@) {
                Some(Val::Bool(b)) => Some(b),
                _ => None::<bool>,
            }),
    {
        match self.get(key) {
            Some(v) => v.as_bool(),
            None => None,
        }
    }
}

/// The keys that `to_fish_value` uses for bookkeeping.
pub open spec fn reserved_key(k: Seq<char>) -> bool {
    ||| k == "object_id"@
    ||| k == "entity"@
    ||| k == "rev"@
    ||| k == "updated_at"@
    ||| k == "deleted"@
}

proof fn lemma_decode_split(a: Seq<(Seq<char>, Val)>, b: Seq<(Seq<char>, Val)>, acc: ObjectView)
    ensures
        decode_entries(a + b, acc) == decode_entries(b, decode_entries(a, acc)),
    decreases b.len(),
{
    if b.len() == 0 {
        assert(a + b =~= a);
    } else {
        lemma_decode_split(a, b.drop_last(), acc);
        assert((a + b).drop_last() =~= a + b.drop_last());
        assert((a + b).last() == b.last());
    }
}

proof fn lemma_decode_attributes(es: Seq<(Seq<char>, Val)>, acc: ObjectView)
    requires
        forall|i: int| 0 <= i < es.len() ==> !reserved_key(#[trigger] es[i].0),
    ensures
        decode_entries(es, acc) == (ObjectView { values: insert_all(acc.values, es), ..acc }),
    decreases es.len(),
{
    if es.len() > 0 {
        lemma_decode_attributes(es.drop_last(), acc);
        assert(!reserved_key(es[es.len() - 1].0));
    }
}

proof fn lemma_insert_all_from(base: Seq<(Seq<char>, Val)>, es: Seq<(Seq<char>, Val)>)
    requires
        keys_unique(base + es),
    ensures
        insert_all(base, es) == base + es,
    decreases es.len(),
{
    if es.len() > 0 {
        let e1 = es.drop_last();
        assert(base + e1 =~= (base + es).drop_last());
        assert(keys_unique(base + e1));
        lemma_insert_all_from(base, e1);
        let k = es.last().0;
        assert forall|j: int| 0 <= j < (base + e1).len() implies (base + e1)[j].0 != k by {
            assert((base + e1)[j] == (base + es)[j]);
            assert((base + es)[(base + es).len() - 1].0 == k);
        }
        lemma_insert_fresh(base + e1, k, es.last().1);
        assert((base + e1).push(es.last()) =~= base + es);
    }
}

/// The attribute entries of a stored table: those whose keys are not
/// bookkeeping keys, in order.
pub open spec fn attribute_entries(es: Seq<(Seq<char>, Val)>) -> Seq<(Seq<char>, Val)>
    decreases es.len(),
{
    if es.len() == 0 {
        Seq::empty()
    } else if reserved_key(es.last().0) {
        attribute_entries(es.drop_last())
    } else {
        attribute_entries(es.drop_last()).push(es.last())
    }
}

/// The attribute entries of a table with each key once have each key once,
/// and each is an entry of the table.
proof fn lemma_attribute_entries_unique(es: Seq<(Seq<char>, Val)>)
    requires
        keys_unique(es),
    ensures
        keys_unique(attribute_entries(es)),
        forall|x: int|
            0 <= x < attribute_entries(es).len() ==> exists|r: int|
                0 <= r < es.len() && #[trigger] attribute_entries(es)[x] == #[trigger] es[r],
    decreases es.len(),
{
    if es.len() > 0 {
        let e1 = es.drop_last();
        assert(keys_unique(e1)) by {
            assert forall|a: int, b: int| 0 <= a < b < e1.len() implies e1[a].0 != e1[b].0 by {
                assert(e1[a] == es[a] && e1[b] == es[b]);
            }
        }
        lemma_attribute_entries_unique(e1);
        let a1 = attribute_entries(e1);
        let a = attribute_entries(es);
        assert forall|x: int| 0 <= x < a.len() implies exists|r: int|
            0 <= r < es.len() && #[trigger] a[x] == #[trigger] es[r] by {
            if x < a1.len() {
                assert(a[x] == a1[x]);
                let r = choose|r: int| 0 <= r < e1.len() && a1[x] == #[trigger] e1[r];
                assert(e1[r] == es[r]);
            } else {
                assert(es[es.len() - 1] == es.last());
            }
        }
        if !reserved_key(es.last().0) {
            assert forall|p: int, q: int| 0 <= p < q < a.len() implies a[p].0 != a[q].0 by {
                if q == a.len() - 1 {
                    assert(a[p] == a1[p]);
                    let r = choose|r: int| 0 <= r < e1.len() && a1[p] == #[trigger] e1[r];
                    assert(e1[r] == es[r]);
                    assert(es[es.len() - 1] == es.last());
                } else {
                    assert(a[p] == a1[p] && a[q] == a1[q]);
                }
            }
        }
    }
}

/// What decoding a table with each key once gives: each bookkeeping field
/// from its entry where that entry has the right kind (the start's value
/// otherwise), and the attributes inserted in turn.
pub open spec fn decoded_by_lookup(es: Seq<(Seq<char>, Val)>, start: ObjectView) -> ObjectView {
    ObjectView {
        object_id: match lookup(es, "object_id"@) {
            Some(Val::Text(s)) => s,
            _ => start.object_id,
        },
        entity: start.entity,
        values: insert_all(start.values, attribute_entries(es)),
        rev: match lookup(es, "rev"@) {
            Some(Val::Integer(i)) => #[verifier::truncate] (i as u64),
            _ => start.rev,
        },
        updated_at: match lookup(es, "updated_at"@) {
            Some(Val::Text(s)) => match parsed_time(s) {
                Some(t) => t,
                None => start.updated_at,
            },
            _ => start.updated_at,
        },
        deleted: match lookup(es, "deleted"@) {
            Some(Val::Bool(b)) => b,
            _ => start.deleted,
        },
    }
}

/// Where each key occurs once, decoding the entries in turn is reading each
/// bookkeeping entry by its key.
pub proof fn lemma_decode_by_lookup(es: Seq<(Seq<char>, Val)>, start: ObjectView)
    requires
        keys_unique(es),
    ensures
        decode_entries(es, start) == decoded_by_lookup(es, start),
    decreases es.len(),
{
    reveal_strlit("object_id");
    reveal_strlit("entity");
    reveal_strlit("rev");
    reveal_strlit("updated_at");
    reveal_strlit("deleted");
    assert("object_id"@.len() == 9 && "entity"@.len() == 6 && "rev"@.len() == 3
        && "updated_at"@.len() == 10 && "deleted"@.len() == 7);
    if es.len() > 0 {
        let e1 = es.drop_last();
        let (k, v) = es.last();
        assert(keys_unique(e1)) by {
            assert forall|a: int, b: int| 0 <= a < b < e1.len() implies e1[a].0 != e1[b].0 by {
                assert(e1[a] == es[a] && e1[b] == es[b]);
            }
        }
        lemma_decode_by_lookup(e1, start);
        crate::assoc::lemma_key_pos(e1, k);
        assert(!has_key(e1, k)) by {
            if has_key(e1, k) {
                let q = crate::assoc::key_pos(e1, k);
                assert(e1[q] == es[q]);
                assert(es[es.len() - 1].0 == k);
            }
        }
        assert(es =~= e1.push((k, v)));
        assert(insert_entry(e1, k, v) == e1.push((k, v)));
        crate::assoc::law_lookup_after_insert(e1, k, v, "object_id"@);
        crate::assoc::law_lookup_after_insert(e1, k, v, "rev"@);
        crate::assoc::law_lookup_after_insert(e1, k, v, "updated_at"@);
        crate::assoc::law_lookup_after_insert(e1, k, v, "deleted"@);
        let d1 = decode_entries(e1, start);
        assert(decode_entries(es, start) == decode_step(d1, k, v));
        let a1 = attribute_entries(e1);
        if reserved_key(k) {
            assert(attribute_entries(es) == a1);
        } else {
            assert(attribute_entries(es) == a1.push((k, v)));
            assert(a1.push((k, v)).drop_last() =~= a1);
            assert(insert_all(start.values, a1.push((k, v))) == insert_entry(
                insert_all(start.values, a1),
                k,
                v,
            ));
        }
        assert(lookup(e1, k) is None);
        assert(decode_step(d1, k, v) =~= decoded_by_lookup(es, start));
    }
}

/// A stored object reads back as itself: decoding the table that
/// `to_fish_value` writes (under the object's entity, whatever id the caller
/// supplies and whatever starting time) gives the same object, provided its
/// attribute keys are unique (as `to_fish_value` shows they are for every
/// object) and none is a bookkeeping key, and chrono reads its RFC 3339 time
/// text back as the same time.
pub proof fn law_fish_value_roundtrip(o: ObjectView, id: Seq<char>, t0: Timestamp)
    requires
        keys_unique(o.values),
        forall|i: int| 0 <= i < o.values.len() ==> !reserved_key(#[trigger] o.values[i].0),
        parsed_time(rfc3339_of(o.updated_at)) == Some(o.updated_at),
    ensures
        decode_entries(fish_entries(o), decode_start(o.entity, id, t0)) == o,
{
    reveal_strlit("object_id");
    reveal_strlit("entity");
    reveal_strlit("rev");
    reveal_strlit("updated_at");
    reveal_strlit("deleted");
    assert("object_id"@.len() == 9 && "entity"@.len() == 6 && "rev"@.len() == 3
        && "updated_at"@.len() == 10 && "deleted"@.len() == 7);
    let r = o.rev;
    assert(((r as i64) as u64) == r) by (bit_vector);
    let meta = meta_entries(o);
    let all = meta + o.values;
    assert(keys_unique(all)) by {
        assert forall|i: int, j: int| 0 <= i < j < all.len() implies all[i].0 != all[j].0 by {
            if j >= 5 {
                assert(all[j] == o.values[j - 5]);
                if i >= 5 {
                    assert(all[i] == o.values[i - 5]);
                } else {
                    assert(all[i] == meta[i]);
                    assert(reserved_key(all[i].0));
                }
            } else {
                assert(all[i] == meta[i]);
                assert(all[j] == meta[j]);
            }
        }
    }
    lemma_insert_all_unique(all);
    lemma_decode_split(meta, o.values, decode_start(o.entity, id, t0));
    let start = decode_start(o.entity, id, t0);
    assert(meta.take(0) =~= Seq::<(Seq<char>, Val)>::empty());
    assert forall|k: int| 1 <= k <= 5 implies #[trigger] meta.take(k).drop_last() =~= meta.take(k - 1)
        && meta.take(k).last() == meta[k - 1] by {}
    assert(decode_entries(meta.take(0), start) == start);
    let d1 = decode_entries(meta.take(1), start);
    assert(meta.take(1).drop_last() =~= meta.take(0));
    assert(meta.take(1).last() == ("object_id"@, Val::Text(o.object_id)));
    assert(d1 == ObjectView { object_id: o.object_id, ..start });
    let d2 = decode_entries(meta.take(2), start);
    assert(d2 == d1);
    let d3 = decode_entries(meta.take(3), start);
    assert(d3 == ObjectView { rev: o.rev, ..d2 });
    let d4 = decode_entries(meta.take(4), start);
    assert(d4 == ObjectView { updated_at: o.updated_at, ..d3 });
    let d5 = decode_entries(meta.take(5), start);
    assert(d5 == ObjectView { deleted: o.deleted, ..d4 });
    assert(meta.take(5) =~= meta);
    let after = decode_entries(meta, start);
    assert(after == ObjectView { values: Seq::empty(), ..o });
    lemma_decode_attributes(o.values, after);
    lemma_insert_all_from(Seq::empty(), o.values);
    assert(Seq::<(Seq<char>, Val)>::empty() + o.values =~= o.values);
}

/// Decoding never changes the entity it starts from.
pub proof fn lemma_decode_keeps_entity(es: Seq<(Seq<char>, Val)>, acc: ObjectView)
    ensures
        decode_entries(es, acc).entity == acc.entity,
    decreases es.len(),
{
    if es.len() > 0 {
        lemma_decode_keeps_entity(es.drop_last(), acc);
    }
}

/// The type of an attribute in an entity description.
#[derive(PartialEq, Eq, Structural, Clone, Copy, Debug)]
pub enum AttributeType {
    String,
    Integer,
    Float,
    Boolean,
    Date,
    Binary,
    Transformable,
}

/// One attribute of an entity description: a schema hint.
#[derive(Debug)]
pub struct AttributeDescription {
    pub name: String,
    pub attribute_type: AttributeType,
    pub optional: bool,
    pub default_value: Option<Value>,
}

/// What an attribute description is, as mathematics.
pub struct AttributeDescriptionView {
    pub name: Seq<char>,
    pub attribute_type: AttributeType,
    pub optional: bool,
    pub default_value: Option<Val>,
}

impl View for AttributeDescription {
    type V = AttributeDescriptionView;

    open spec fn view(&self) -> AttributeDescriptionView {
        AttributeDescriptionView {
            name: self.name@,
            attribute_type: self.attribute_type,
            optional: self.optional,
            default_value: match self.default_value {
                Some(v) => Some(v.view()),
                None => None,
            },
        }
    }
}

/// An entity description: a name and attribute hints (no strict validation).
#[derive(Debug)]
pub struct EntityDescription {
    pub name: String,
    pub attributes: Vec<AttributeDescription>,
}

/// What an entity description is, as mathematics.
pub struct EntityDescriptionView {
    pub name: Seq<char>,
    pub attributes: Seq<AttributeDescriptionView>,
}

impl View for EntityDescription {
    type V = EntityDescriptionView;

    open spec fn view(&self) -> EntityDescriptionView {
        EntityDescriptionView {
            name: self.name@,
            attributes: Seq::new(self.attributes@.len(), |i: int| self.attributes@[i]@),
        }
    }
}

impl EntityDescription {
    /// A description of entity `name` with no attributes.
    pub fn new(name: &str) -> (r: EntityDescription)
        ensures
            r@ == (EntityDescriptionView {
                name: name@,
                attributes: Seq::<AttributeDescriptionView>::empty(),
            }),
    {
        let r = EntityDescription { name: name.to_string(), attributes: Vec::new() };
        assert(r@.attributes =~= Seq::<AttributeDescriptionView>::empty());
        r
    }

    /// The description with `attr` added last.
    pub fn with_attribute(self, attr: AttributeDescription) -> (r: EntityDescription)
        ensures
            r@ == (EntityDescriptionView { attributes: self@.attributes.push(attr@), ..self@ }),
    {
        let mut s = self;
        let ghost before = s@.attributes;
        let ghost av = attr@;
        s.attributes.push(attr);
        assert(s@.attributes =~= before.push(av));
        s
    }
}

} // verus!
