//! Attribute values: the FishFile value model, and the ordered key/value
//! table (an `IndexMap`) that objects and tables are made of.

use vstd::prelude::*;

use crate::assoc::{has_key, insert_entry, lookup, remove_entry};
use crate::text::{bool_chars, bool_text, int_chars, int_text, string_of};

verus! {

broadcast use {
    vstd::string::group_string_axioms,
    vstd::std_specs::vec::group_vec_axioms,
    vstd::seq::group_seq_axioms,
};

/// An attribute value.
///
/// `Float` holds the number as the decimal text that Rust's `Display` gives
/// for it (the shortest text that parses back to the same `f64`).
#[derive(Debug)]
pub enum Value {
    Null,
    Bool(bool),
    Integer(i64),
    Float(String),
    Text(String),
    Array(Vec<Value>),
    Table(Table),
}

/// An ordered map from keys to values: keys are unique, and entries keep the
/// order in which their keys were first inserted.
#[derive(Debug)]
#[verifier::external_body]
pub struct Table {
    map: indexmap::IndexMap<String, Value>,
}

/// What a value is, as mathematics.
pub enum Val {
    Null,
    Bool(bool),
    Integer(i64),
    Float(Seq<char>),
    Text(Seq<char>),
    Array(Seq<Val>),
    Table(Seq<(Seq<char>, Val)>),
}

/// The entries of a table, in order, each key with the value it holds.
pub uninterp spec fn table_entries(t: Table) -> Seq<(Seq<char>, Val)>;

impl Value {
    pub open spec fn view(&self) -> Val
        decreases self,
    {
        match self {
            Value::Null => Val::Null,
            Value::Bool(b) => Val::Bool(*b),
            Value::Integer(i) => Val::Integer(*i),
            Value::Float(s) => Val::Float(s@),
            Value::Text(s) => Val::Text(s@),
            Value::Array(v) => Val::Array(
                Seq::new(
                    v@.len(),
                    |i: int|
                        if 0 <= i < v@.len() {
                            v@[i].view()
                        } else {
                            Val::Null
                        },
                ),
            ),
            Value::Table(t) => Val::Table(table_entries(*t)),
        }
    }
}

impl Table {
    /// `IndexMap::new`.
    #[verifier::external_body]
    pub fn new() -> (r: Table)
        ensures
            table_entries(r) == Seq::<(Seq<char>, Val)>::empty(),
    {
        Table { map: indexmap::IndexMap::new() }
    }

    /// `IndexMap::len`.
    #[verifier::external_body]
    pub fn len(&self) -> (r: usize)
        ensures
            r == table_entries(*self).len(),
    {
        self.map.len()
    }

    /// `IndexMap::get_index`: the key and value of the entry at position `i`.
    /// A map holds each key once, so no other entry has that key.
    #[verifier::external_body]
    pub fn entry(&self, i: usize) -> (r: (&String, &Value))
        requires
            i < table_entries(*self).len(),
        ensures
            table_entries(*self)[i as int] == (r.0@, r.1.view()),
            forall|j: int|
                0 <= j < table_entries(*self).len() && j != i ==> #[trigger] table_entries(
                    *self,
                )[j].0 != r.0@,
    {
        self.map.get_index(i).unwrap()
    }

    /// `IndexMap::get`.
    #[verifier::external_body]
    pub fn get(&self, key: &str) -> (r: Option<&Value>)
        ensures
            match r {
                Some(v) => lookup(table_entries(*self), key@) == Some(v.view()),
                None => lookup(table_entries(*self), key@) is None,
            },
    {
        self.map.get(key)
    }

    /// `IndexMap::contains_key`.
    #[verifier::external_body]
    pub fn contains_key(&self, key: &str) -> (r: bool)
        ensures
            r == has_key(table_entries(*self), key@),
    {
        self.map.contains_key(key)
    }

    /// `IndexMap::insert`.
    #[verifier::external_body]
    pub fn insert(&mut self, key: String, value: Value) -> (r: Option<Value>)
        ensures
            table_entries(*final(self)) == insert_entry(
                table_entries(*old(self)),
                key@,
                value.view(),
            ),
            match r {
                Some(v) => lookup(table_entries(*old(self)), key@) == Some(v.view()),
                None => !has_key(table_entries(*old(self)), key@),
            },
    {
        self.map.insert(key, value)
    }

    /// `IndexMap::shift_remove`.
    #[verifier::external_body]
    pub fn shift_remove(&mut self, key: &str) -> (r: Option<Value>)
        ensures
            table_entries(*final(self)) == remove_entry(table_entries(*old(self)), key@),
            match r {
                Some(v) => lookup(table_entries(*old(self)), key@) == Some(v.view()),
                None => !has_key(table_entries(*old(self)), key@),
            },
    {
        self.map.shift_remove(key)
    }

}

impl Clone for Table {
    /// `IndexMap::clone`: the same entries in the same order.
    #[verifier::external_body]
    fn clone(&self) -> (r: Table)
        ensures
            table_entries(r) == table_entries(*self),
    {
        Table { map: self.map.clone() }
    }
}

impl Value {
    /// A text value.
    pub fn text(s: &str) -> (r: Value)
        ensures
            r.view() == Val::Text(s@),
    {
        Value::Text(s.to_string())
    }

    /// A copy of the value.
    pub fn duplicate(&self) -> (r: Value)
        ensures
            r.view() == self.view(),
        decreases self,
    {
        match self {
            Value::Null => Value::Null,
            Value::Bool(b) => Value::Bool(*b),
            Value::Integer(i) => Value::Integer(*i),
            Value::Float(s) => Value::Float(s.clone()),
            Value::Text(s) => Value::Text(s.clone()),
            Value::Array(v) => {
                let mut out: Vec<Value> = Vec::new();
                let mut i: usize = 0;
                while i < v.len()
                    invariant
                        *self == Value::Array(*v),
                        i <= v@.len(),
                        out@.len() == i,
                        forall|j: int| 0 <= j < i ==> #[trigger] out@[j].view() == v@[j].view(),
                    decreases v@.len() - i,
                {
                    proof {
                        assert(decreases_to!(*self => (*self)->Array_0));
                        assert(decreases_to!(*v => v[i as int]));
                    }
                    let c = v[i].duplicate();
                    out.push(c);
                    i = i + 1;
                }
                let r = Value::Array(out);
                assert(r.view() == self.view()) by {
                    let x = r.view()->Array_0;
                    let y = self.view()->Array_0;
                    assert(x.len() == y.len());
                    assert forall|j: int| 0 <= j < x.len() implies x[j] == y[j] by {
                        assert(x[j] == out@[j].view());
                        assert(y[j] == v@[j].view());
                    }
                    assert(x =~= y);
                }
                r
            },
            Value::Table(t) => Value::Table(t.clone()),
        }
    }

    /// `as_str`: the text of a `Text` value.
    pub fn as_str(&self) -> (r: Option<&str>)
        ensures
            match self.view() {
                Val::Text(s) => r matches Some(x) && x@ == s,
                _ => r is None,
            },
    {
        match self {
            Value::Text(s) => Some(s.as_str()),
            _ => None,
        }
    }

    /// `as_i64`: the number of an `Integer` value.
    pub fn as_i64(&self) -> (r: Option<i64>)
        ensures
            r == (match self.view() {
                Val::Integer(i) => Some(i),
                _ => None::<i64>,
            }),
    {
        match self {
            Value::Integer(i) => Some(*i),
            _ => None,
        }
    }

    /// `as_bool`: the flag of a `Bool` value.
    pub fn as_bool(&self) -> (r: Option<bool>)
        ensures
            r == (match self.view() {
                Val::Bool(b) => Some(b),
                _ => None::<bool>,
            }),
    {
        match self {
            Value::Bool(b) => Some(*b),
            _ => None,
        }
    }

    /// `as_table`: the table of a `Table` value.
    pub fn as_table(&self) -> (r: Option<&Table>)
        ensures
            match self.view() {
                Val::Table(es) => r matches Some(t) && table_entries(*t) == es,
                _ => r is None,
            },
    {
        match self {
            Value::Table(t) => Some(t),
            _ => None,
        }
    }

    /// The text that `Display` gives for a scalar value (text, integer,
    /// float, boolean); `None` for the others.
    pub fn scalar_text(&self) -> (r: Option<String>)
        ensures
            match r {
                Some(s) => scalar_text_of(self.view()) == Some(s@),
                None => scalar_text_of(self.view()) is None,
            },
    {
        match self {
            Value::Text(s) => Some(s.clone()),
            Value::Integer(i) => {
                let cs = int_chars(*i);
                Some(string_of(&cs))
            },
            Value::Float(s) => Some(s.clone()),
            Value::Bool(b) => {
                let cs = bool_chars(*b);
                Some(string_of(&cs))
            },
            _ => None,
        }
    }
}

impl Clone for Value {
    fn clone(&self) -> (r: Value)
        ensures
            r.view() == self.view(),
    {
        self.duplicate()
    }
}

/// The text of a scalar value as `Display` writes it.
pub open spec fn scalar_text_of(v: Val) -> Option<Seq<char>> {
    match v {
        Val::Text(s) => Some(s),
        Val::Integer(i) => Some(int_text(i as int)),
        Val::Float(s) => Some(s),
        Val::Bool(b) => Some(bool_text(b)),
        _ => None,
    }
}

} // verus!
