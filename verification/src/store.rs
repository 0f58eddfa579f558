//! The kinds of persistent store.

use vstd::prelude::*;

use crate::text::{chars_eq, chars_of, concat, lowercase, lowercase_of};

verus! {

broadcast use vstd::string::group_string_axioms;

/// The backend a container keeps its objects in.
#[derive(PartialEq, Eq, Structural, Clone, Copy, Debug)]
pub enum StoreType {
    Fico,
    SQLite,
}

/// The name of a store type.
pub open spec fn store_name(t: StoreType) -> Seq<char> {
    match t {
        StoreType::Fico => "fico"@,
        StoreType::SQLite => "sqlite"@,
    }
}

/// The store type a name stands for, compared lowercased: `fico` or
/// `fishfile`, `sqlite` or `sqlite3`.
pub open spec fn store_type_named(name: Seq<char>) -> Option<StoreType> {
    let n = lowercase_of(name);
    if n == "fico"@ || n == "fishfile"@ {
        Some(StoreType::Fico)
    } else if n == "sqlite"@ || n == "sqlite3"@ {
        Some(StoreType::SQLite)
    } else {
        None
    }
}

/// The store names, as the texts they are.
proof fn lemma_store_names()
    ensures
        "fico"@ =~= seq!['f', 'i', 'c', 'o'],
        "fishfile"@ =~= seq!['f', 'i', 's', 'h', 'f', 'i', 'l', 'e'],
        "sqlite"@ =~= seq!['s', 'q', 'l', 'i', 't', 'e'],
        "sqlite3"@ =~= seq!['s', 'q', 'l', 'i', 't', 'e', '3'],
{
    reveal_strlit("fico");
    reveal_strlit("fishfile");
    reveal_strlit("sqlite");
    reveal_strlit("sqlite3");
}

/// Every store type is opened by its own name: a name that lowercases to
/// what `as_str` gives for a store type (`fico`, `sqlite`) stands for that
/// store type, and the two store types have different names.
pub proof fn law_store_name_read_back(name: Seq<char>, t: StoreType)
    ensures
        lowercase_of(name) == store_name(t) ==> store_type_named(name) == Some(t),
        store_name(StoreType::Fico) != store_name(StoreType::SQLite),
{
    lemma_store_names();
}

/// The other names a store type goes by: `fishfile` for `fico` and
/// `sqlite3` for `sqlite`, lowercased as the store names are.
pub proof fn law_store_aliases(name: Seq<char>)
    ensures
        lowercase_of(name) == "fishfile"@ ==> store_type_named(name) == Some(StoreType::Fico),
        lowercase_of(name) == "sqlite3"@ ==> store_type_named(name) == Some(StoreType::SQLite),
{
    lemma_store_names();
}

/// Whether two texts are equal.
fn same(a: &str, b: &str) -> (r: bool)
    ensures
        r == (a@ == b@),
{
    let ac = chars_of(a);
    let bc = chars_of(b);
    chars_eq(ac.as_slice(), bc.as_slice())
}

impl StoreType {
    /// The name of the store type: `fico` or `sqlite`.
    pub fn as_str(&self) -> (r: &'static str)
        ensures
            r@ == store_name(*self),
    {
        proof {
            reveal_strlit("fico");
            reveal_strlit("sqlite");
        }
        match self {
            StoreType::Fico => "fico",
            StoreType::SQLite => "sqlite",
        }
    }

    /// The store type a name stands for (see `store_type_named`); another
    /// name gives `unknown store type: <name lowercased>`.
    pub fn from_name(name: &str) -> (r: Result<StoreType, String>)
        ensures
            match store_type_named(name@) {
                Some(t) => r == Ok::<StoreType, String>(t),
                None => r matches Err(m) && m@ == "unknown store type: "@ + lowercase_of(name@),
            },
    {
        let n = lowercase(name);
        let s = n.as_str();
        if same(s, "fico") || same(s, "fishfile") {
            Ok(StoreType::Fico)
        } else if same(s, "sqlite") || same(s, "sqlite3") {
            Ok(StoreType::SQLite)
        } else {
            Err(concat("unknown store type: ", s))
        }
    }
}

} // verus!
