//! The decisions of a managed object context that hold for every kind of
//! store: saving an object as an update that falls back to an insert, and
//! finding an object by id among those fetched.

use vstd::prelude::*;

use crate::entity::{ManagedObject, ObjectView};
use crate::error::CoreDataError;
use crate::fico_store::{first_with_id, objects_view};
use crate::text::{chars_eq, chars_of};

verus! {

broadcast use vstd::string::group_string_axioms;

/// What saving an object does after the store was asked to update it.
pub enum SaveStep {
    /// The update went through: the object is saved.
    Done,
    /// The store has no such object: insert it instead.
    InsertInstead,
    /// The update failed otherwise: saving fails with that error.
    Fail(CoreDataError),
}

/// The next step of saving an object, given how the update went: done
/// when it went through, an insert when the object was not found, else
/// the update's error.
pub fn save_object_step(update: Result<(), CoreDataError>) -> (r: SaveStep)
    ensures
        match update {
            Ok(()) => r is Done,
            Err(CoreDataError::NotFound(_)) => r is InsertInstead,
            Err(e) => r == SaveStep::Fail(e),
        },
{
    match update {
        Ok(()) => SaveStep::Done,
        Err(CoreDataError::NotFound(_)) => SaveStep::InsertInstead,
        Err(e) => SaveStep::Fail(e),
    }
}

/// The first of the fetched objects with object id `id`; `NotFound(<id>)`
/// when there is none.
pub fn find_object(all: Vec<ManagedObject>, id: &str) -> (r: Result<ManagedObject, CoreDataError>)
    ensures
        match first_with_id(objects_view(all@), id@) {
            Some(o) => r matches Ok(x) && x@ == o,
            None => r matches Err(CoreDataError::NotFound(m)) && m@ == id@,
        },
{
    let ghost ov = objects_view(all@);
    let ic = chars_of(id);
    let mut i: usize = 0;
    assert(ov.skip(0) =~= ov);
    while i < all.len()
        invariant
            ov == objects_view(all@),
            i <= ov.len(),
            ic@ == id@,
            first_with_id(ov, id@) == first_with_id(ov.skip(i as int), id@),
        decreases ov.len() - i,
    {
        assert(ov.skip(i as int)[0] == ov[i as int]);
        assert(ov.skip(i as int).drop_first() =~= ov.skip(i + 1));
        let oc = chars_of(all[i].object_id.as_str());
        if chars_eq(oc.as_slice(), ic.as_slice()) {
            let found = all[i].clone();
            assert(ov[i as int] == all@[i as int]@);
            assert(first_with_id(ov.skip(i as int), id@) == Some(ov[i as int]));
            return Ok(found);
        }
        i = i + 1;
    }
    assert(ov.skip(i as int) =~= Seq::<ObjectView>::empty());
    Err(CoreDataError::NotFound(id.to_string()))
}

} // verus!
