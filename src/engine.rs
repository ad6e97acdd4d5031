use vstd::hash_map::StringHashMap;
use vstd::prelude::*;

use crate::error::RunErr;
use crate::util;

verus! {

/// The store after creating `n` with value `v`, and whether that succeeded:
/// it fails, changing nothing, when `n` already exists.
pub open spec fn create_spec(m: Map<Seq<char>, i32>, n: Seq<char>, v: i32) -> (
    Map<Seq<char>, i32>,
    Result<(), RunErr>,
) {
    if m.contains_key(n) {
        (m, Err(RunErr::TriedToInitializeExistingVariable))
    } else {
        (m.insert(n, v), Ok(()))
    }
}

/// The value of `n` in the store, or the error for a name that does not exist.
pub open spec fn read_spec(m: Map<Seq<char>, i32>, n: Seq<char>) -> Result<i32, RunErr> {
    if m.contains_key(n) {
        Ok(m[n])
    } else {
        Err(RunErr::TriedToGetNonexistentVariable)
    }
}

/// The variable store: a table from variable name to its current value.
pub struct Storage {
    variables: StringHashMap<i32>,
}

impl View for Storage {
    type V = Map<Seq<char>, i32>;

    closed spec fn view(&self) -> Map<Seq<char>, i32> {
        self.variables@
    }
}

impl Default for Storage {
    /// An empty store.
    fn default() -> (r: Storage)
        ensures
            r@ == Map::<Seq<char>, i32>::empty(),
    {
        Storage::new()
    }
}

impl Storage {
    /// An empty store.
    pub fn new() -> (r: Storage)
        ensures
            r@ == Map::<Seq<char>, i32>::empty(),
    {
        Storage { variables: StringHashMap::new() }
    }

    /// Forgets every variable.
    pub fn clear(&mut self)
        ensures
            final(self)@ == Map::<Seq<char>, i32>::empty(),
    {
        self.variables.clear();
    }

    /// Creates `variable` with value `val`; fails, changing nothing, when it exists.
    pub fn createVariable(&mut self, variable: String, val: i32) -> (r: Result<(), RunErr>)
        ensures
            (final(self)@, r) == create_spec(old(self)@, variable@, val),
    {
        if self.variables.contains_key(variable.as_str()) {
            Err(RunErr::TriedToInitializeExistingVariable)
        } else {
            self.variables.insert(variable, val);
            Ok(())
        }
    }

    /// Replaces the value of `key` by `func` applied to it; fails, changing
    /// nothing, when `key` does not exist.
    pub fn modifyVariable<F: FnOnce(i32) -> i32>(&mut self, key: String, func: F) -> (r: Result<
        (),
        RunErr,
    >)
        requires
            old(self)@.contains_key(key@) ==> func.requires((old(self)@[key@],)),
        ensures
            r is Ok <==> old(self)@.contains_key(key@),
            r matches Err(e) ==> e == RunErr::TriedToModifyNonexistentVariable
                && final(self)@ == old(self)@,
            r is Ok ==> final(self)@ == old(self)@.insert(key@, final(self)@[key@])
                && func.ensures((old(self)@[key@],), final(self)@[key@]),
    {
        util::modifyVariable(
            &mut self.variables,
            key,
            func,
            RunErr::TriedToModifyNonexistentVariable,
        )
    }

    /// The value of `key`; fails when it does not exist.
    pub fn getValue(&self, key: String) -> (r: Result<i32, RunErr>)
        ensures
            r == read_spec(self@, key@),
    {
        match self.variables.get(key.as_str()) {
            Some(v) => Ok(*v),
            None => Err(RunErr::TriedToGetNonexistentVariable),
        }
    }
}

} // verus!
