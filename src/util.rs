use vstd::hash_map::StringHashMap;
use vstd::prelude::*;

verus! {

/// Replaces the value stored under `key` by `func` applied to it, or fails
/// with `err`, leaving the map as it was, when `key` is absent.
pub fn modifyVariable<E, V: Copy, F: FnOnce(V) -> V>(
    hashMap: &mut StringHashMap<V>,
    key: String,
    func: F,
    err: E,
) -> (r: Result<(), E>)
    requires
        old(hashMap)@.contains_key(key@) ==> func.requires((old(hashMap)@[key@],)),
    ensures
        r is Ok <==> old(hashMap)@.contains_key(key@),
        r matches Err(e) ==> e == err && final(hashMap)@ == old(hashMap)@,
        r is Ok ==> final(hashMap)@ == old(hashMap)@.insert(key@, final(hashMap)@[key@])
            && func.ensures((old(hashMap)@[key@],), final(hashMap)@[key@]),
{
    match hashMap.get(key.as_str()) {
        Some(o) => {
            let current: V = *o;
            let updated = func(current);
            hashMap.insert(key, updated);
            proof {
                assert(final(hashMap)@[key@] == updated);
            }
            Ok(())
        },
        None => Err(err),
    }
}

} // verus!
