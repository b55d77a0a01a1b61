//! Properties that relate several operations of the library.

use vstd::prelude::*;
use crate::value::{key_index, lemma_key_index, upsert, EntryModel, ValueModel};

verus! {

/// Setting a key twice, in a table where it occurs at most once, leaves
/// exactly one entry for it, holding the second value: at the
/// position it had when it was present, appended at the end otherwise.
/// Every other entry is unchanged.
pub proof fn lemma_set_twice(es: Seq<EntryModel>, key: Seq<char>, v1: ValueModel, v2: ValueModel)
    requires
        forall|a: int, b: int|
            0 <= a < es.len() && 0 <= b < es.len() && (#[trigger] es[a]).key == key && (
            #[trigger] es[b]).key == key ==> a == b,
    ensures
        ({
            let r = upsert(upsert(es, key, v1), key, v2);
            let p = key_index(es, key);
            &&& r == upsert(es, key, v2)
            &&& p <= es.len()
            &&& r.len() == if p < es.len() { es.len() } else { es.len() + 1 }
            &&& r[p] == EntryModel { key, value: v2 }
            &&& forall|m: int| 0 <= m < r.len() && m != p ==> #[trigger] r[m] == es[m]
            &&& forall|m: int| 0 <= m < r.len() && (#[trigger] r[m]).key == key ==> m == p
        }),
{
    let p = key_index(es, key);
    lemma_key_index(es, key);
    let once = upsert(es, key, v1);
    lemma_key_index(once, key);
    if p < es.len() {
        assert forall|m: int| 0 <= m < p implies (#[trigger] once[m]).key != key by {
            assert(once[m] == es[m]);
        }
        assert(once[p].key == key);
        crate::value::lemma_key_index_unique(once, key, p);
    } else {
        assert forall|m: int| 0 <= m < p implies (#[trigger] once[m]).key != key by {
            assert(once[m] == es[m]);
        }
        crate::value::lemma_key_index_unique(once, key, p);
    }
    let r = upsert(once, key, v2);
    assert(r =~= upsert(es, key, v2));
    assert forall|m: int| 0 <= m < r.len() && (#[trigger] r[m]).key == key implies m == p by {
        if m != p {
            assert(r[m] == es[m]);
        }
    }
}

} // verus!
