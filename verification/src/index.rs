//! Corpus index: the set of identifiers present in the corpus, as an
//! O(1) validity table over identifier values. It is built once from the
//! record names and then consulted read-only during resolution.

use vstd::prelude::*;
use crate::codec::{Identifier, ID_LIMIT, spec_decode, decode};

verus! {

/// The allow-list of identifier values derivable from record locations.
pub struct AllowList {
    present: Vec<bool>,
}

/// Whether some name in the list decodes to the identifier value `v`.
pub open spec fn allowed_by_names(names: Seq<Seq<char>>, v: int) -> bool {
    exists|i: int|
        0 <= i < names.len() && (#[trigger] spec_decode(names[i])) is Ok && spec_decode(
            names[i],
        )->Ok_0.value == v
}

pub proof fn lemma_allowed_extend(names: Seq<Seq<char>>, i: int)
    requires
        0 <= i < names.len(),
    ensures
        forall|v: int|
            #[trigger] allowed_by_names(names.take(i + 1), v) <==> (allowed_by_names(
                names.take(i),
                v,
            ) || (spec_decode(names[i]) is Ok && spec_decode(names[i])->Ok_0.value == v)),
{
    assert forall|v: int| #[trigger] allowed_by_names(names.take(i + 1), v) implies (
    allowed_by_names(names.take(i), v) || (spec_decode(names[i]) is Ok && spec_decode(
        names[i],
    )->Ok_0.value == v)) by {
        let j = choose|j: int|
            0 <= j < names.take(i + 1).len() && (#[trigger] spec_decode(names.take(i + 1)[j])) is Ok
                && spec_decode(names.take(i + 1)[j])->Ok_0.value == v;
        if j < i {
            assert(names.take(i)[j] == names.take(i + 1)[j]);
            assert(spec_decode(names.take(i)[j]) is Ok && spec_decode(names.take(i)[j])->Ok_0.value
                == v);
        } else {
            assert(names.take(i + 1)[j] == names[i]);
        }
    }
    assert forall|v: int|
        (allowed_by_names(names.take(i), v) || (spec_decode(names[i]) is Ok && spec_decode(
            names[i],
        )->Ok_0.value == v)) implies #[trigger] allowed_by_names(names.take(i + 1), v) by {
        if allowed_by_names(names.take(i), v) {
            let j = choose|j: int|
                0 <= j < names.take(i).len() && (#[trigger] spec_decode(names.take(i)[j])) is Ok
                    && spec_decode(names.take(i)[j])->Ok_0.value == v;
            assert(names.take(i + 1)[j] == names.take(i)[j]);
            assert(spec_decode(names.take(i + 1)[j]) is Ok && spec_decode(
                names.take(i + 1)[j],
            )->Ok_0.value == v);
        } else {
            assert(names.take(i + 1)[i] == names[i]);
            assert(spec_decode(names.take(i + 1)[i]) is Ok && spec_decode(
                names.take(i + 1)[i],
            )->Ok_0.value == v);
        }
    }
}

impl AllowList {
    /// The table covers the whole identifier value range.
    pub closed spec fn inv(self) -> bool {
        self.present@.len() == ID_LIMIT
    }

    /// Whether the identifier value `v` is in the allow-list.
    pub closed spec fn contains_val(self, v: int) -> bool {
        0 <= v < ID_LIMIT && self.present@[v]
    }

    /// An empty allow-list.
    pub fn new() -> (r: AllowList)
        ensures
            r.inv(),
            forall|v: int| !r.contains_val(v),
    {
        let mut present: Vec<bool> = Vec::new();
        let mut k: usize = 0;
        while k < ID_LIMIT
            invariant
                0 <= k <= ID_LIMIT,
                present@.len() == k,
                forall|q: int| 0 <= q < k ==> !(#[trigger] present@[q]),
            decreases ID_LIMIT - k,
        {
            present.push(false);
            k = k + 1;
        }
        AllowList { present }
    }

    /// Mark one identifier as present in the corpus.
    pub fn insert(&mut self, id: Identifier)
        requires
            old(self).inv(),
            id.wf(),
        ensures
            final(self).inv(),
            forall|v: int|
                #[trigger] final(self).contains_val(v) <==> (old(self).contains_val(v) || v
                    == id.value),
    {
        self.present.set(id.value, true);
    }

    /// O(1) membership: whether the identifier is in the allow-list.
    pub fn contains(&self, id: Identifier) -> (r: bool)
        requires
            self.inv(),
            id.wf(),
        ensures
            r == self.contains_val(id.value as int),
    {
        self.present[id.value]
    }

    /// Build the allow-list from all record names: each name that decodes
    /// contributes its identifier; names that fail to decode are skipped.
    #[verifier::loop_isolation(false)]
    pub fn from_names(names: &Vec<String>) -> (r: AllowList)
        ensures
            r.inv(),
            forall|v: int|
                #[trigger] r.contains_val(v) <==> allowed_by_names(names.deep_view(), v),
    {
        let ghost nv = names.deep_view();
        let mut r = AllowList::new();
        proof {
            assert(nv.take(0) =~= Seq::<Seq<char>>::empty());
            assert(forall|v: int| !allowed_by_names(nv.take(0), v));
        }
        let mut i: usize = 0;
        while i < names.len()
            invariant
                0 <= i <= names@.len(),
                nv == names.deep_view(),
                nv.len() == names@.len(),
                r.inv(),
                forall|v: int| #[trigger] r.contains_val(v) <==> allowed_by_names(nv.take(i as int), v),
            decreases names@.len() - i,
        {
            proof {
                assert(nv[i as int] == names@[i as int]@);
            }
            match decode(&names[i]) {
                Ok(id) => {
                    r.insert(id);
                },
                Err(_) => {},
            }
            proof {
                lemma_allowed_extend(nv, i as int);
            }
            i = i + 1;
        }
        proof {
            assert(nv.take(names@.len() as int) =~= nv);
        }
        r
    }
}

} // verus!
