use vstd::prelude::*;

use crate::object::Dict;
use crate::object::ObjId;
use crate::object::Obj;
use crate::object::ObjV;
use crate::object::dict_set;
use crate::object::entries_v;
use crate::object::lemma_entries_v;
use crate::object::obj_v;
use crate::object::bytes_eq;

verus! {

/// An in-memory document: indirect objects keyed by identifier, the highest
/// object number handed out so far, and the trailer dictionary.
pub struct Store {
    pub objects: Vec<(ObjId, Obj)>,
    pub max_id: u32,
    pub trailer: Dict,
}

/// Mathematical mirror of `Store`.
#[verifier::ext_equal]
pub struct StoreV {
    pub objects: Seq<(ObjId, ObjV)>,
    pub max_id: u32,
    pub trailer: Seq<(Seq<u8>, ObjV)>,
}

pub open spec fn pairs_v(s: Seq<(ObjId, Obj)>) -> Seq<(ObjId, ObjV)>
    decreases s,
{
    if s.len() == 0 {
        Seq::empty()
    } else {
        pairs_v(s.subrange(0, s.len() - 1)).push(
            (s[s.len() - 1].0, obj_v(s[s.len() - 1].1)),
        )
    }
}

pub broadcast proof fn lemma_pairs_v(s: Seq<(ObjId, Obj)>)
    ensures
        (#[trigger] pairs_v(s)).len() == s.len(),
        forall|i: int| 0 <= i < s.len() ==> pairs_v(s)[i] == (s[i].0, obj_v(s[i].1)),
    decreases s.len(),
{
    if s.len() > 0 {
        lemma_pairs_v(s.subrange(0, s.len() - 1));
    }
}

impl View for Store {
    type V = StoreV;

    open spec fn view(&self) -> StoreV {
        StoreV {
            objects: pairs_v(self.objects@),
            max_id: self.max_id,
            trailer: entries_v(self.trailer.entries@),
        }
    }
}

/// Is `id` bound in the object list?
pub open spec fn has_id(s: Seq<(ObjId, ObjV)>, id: ObjId) -> bool {
    exists|i: int| 0 <= i < s.len() && s[i].0 == id
}

/// Position of `id` in the object list; meaningful when the ids are distinct.
pub open spec fn id_index(s: Seq<(ObjId, ObjV)>, id: ObjId) -> int {
    choose|i: int| 0 <= i < s.len() && s[i].0 == id
}

/// The object bound to `id`, if any.
pub open spec fn store_lookup(s: Seq<(ObjId, ObjV)>, id: ObjId) -> Option<ObjV> {
    if has_id(s, id) {
        Some(s[id_index(s, id)].1)
    } else {
        None
    }
}

pub open spec fn distinct_ids(s: Seq<(ObjId, ObjV)>) -> bool {
    forall|i: int, j: int| 0 <= i < j < s.len() ==> s[i].0 != s[j].0
}

impl StoreV {
    /// Well-formed: every identifier bound once, and none above the counter.
    pub open spec fn wf(self) -> bool {
        &&& distinct_ids(self.objects)
        &&& forall|i: int| 0 <= i < self.objects.len() ==> self.objects[i].0.num
            <= self.max_id
    }

    pub open spec fn lookup(self, id: ObjId) -> Option<ObjV> {
        store_lookup(self.objects, id)
    }
}

/// Appending a binding under a fresh identifier: the new binding is found,
/// every other lookup is untouched.
pub proof fn lemma_lookup_push(s: Seq<(ObjId, ObjV)>, p: (ObjId, ObjV))
    requires
        distinct_ids(s),
        !has_id(s, p.0),
    ensures
        distinct_ids(s.push(p)),
        store_lookup(s.push(p), p.0) == Some(p.1),
        forall|id: ObjId| id != p.0 ==> store_lookup(s.push(p), id) == #[trigger] store_lookup(
            s,
            id,
        ),
{
    let t = s.push(p);
    assert(t[s.len() as int] == p);
    assert forall|i: int, j: int| 0 <= i < j < t.len() implies t[i].0 != t[j].0 by {
        if j < s.len() {
            assert(s[i].0 != s[j].0);
        } else {
            assert(t[i] == s[i]);
            if t[i].0 == p.0 {
                assert(has_id(s, p.0));
            }
        }
    }
    assert(has_id(t, p.0));
    let w = id_index(t, p.0);
    assert(0 <= w < t.len() && t[w].0 == p.0);
    if w < s.len() {
        assert(s[w] == t[w]);
        assert(has_id(s, p.0));
    }
    assert(t[w].1 == p.1);
    assert forall|id: ObjId| id != p.0 implies store_lookup(t, id) == store_lookup(s, id) by {
        if has_id(s, id) {
            let u = id_index(s, id);
            assert(0 <= u < s.len() && s[u].0 == id);
            assert(t[u] == s[u]);
            assert(has_id(t, id));
            let v = id_index(t, id);
            assert(0 <= v < t.len() && t[v].0 == id);
            assert(v != s.len() as int);
            assert(t[v] == s[v]);
            if v != u {
                assert(s[u].0 == s[v].0);
                assert(false);
            }
        } else {
            if has_id(t, id) {
                let v = id_index(t, id);
                assert(0 <= v < t.len() && t[v].0 == id);
                assert(v != s.len() as int);
                assert(has_id(s, id));
            }
        }
    }
}

/// The empty store every operation starts its output from.
pub open spec fn empty_store() -> StoreV {
    StoreV { objects: Seq::empty(), max_id: 0, trailer: Seq::empty() }
}

impl Store {
    pub fn new_store() -> (s: Store)
        ensures
            s@ == empty_store(),
    {
        let s = Store { objects: Vec::new(), max_id: 0, trailer: Dict::new() };
        proof {
            assert(s@ =~= empty_store());
        }
        s
    }

    pub open spec fn wf(&self) -> bool {
        self@.wf()
    }

    /// The object bound to `id`, as `store_lookup` names it.
    pub fn get(&self, id: ObjId) -> (r: Option<&Obj>)
        requires
            distinct_ids(self@.objects),
        ensures
            match r {
                Some(o) => self@.lookup(id) == Some(o@),
                None => self@.lookup(id) is None,
            },
    {
        let n = self.objects.len();
        proof {
            lemma_pairs_v(self.objects@);
        }
        let mut i: usize = 0;
        while i < n
            invariant
                i <= n,
                forall|j: int| 0 <= j < i ==> self@.objects[j].0 != id,
            decreases n - i,
        {
            if self.objects[i].0.num == id.num && self.objects[i].0.gen == id.gen {
                assert(self@.objects[i as int].0 == id);
                assert(has_id(self@.objects, id));
                proof {
                    let w = id_index(self@.objects, id);
                    assert(0 <= w < n && self@.objects[w].0 == id);
                    assert(w == i as int);
                }
                return Some(&self.objects[i].1);
            }
            i = i + 1;
        }
        assert(!has_id(self@.objects, id));
        None
    }

    /// Appends a binding; callers keep identifiers distinct.
    pub fn insert(&mut self, id: ObjId, obj: Obj)
        ensures
            final(self)@.objects == old(self)@.objects.push((id, obj@)),
            final(self)@.max_id == old(self)@.max_id,
            final(self)@.trailer == old(self)@.trailer,
    {
        proof {
            lemma_pairs_v(self.objects@);
        }
        self.objects.push((id, obj));
        proof {
            lemma_pairs_v(self.objects@);
            assert(self@.objects =~= old(self)@.objects.push((id, obj@)));
        }
    }

    /// Hands out the next identifier, generation zero.
    pub fn alloc_id(&mut self) -> (id: ObjId)
        requires
            old(self)@.max_id < u32::MAX,
        ensures
            id.num == old(self)@.max_id + 1,
            id.gen == 0u16,
            final(self)@.max_id == old(self)@.max_id + 1,
            final(self)@.objects == old(self)@.objects,
            final(self)@.trailer == old(self)@.trailer,
    {
        self.max_id = self.max_id + 1;
        ObjId { num: self.max_id, gen: 0 }
    }

    /// Sets an entry of the trailer dictionary.
    pub fn set_trailer(&mut self, key: &[u8], obj: Obj)
        ensures
            final(self)@.trailer == dict_set(old(self)@.trailer, key@, obj@),
            final(self)@.objects == old(self)@.objects,
            final(self)@.max_id == old(self)@.max_id,
    {
        self.trailer.set(key, obj);
    }

    /// Replaces the object bound to `id`, if bound; no-op otherwise.
    pub fn set_obj(&mut self, id: ObjId, obj: Obj)
        requires
            distinct_ids(old(self)@.objects),
        ensures
            final(self)@.objects.len() == old(self)@.objects.len(),
            forall|j: int|
                0 <= j < old(self)@.objects.len() ==> final(self)@.objects[j] == (
                if old(self)@.objects[j].0 == id {
                    (id, obj@)
                } else {
                    old(self)@.objects[j]
                }),
            final(self)@.max_id == old(self)@.max_id,
            final(self)@.trailer == old(self)@.trailer,
    {
        let ghost old_view = self@;
        let n = self.objects.len();
        proof {
            lemma_pairs_v(self.objects@);
        }
        let mut i: usize = 0;
        while i < n
            invariant
                i <= n,
                n == self.objects.len(),
                self@ == old_view,
                forall|j: int| 0 <= j < i ==> self@.objects[j].0 != id,
            decreases n - i,
        {
            proof {
                lemma_pairs_v(self.objects@);
                assert(self@.objects[i as int] == (self.objects@[i as int].0, obj_v(
                    self.objects@[i as int].1,
                )));
            }
            if self.objects[i].0.num == id.num && self.objects[i].0.gen == id.gen {
                proof {
                    assert(self@.objects[i as int].0 == id);
                }
                self.objects[i] = (id, obj);
                proof {
                    lemma_pairs_v(self.objects@);
                    assert(forall|j: int|
                        0 <= j < n && j != i ==> self@.objects[j] == old_view.objects[j]);
                    assert(self@.objects[i as int] == (id, obj@));
                    assert(self@.max_id == old_view.max_id);
                    assert(self@.trailer == old_view.trailer);
                }
                return;
            }
            i = i + 1;
        }
    }
}

} // verus!
