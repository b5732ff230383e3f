use vstd::prelude::*;

use crate::object::Dict;
use crate::object::ObjId;
use crate::object::Obj;
use crate::object::ObjV;
use crate::object::copy_bytes;
use crate::object::entries_v;
use crate::object::lemma_entries_v;
use crate::object::lemma_objs_v;
use crate::object::obj_v;
use crate::object::objs_v;

verus! {

/// A translation table from old identifiers to new ones, in insertion order.
pub struct IdMap {
    pub entries: Vec<(ObjId, ObjId)>,
}

pub open spec fn map_has(m: Seq<(ObjId, ObjId)>, id: ObjId) -> bool {
    exists|i: int| 0 <= i < m.len() && m[i].0 == id
}

pub open spec fn map_index(m: Seq<(ObjId, ObjId)>, id: ObjId) -> int {
    choose|i: int| 0 <= i < m.len() && m[i].0 == id
}

/// The identifier the table sends `id` to; an unbound identifier is kept, so
/// references to intentionally unmapped objects survive a rewrite unchanged.
pub open spec fn apply_map(m: Seq<(ObjId, ObjId)>, id: ObjId) -> ObjId {
    if map_has(m, id) {
        m[map_index(m, id)].1
    } else {
        id
    }
}

pub open spec fn distinct_keys(m: Seq<(ObjId, ObjId)>) -> bool {
    forall|i: int, j: int| 0 <= i < j < m.len() ==> m[i].0 != m[j].0
}

impl IdMap {
    pub fn new() -> (m: IdMap)
        ensures
            m.entries@ == Seq::<(ObjId, ObjId)>::empty(),
    {
        let m = IdMap { entries: Vec::new() };
        proof {
            assert(m.entries@ =~= Seq::<(ObjId, ObjId)>::empty());
        }
        m
    }

    pub fn push_pair(&mut self, from: ObjId, to: ObjId)
        ensures
            final(self).entries@ == old(self).entries@.push((from, to)),
    {
        self.entries.push((from, to));
    }

    /// What the table sends `id` to, as `apply_map` names it.
    pub fn apply(&self, id: ObjId) -> (r: ObjId)
        requires
            distinct_keys(self.entries@),
        ensures
            r == apply_map(self.entries@, id),
    {
        let n = self.entries.len();
        let mut i: usize = 0;
        while i < n
            invariant
                i <= n,
                forall|j: int| 0 <= j < i ==> self.entries@[j].0 != id,
            decreases n - i,
        {
            if self.entries[i].0.num == id.num && self.entries[i].0.gen == id.gen {
                assert(self.entries@[i as int].0 == id);
                assert(map_has(self.entries@, id));
                proof {
                    let w = map_index(self.entries@, id);
                    assert(0 <= w < n && self.entries@[w].0 == id);
                    assert(w == i as int);
                }
                return self.entries[i].1;
            }
            i = i + 1;
        }
        assert(!map_has(self.entries@, id));
        id
    }
}

/// The rewrite at the heart of every operation: every `Reference` inside the
/// object goes through the table; arrays and dictionaries are entered, a
/// stream's payload is left untouched. Pure and total.
pub open spec fn remap_v(o: ObjV, m: Seq<(ObjId, ObjId)>) -> ObjV
    decreases o,
{
    match o {
        ObjV::Reference(id) => ObjV::Reference(apply_map(m, id)),
        ObjV::Array(s) => ObjV::Array(remap_vs(s, m)),
        ObjV::Dictionary(d) => ObjV::Dictionary(remap_entries(d, m)),
        ObjV::Stream(d, bytes) => ObjV::Stream(remap_entries(d, m), bytes),
        other => other,
    }
}

pub open spec fn remap_vs(s: Seq<ObjV>, m: Seq<(ObjId, ObjId)>) -> Seq<ObjV>
    decreases s,
{
    if s.len() == 0 {
        Seq::empty()
    } else {
        remap_vs(s.subrange(0, s.len() - 1), m).push(remap_v(s[s.len() - 1], m))
    }
}

pub open spec fn remap_entries(
    d: Seq<(Seq<u8>, ObjV)>,
    m: Seq<(ObjId, ObjId)>,
) -> Seq<(Seq<u8>, ObjV)>
    decreases d,
{
    if d.len() == 0 {
        Seq::empty()
    } else {
        remap_entries(d.subrange(0, d.len() - 1), m).push(
            (d[d.len() - 1].0, remap_v(d[d.len() - 1].1, m)),
        )
    }
}

pub broadcast proof fn lemma_remap_vs(s: Seq<ObjV>, m: Seq<(ObjId, ObjId)>)
    ensures
        (#[trigger] remap_vs(s, m)).len() == s.len(),
        forall|i: int| 0 <= i < s.len() ==> remap_vs(s, m)[i] == remap_v(s[i], m),
    decreases s.len(),
{
    if s.len() > 0 {
        lemma_remap_vs(s.subrange(0, s.len() - 1), m);
    }
}

pub broadcast proof fn lemma_remap_entries(d: Seq<(Seq<u8>, ObjV)>, m: Seq<(ObjId, ObjId)>)
    ensures
        (#[trigger] remap_entries(d, m)).len() == d.len(),
        forall|i: int|
            0 <= i < d.len() ==> remap_entries(d, m)[i] == (d[i].0, remap_v(d[i].1, m)),
    decreases d.len(),
{
    if d.len() > 0 {
        lemma_remap_entries(d.subrange(0, d.len() - 1), m);
    }
}

/// Rewrites every reference in `obj` through `map`, as `remap_v` names it.
pub fn remap_object(obj: &Obj, map: &IdMap) -> (r: Obj)
    requires
        distinct_keys(map.entries@),
    ensures
        r@ == remap_v(obj@, map.entries@),
    decreases obj,
{
    match obj {
        Obj::Null => Obj::Null,
        Obj::Boolean(b) => Obj::Boolean(*b),
        Obj::Integer(i) => Obj::Integer(*i),
        Obj::Real(r) => Obj::Real(r.clone()),
        Obj::Str(s, hex) => Obj::Str(copy_bytes(s), *hex),
        Obj::Name(n) => Obj::Name(copy_bytes(n)),
        Obj::Array(arr) => {
            let ghost m = map.entries@;
            let mut out: Vec<Obj> = Vec::new();
            let n = arr.len();
            let mut i: usize = 0;
            while i < n
                invariant
                    i <= n,
                    out@.len() == i,
                    forall|j: int| 0 <= j < i ==> obj_v(out@[j]) == remap_v(obj_v(arr@[j]), m),
                decreases n - i,
            {
                let e = remap_object(&arr[i], map);
                out.push(e);
                i = i + 1;
            }
            proof {
                lemma_objs_v(out@);
                lemma_objs_v(arr@);
                lemma_remap_vs(objs_v(arr@), m);
                assert(objs_v(out@) =~= remap_vs(objs_v(arr@), m));
            }
            Obj::Array(out)
        },
        Obj::Dictionary(d) => Obj::Dictionary(remap_dict(d, map)),
        Obj::Stream(d, bytes) => Obj::Stream(remap_dict(d, map), copy_bytes(bytes)),
        Obj::Reference(id) => Obj::Reference(map.apply(*id)),
    }
}

/// Rewrites every reference in the values of `dict`, keeping keys and order.
pub fn remap_dict(dict: &Dict, map: &IdMap) -> (r: Dict)
    requires
        distinct_keys(map.entries@),
    ensures
        r@ == remap_entries(dict@, map.entries@),
    decreases dict,
{
    let ghost m = map.entries@;
    let mut out: Vec<(Vec<u8>, Obj)> = Vec::new();
    let n = dict.entries.len();
    let mut i: usize = 0;
    while i < n
        invariant
            i <= n,
            out@.len() == i,
            forall|j: int|
                0 <= j < i ==> (out@[j].0@, obj_v(out@[j].1)) == (
                dict.entries@[j].0@,
                remap_v(obj_v(dict.entries@[j].1), m),
                ),
        decreases n - i,
    {
        let k = copy_bytes(&dict.entries[i].0);
        let v = remap_object(&dict.entries[i].1, map);
        out.push((k, v));
        i = i + 1;
    }
    proof {
        lemma_entries_v(out@);
        lemma_entries_v(dict.entries@);
        lemma_remap_entries(entries_v(dict.entries@), m);
        assert(entries_v(out@) =~= remap_entries(entries_v(dict.entries@), m));
    }
    Dict { entries: out }
}

/// What the table binds `id` to, if anything.
pub open spec fn map_find(m: Seq<(ObjId, ObjId)>, id: ObjId) -> Option<ObjId> {
    if map_has(m, id) {
        Some(m[map_index(m, id)].1)
    } else {
        None
    }
}

impl IdMap {
    /// What the table binds `id` to, as `map_find` names it.
    pub fn find(&self, id: ObjId) -> (r: Option<ObjId>)
        requires
            distinct_keys(self.entries@),
        ensures
            r == map_find(self.entries@, id),
    {
        let n = self.entries.len();
        let mut i: usize = 0;
        while i < n
            invariant
                i <= n,
                forall|j: int| 0 <= j < i ==> self.entries@[j].0 != id,
            decreases n - i,
        {
            if self.entries[i].0.num == id.num && self.entries[i].0.gen == id.gen {
                assert(self.entries@[i as int].0 == id);
                assert(map_has(self.entries@, id));
                proof {
                    let w = map_index(self.entries@, id);
                    assert(0 <= w < n && self.entries@[w].0 == id);
                    assert(w == i as int);
                }
                return Some(self.entries[i].1);
            }
            i = i + 1;
        }
        assert(!map_has(self.entries@, id));
        None
    }
}

/// The copier's rewrite: as the remapper, but a reference whose target the
/// copy does not keep — an excluded identifier, or one the source never
/// bound — becomes `Null`, the object every conforming reader already takes
/// such a reference for. Nothing the output holds can then point outside it.
pub open spec fn clean_v(o: ObjV, m: Seq<(ObjId, ObjId)>, excl: Seq<ObjId>) -> ObjV
    decreases o,
{
    match o {
        ObjV::Reference(id) => if map_has(m, id) && !crate::builder::contains_id(excl, id) {
            ObjV::Reference(apply_map(m, id))
        } else {
            ObjV::Null
        },
        ObjV::Array(s) => ObjV::Array(clean_vs(s, m, excl)),
        ObjV::Dictionary(d) => ObjV::Dictionary(clean_entries(d, m, excl)),
        ObjV::Stream(d, bytes) => ObjV::Stream(clean_entries(d, m, excl), bytes),
        other => other,
    }
}

pub open spec fn clean_vs(s: Seq<ObjV>, m: Seq<(ObjId, ObjId)>, excl: Seq<ObjId>) -> Seq<ObjV>
    decreases s,
{
    if s.len() == 0 {
        Seq::empty()
    } else {
        clean_vs(s.subrange(0, s.len() - 1), m, excl).push(clean_v(s[s.len() - 1], m, excl))
    }
}

pub open spec fn clean_entries(
    d: Seq<(Seq<u8>, ObjV)>,
    m: Seq<(ObjId, ObjId)>,
    excl: Seq<ObjId>,
) -> Seq<(Seq<u8>, ObjV)>
    decreases d,
{
    if d.len() == 0 {
        Seq::empty()
    } else {
        clean_entries(d.subrange(0, d.len() - 1), m, excl).push(
            (d[d.len() - 1].0, clean_v(d[d.len() - 1].1, m, excl)),
        )
    }
}

pub broadcast proof fn lemma_clean_vs(s: Seq<ObjV>, m: Seq<(ObjId, ObjId)>, excl: Seq<ObjId>)
    ensures
        (#[trigger] clean_vs(s, m, excl)).len() == s.len(),
        forall|i: int| 0 <= i < s.len() ==> clean_vs(s, m, excl)[i] == clean_v(s[i], m, excl),
    decreases s.len(),
{
    if s.len() > 0 {
        lemma_clean_vs(s.subrange(0, s.len() - 1), m, excl);
    }
}

pub broadcast proof fn lemma_clean_entries(
    d: Seq<(Seq<u8>, ObjV)>,
    m: Seq<(ObjId, ObjId)>,
    excl: Seq<ObjId>,
)
    ensures
        (#[trigger] clean_entries(d, m, excl)).len() == d.len(),
        forall|i: int|
            0 <= i < d.len() ==> clean_entries(d, m, excl)[i] == (
            d[i].0,
            clean_v(d[i].1, m, excl),
            ),
    decreases d.len(),
{
    if d.len() > 0 {
        lemma_clean_entries(d.subrange(0, d.len() - 1), m, excl);
    }
}

/// The copier's rewrite of one object, as `clean_v` names it.
pub fn clean_object(obj: &Obj, map: &IdMap, exclude: &Vec<ObjId>) -> (r: Obj)
    requires
        distinct_keys(map.entries@),
    ensures
        r@ == clean_v(obj@, map.entries@, exclude@),
    decreases obj,
{
    match obj {
        Obj::Null => Obj::Null,
        Obj::Boolean(b) => Obj::Boolean(*b),
        Obj::Integer(i) => Obj::Integer(*i),
        Obj::Real(r) => Obj::Real(r.clone()),
        Obj::Str(s, hex) => Obj::Str(copy_bytes(s), *hex),
        Obj::Name(n) => Obj::Name(copy_bytes(n)),
        Obj::Array(arr) => {
            let ghost m = map.entries@;
            let mut out: Vec<Obj> = Vec::new();
            let n = arr.len();
            let mut i: usize = 0;
            while i < n
                invariant
                    i <= n,
                    out@.len() == i,
                    forall|j: int|
                        0 <= j < i ==> obj_v(out@[j]) == clean_v(obj_v(arr@[j]), m, exclude@),
                decreases n - i,
            {
                let e = clean_object(&arr[i], map, exclude);
                out.push(e);
                i = i + 1;
            }
            proof {
                lemma_objs_v(out@);
                lemma_objs_v(arr@);
                lemma_clean_vs(objs_v(arr@), m, exclude@);
                assert(objs_v(out@) =~= clean_vs(objs_v(arr@), m, exclude@));
            }
            Obj::Array(out)
        },
        Obj::Dictionary(d) => Obj::Dictionary(clean_dict(d, map, exclude)),
        Obj::Stream(d, bytes) => Obj::Stream(clean_dict(d, map, exclude), copy_bytes(bytes)),
        Obj::Reference(id) => {
            match map.find(*id) {
                Some(new_id) => {
                    if crate::builder::contains_id_exec(exclude, *id) {
                        Obj::Null
                    } else {
                        Obj::Reference(new_id)
                    }
                },
                None => Obj::Null,
            }
        },
    }
}

/// The copier's rewrite of a dictionary, keys and order kept.
pub fn clean_dict(dict: &Dict, map: &IdMap, exclude: &Vec<ObjId>) -> (r: Dict)
    requires
        distinct_keys(map.entries@),
    ensures
        r@ == clean_entries(dict@, map.entries@, exclude@),
    decreases dict,
{
    let ghost m = map.entries@;
    let mut out: Vec<(Vec<u8>, Obj)> = Vec::new();
    let n = dict.entries.len();
    let mut i: usize = 0;
    while i < n
        invariant
            i <= n,
            out@.len() == i,
            forall|j: int|
                0 <= j < i ==> (out@[j].0@, obj_v(out@[j].1)) == (
                dict.entries@[j].0@,
                clean_v(obj_v(dict.entries@[j].1), m, exclude@),
                ),
        decreases n - i,
    {
        let k = copy_bytes(&dict.entries[i].0);
        let v = clean_object(&dict.entries[i].1, map, exclude);
        out.push((k, v));
        i = i + 1;
    }
    proof {
        lemma_entries_v(out@);
        lemma_entries_v(dict.entries@);
        lemma_clean_entries(entries_v(dict.entries@), m, exclude@);
        assert(entries_v(out@) =~= clean_entries(entries_v(dict.entries@), m, exclude@));
    }
    Dict { entries: out }
}

} // verus!
