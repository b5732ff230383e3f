use vstd::prelude::*;

use crate::codec::encode_store;
use crate::codec::encoded;
use crate::error::ErrV;
use crate::error::PdfError;
use crate::names::k_count;
use crate::names::k_kids;
use crate::names::k_parent;
use crate::names::k_root;
use crate::names::k_size;
use crate::names::k_type;
use crate::names::key_count;
use crate::names::key_kids;
use crate::names::key_parent;
use crate::names::key_root;
use crate::names::key_size;
use crate::names::key_type;
use crate::names::n_catalog;
use crate::names::n_pages;
use crate::names::name_catalog;
use crate::names::name_pages;
use crate::object::Dict;
use crate::object::Obj;
use crate::object::ObjId;
use crate::object::ObjV;
use crate::object::dict_set;
use crate::object::lemma_entries_v;
use crate::remap::IdMap;
use crate::remap::apply_map;
use crate::remap::distinct_keys;
use crate::remap::map_has;
use crate::remap::map_index;
use crate::remap::remap_object;
use crate::remap::remap_v;
use crate::store::Store;
use crate::store::StoreV;
use crate::store::distinct_ids;

verus! {

/// Is `id` one of the listed identifiers?
pub open spec fn contains_id(ids: Seq<ObjId>, id: ObjId) -> bool {
    exists|i: int| 0 <= i < ids.len() && ids[i] == id
}

pub fn contains_id_exec(ids: &Vec<ObjId>, id: ObjId) -> (r: bool)
    ensures
        r == contains_id(ids@, id),
{
    let n = ids.len();
    let mut i: usize = 0;
    while i < n
        invariant
            i <= n,
            forall|j: int| 0 <= j < i ==> ids@[j] != id,
        decreases n - i,
    {
        if ids[i].num == id.num && ids[i].gen == id.gen {
            assert(ids@[i as int] == id);
            return true;
        }
        i = i + 1;
    }
    false
}

/// What the copier adds to the destination: every source object not
/// excluded, in source order, under its fresh identifier, every reference
/// rewritten — and every reference whose target the copy does not keep
/// nulled, so nothing in the output points outside it.
pub open spec fn copied_objs(
    s: Seq<(ObjId, ObjV)>,
    m: Seq<(ObjId, ObjId)>,
    excl: Seq<ObjId>,
) -> Seq<(ObjId, ObjV)>
    decreases s.len(),
{
    if s.len() == 0 {
        Seq::empty()
    } else {
        let rest = copied_objs(s.subrange(0, s.len() - 1), m, excl);
        if contains_id(excl, s[s.len() - 1].0) {
            rest
        } else {
            rest.push(
                (
                    apply_map(m, s[s.len() - 1].0),
                    crate::remap::clean_v(s[s.len() - 1].1, m, excl),
                ),
            )
        }
    }
}

/// Copies every object of `src` not excluded into `dst` under fresh
/// identifiers, and returns the full translation table: one fresh identifier
/// per source identifier, excluded ones included, so a caller can still
/// resolve an excluded root's new identifier. A reference whose target the
/// copy does not keep is nulled, so the destination never points outside
/// itself. Always succeeds; nothing is pruned by reachability.
pub fn copy_objects(src: &Store, dst: &mut Store, exclude: &Vec<ObjId>) -> (map: IdMap)
    requires
        distinct_ids(src@.objects),
        old(dst)@.max_id + src@.objects.len() <= u32::MAX,
    ensures
        map.entries@.len() == src@.objects.len(),
        forall|i: int|
            0 <= i < src@.objects.len() ==> map.entries@[i].0 == src@.objects[i].0
                && map.entries@[i].1.num == old(dst)@.max_id + i + 1 && map.entries@[i].1.gen
                == 0u16,
        distinct_keys(map.entries@),
        final(dst)@.objects == old(dst)@.objects + copied_objs(
            src@.objects,
            map.entries@,
            exclude@,
        ),
        final(dst)@.max_id == old(dst)@.max_id + src@.objects.len(),
        final(dst)@.trailer == old(dst)@.trailer,
{
    let ghost s = src@.objects;
    let ghost dst0 = old(dst)@;
    let n = src.objects.len();
    proof {
        crate::store::lemma_pairs_v(src.objects@);
    }
    let mut map = IdMap::new();
    let mut i: usize = 0;
    while i < n
        invariant
            i <= n,
            n == src.objects.len(),
            map.entries@.len() == i,
            forall|j: int|
                0 <= j < i ==> map.entries@[j].0 == s[j].0 && map.entries@[j].1.num == dst0.max_id
                    + j + 1 && map.entries@[j].1.gen == 0u16,
            dst@.max_id == dst0.max_id + i,
            dst@.objects == dst0.objects,
            dst@.trailer == dst0.trailer,
        decreases n - i,
    {
        let fresh = dst.alloc_id();
        map.push_pair(src.objects[i].0, fresh);
        i = i + 1;
    }
    proof {
        assert forall|a: int, b: int| 0 <= a < b < map.entries@.len() implies map.entries@[a].0
            != map.entries@[b].0 by {
            assert(s[a].0 != s[b].0);
        }
    }
    let ghost m = map.entries@;
    let mut i: usize = 0;
    while i < n
        invariant
            i <= n,
            n == src.objects.len(),
            map.entries@ == m,
            m.len() == n,
            forall|j: int|
                0 <= j < n ==> m[j].0 == s[j].0 && m[j].1.num == dst0.max_id + j + 1
                    && m[j].1.gen == 0u16,
            distinct_keys(m),
            dst@.objects == dst0.objects + copied_objs(s.subrange(0, i as int), m, exclude@),
            dst@.max_id == dst0.max_id + n,
            dst@.trailer == dst0.trailer,
        decreases n - i,
    {
        proof {
            assert(s.subrange(0, i as int + 1).subrange(0, i as int) =~= s.subrange(0, i as int));
            assert(s.subrange(0, i as int + 1)[i as int] == s[i as int]);
        }
        if !contains_id_exec(exclude, src.objects[i].0) {
            let new_id = map.entries[i].1;
            proof {
                assert(map_has(m, s[i as int].0));
                let w = map_index(m, s[i as int].0);
                assert(0 <= w < m.len() && m[w].0 == s[i as int].0);
                assert(w == i as int);
                assert(apply_map(m, s[i as int].0) == new_id);
            }
            let o = crate::remap::clean_object(&src.objects[i].1, &map, exclude);
            dst.insert(new_id, o);
        }
        i = i + 1;
    }
    proof {
        assert(s.subrange(0, n as int) =~= s);
    }
    map
}

/// What the copier's output looks like, entry by entry, for the first `j`
/// source objects: fresh identifiers in source order, each kept source object
/// found under its fresh identifier, each excluded one absent.
pub proof fn lemma_copied_facts(
    s: Seq<(ObjId, ObjV)>,
    m: Seq<(ObjId, ObjId)>,
    excl: Seq<ObjId>,
    base: u32,
    j: int,
)
    requires
        crate::store::distinct_ids(s),
        m == mapping_from(s, base),
        base + s.len() <= u32::MAX,
        0 <= j <= s.len(),
    ensures
        crate::store::distinct_ids(copied_objs(s.subrange(0, j), m, excl)),
        forall|k: int|
            0 <= k < copied_objs(s.subrange(0, j), m, excl).len() ==> exists|i: int|
                0 <= i < j && !contains_id(excl, s[i].0) && #[trigger] copied_objs(
                    s.subrange(0, j),
                    m,
                    excl,
                )[k] == (
                (ObjId { num: (base + i + 1) as u32, gen: 0u16 }),
                crate::remap::clean_v(s[i].1, m, excl),
                ),
        forall|k: int|
            0 <= k < copied_objs(s.subrange(0, j), m, excl).len() ==> base + 1 <= (
            #[trigger] copied_objs(s.subrange(0, j), m, excl)[k]).0.num <= base + j,
        forall|i: int|
            0 <= i < j && !contains_id(excl, s[i].0) ==> crate::store::store_lookup(
                copied_objs(s.subrange(0, j), m, excl),
                (ObjId { num: (base + i + 1) as u32, gen: 0u16 }),
            ) == Some(crate::remap::clean_v(#[trigger] s[i].1, m, excl)),
        forall|i: int|
            0 <= i < j && contains_id(excl, #[trigger] s[i].0) ==> crate::store::store_lookup(
                copied_objs(s.subrange(0, j), m, excl),
                (ObjId { num: (base + i + 1) as u32, gen: 0u16 }),
            ) is None,
    decreases j,
{
    assert(distinct_keys(m)) by {
        assert forall|a: int, b: int| 0 <= a < b < m.len() implies m[a].0 != m[b].0 by {
            assert(s[a].0 != s[b].0);
        }
    }
    if j == 0 {
        assert(s.subrange(0, 0) =~= Seq::<(ObjId, ObjV)>::empty());
    } else {
        lemma_copied_facts(s, m, excl, base, j - 1);
        let prev = copied_objs(s.subrange(0, j - 1), m, excl);
        let cur = copied_objs(s.subrange(0, j), m, excl);
        assert(s.subrange(0, j).subrange(0, j - 1) =~= s.subrange(0, j - 1));
        assert(s.subrange(0, j)[j - 1] == s[j - 1]);
        let new_id = apply_map(m, s[j - 1].0);
        assert(map_has(m, s[j - 1].0)) by {
            assert(m[j - 1].0 == s[j - 1].0);
        }
        assert(new_id == (ObjId { num: (base + j) as u32, gen: 0u16 })) by {
            let w = map_index(m, s[j - 1].0);
            assert(0 <= w < m.len() && m[w].0 == s[j - 1].0);
            assert(s[w].0 == s[j - 1].0);
            assert(w == j - 1);
        }
        if contains_id(excl, s[j - 1].0) {
            assert(cur == prev);
            assert forall|i: int|
                0 <= i < j && contains_id(excl, #[trigger] s[i].0) implies crate::store::store_lookup(
                cur,
                (ObjId { num: (base + i + 1) as u32, gen: 0u16 }),
            ) is None by {
                let id = (ObjId { num: (base + i + 1) as u32, gen: 0u16 });
                if crate::store::has_id(cur, id) {
                    let k = crate::store::id_index(cur, id);
                    assert(0 <= k < cur.len() && cur[k].0 == id);
                    let i2 = choose|i2: int|
                        0 <= i2 < j && !contains_id(excl, s[i2].0) && cur[k] == (
                        (ObjId { num: (base + i2 + 1) as u32, gen: 0u16 }),
                        crate::remap::clean_v(s[i2].1, m, excl),
                        );
                    assert(base + i2 + 1 == base + i + 1);
                    assert(i2 == i);
                    assert(false);
                }
            }
        } else {
            let p = (new_id, crate::remap::clean_v(s[j - 1].1, m, excl));
            assert(cur == prev.push(p));
            assert(!crate::store::has_id(prev, p.0)) by {
                if crate::store::has_id(prev, p.0) {
                    let k = crate::store::id_index(prev, p.0);
                    assert(0 <= k < prev.len() && prev[k].0 == p.0);
                    assert(base + 1 <= prev[k].0.num <= base + j - 1);
                }
            }
            crate::store::lemma_lookup_push(prev, p);
            assert forall|k: int| 0 <= k < cur.len() implies exists|i: int|
                0 <= i < j && !contains_id(excl, s[i].0) && #[trigger] cur[k] == (
                (ObjId { num: (base + i + 1) as u32, gen: 0u16 }),
                crate::remap::clean_v(s[i].1, m, excl),
            ) by {
                if k < prev.len() {
                    assert(cur[k] == prev[k]);
                    let i = choose|i: int|
                        0 <= i < j - 1 && !contains_id(excl, s[i].0) && prev[k] == (
                        (ObjId { num: (base + i + 1) as u32, gen: 0u16 }),
                        crate::remap::clean_v(s[i].1, m, excl),
                        );
                    assert(0 <= i < j && !contains_id(excl, s[i].0) && cur[k] == (
                    (ObjId { num: (base + i + 1) as u32, gen: 0u16 }),
                    crate::remap::clean_v(s[i].1, m, excl),
                    ));
                } else {
                    assert(cur[k] == p);
                    assert(0 <= j - 1 < j && !contains_id(excl, s[j - 1].0) && cur[k] == (
                    (ObjId { num: (base + (j - 1) + 1) as u32, gen: 0u16 }),
                    crate::remap::clean_v(s[j - 1].1, m, excl),
                    ));
                }
            }
            assert forall|i: int|
                0 <= i < j && contains_id(excl, #[trigger] s[i].0) implies crate::store::store_lookup(
                cur,
                (ObjId { num: (base + i + 1) as u32, gen: 0u16 }),
            ) is None by {
                let id = (ObjId { num: (base + i + 1) as u32, gen: 0u16 });
                assert(i != j - 1);
                assert(id != p.0);
                assert(crate::store::store_lookup(cur, id) == crate::store::store_lookup(
                    prev,
                    id,
                ));
            }
        }
    }
}

/// A dictionary object with `key` bound to `v`; anything that is not a
/// dictionary is left alone.
pub open spec fn set_entry_obj_v(o: ObjV, key: Seq<u8>, v: ObjV) -> ObjV {
    match o {
        ObjV::Dictionary(d) => ObjV::Dictionary(dict_set(d, key, v)),
        other => other,
    }
}

/// The object list with `key` bound to `v` on the object bound to `id`.
pub open spec fn set_entry_one(
    s: Seq<(ObjId, ObjV)>,
    id: ObjId,
    key: Seq<u8>,
    v: ObjV,
) -> Seq<(ObjId, ObjV)> {
    Seq::new(
        s.len(),
        |j: int|
            if s[j].0 == id {
                (s[j].0, set_entry_obj_v(s[j].1, key, v))
            } else {
                s[j]
            },
    )
}

/// A dictionary object with `Parent` bound to `parent`; anything that is not
/// a dictionary is left alone.
pub open spec fn set_parent_obj_v(o: ObjV, parent: ObjId) -> ObjV {
    set_entry_obj_v(o, key_parent(), ObjV::Reference(parent))
}

/// The object list with `Parent` set on the object bound to `id`.
pub open spec fn set_parent_one(
    s: Seq<(ObjId, ObjV)>,
    id: ObjId,
    parent: ObjId,
) -> Seq<(ObjId, ObjV)> {
    set_entry_one(s, id, key_parent(), ObjV::Reference(parent))
}

/// The object list with `Parent` set on each listed object in turn.
pub open spec fn set_parent_objs(
    s: Seq<(ObjId, ObjV)>,
    ids: Seq<ObjId>,
    parent: ObjId,
) -> Seq<(ObjId, ObjV)>
    decreases ids.len(),
{
    if ids.len() == 0 {
        s
    } else {
        set_parent_one(
            set_parent_objs(s, ids.subrange(0, ids.len() - 1), parent),
            ids[ids.len() - 1],
            parent,
        )
    }
}

impl Store {
    /// Binds `key` to `val` on the dictionary bound to `id`; no-op on a
    /// missing or non-dictionary target.
    pub fn set_entry_at(&mut self, id: ObjId, key: &[u8], val: Obj)
        requires
            distinct_ids(old(self)@.objects),
        ensures
            final(self)@.objects == set_entry_one(old(self)@.objects, id, key@, val@),
            final(self)@.max_id == old(self)@.max_id,
            final(self)@.trailer == old(self)@.trailer,
    {
        let ghost old_view = self@;
        let n = self.objects.len();
        proof {
            crate::store::lemma_pairs_v(self.objects@);
        }
        let mut i: usize = 0;
        while i < n
            invariant
                i <= n,
                n == self.objects.len(),
                self@ == old_view,
                forall|j: int| 0 <= j < i ==> self@.objects[j].0 != id,
            decreases n - i,
        {
            proof {
                crate::store::lemma_pairs_v(self.objects@);
                assert(self@.objects[i as int] == (self.objects@[i as int].0, crate::object::obj_v(
                    self.objects@[i as int].1,
                )));
            }
            if self.objects[i].0.num == id.num && self.objects[i].0.gen == id.gen {
                assert(self@.objects[i as int].0 == id);
                let ghost old_raw = self.objects@;
                let (eid, eobj) = self.objects.remove(i);
                let updated = match eobj {
                    Obj::Dictionary(mut d) => {
                        d.set(key, val);
                        Obj::Dictionary(d)
                    },
                    other => other,
                };
                proof {
                    assert(updated@ == set_entry_obj_v(old_view.objects[i as int].1, key@, val@));
                }
                self.objects.insert(i, (eid, updated));
                proof {
                    assert(self.objects@ =~= old_raw.update(i as int, (eid, updated)));
                    crate::store::lemma_pairs_v(self.objects@);
                    assert(self@.objects =~= set_entry_one(old_view.objects, id, key@, val@));
                    assert(self@.max_id == old_view.max_id);
                    assert(self@.trailer == old_view.trailer);
                }
                return;
            }
            i = i + 1;
        }
        assert(self@.objects =~= set_entry_one(old_view.objects, id, key@, val@));
    }

    /// Sets `Parent` on the dictionary bound to `id`; no-op on a missing or
    /// non-dictionary target.
    fn set_parent_at(&mut self, id: ObjId, parent: ObjId)
        requires
            distinct_ids(old(self)@.objects),
        ensures
            final(self)@.objects == set_parent_one(old(self)@.objects, id, parent),
            final(self)@.max_id == old(self)@.max_id,
            final(self)@.trailer == old(self)@.trailer,
    {
        let kp = k_parent();
        self.set_entry_at(id, kp.as_slice(), Obj::Reference(parent));
    }
}

/// Sets `Parent` on each listed object, as `set_parent_objs` names it.
pub fn set_parent(doc: &mut Store, page_ids: &Vec<ObjId>, parent_id: ObjId)
    requires
        distinct_ids(old(doc)@.objects),
    ensures
        final(doc)@.objects == set_parent_objs(old(doc)@.objects, page_ids@, parent_id),
        final(doc)@.max_id == old(doc)@.max_id,
        final(doc)@.trailer == old(doc)@.trailer,
{
    let ghost s0 = old(doc)@.objects;
    let n = page_ids.len();
    let mut i: usize = 0;
    proof {
        assert(page_ids@.subrange(0, 0) =~= Seq::<ObjId>::empty());
    }
    while i < n
        invariant
            i <= n,
            doc@.objects == set_parent_objs(s0, page_ids@.subrange(0, i as int), parent_id),
            distinct_ids(doc@.objects),
            doc@.max_id == old(doc)@.max_id,
            doc@.trailer == old(doc)@.trailer,
        decreases n - i,
    {
        doc.set_parent_at(page_ids[i], parent_id);
        proof {
            assert(page_ids@.subrange(0, i as int + 1).subrange(0, i as int) =~= page_ids@.subrange(
                0,
                i as int,
            ));
            assert(page_ids@.subrange(0, i as int + 1)[i as int] == page_ids@[i as int]);
        }
        i = i + 1;
    }
    proof {
        assert(page_ids@.subrange(0, n as int) =~= page_ids@);
    }
}

/// The kid identifiers as an array of references.
pub open spec fn refs_of(ids: Seq<ObjId>) -> Seq<ObjV> {
    Seq::new(ids.len(), |i: int| ObjV::Reference(ids[i]))
}

/// A fresh pages node: `Type` Pages, explicit `Kids`, the given leaf `Count`
/// (which differs from the number of kids when kids are themselves pages
/// nodes).
pub open spec fn pages_node_v(kids: Seq<ObjId>, count: i64) -> ObjV {
    ObjV::Dictionary(
        seq![
            (key_type(), ObjV::Name(name_pages())),
            (key_kids(), ObjV::Array(refs_of(kids))),
            (key_count(), ObjV::Integer(count)),
        ],
    )
}

/// A fresh catalog pointing at `pages_id`.
pub open spec fn catalog_v(pages_id: ObjId) -> ObjV {
    ObjV::Dictionary(
        seq![
            (key_type(), ObjV::Name(name_catalog())),
            (name_pages(), ObjV::Reference(pages_id)),
        ],
    )
}

/// Inserts a fresh pages node and returns its identifier.
pub fn insert_pages_node(doc: &mut Store, kids: &Vec<ObjId>, count: i64) -> (id: ObjId)
    requires
        old(doc)@.max_id < u32::MAX,
    ensures
        id.num == old(doc)@.max_id + 1,
        id.gen == 0u16,
        final(doc)@.objects == old(doc)@.objects.push((id, pages_node_v(kids@, count))),
        final(doc)@.max_id == old(doc)@.max_id + 1,
        final(doc)@.trailer == old(doc)@.trailer,
{
    let pages_id = doc.alloc_id();
    let mut kid_refs: Vec<Obj> = Vec::new();
    let n = kids.len();
    let mut i: usize = 0;
    while i < n
        invariant
            i <= n,
            kid_refs@.len() == i,
            forall|j: int| 0 <= j < i ==> kid_refs@[j] == (Obj::Reference(kids@[j])),
        decreases n - i,
    {
        kid_refs.push(Obj::Reference(kids[i]));
        i = i + 1;
    }
    let mut entries: Vec<(Vec<u8>, Obj)> = Vec::new();
    entries.push((k_type(), Obj::Name(n_pages())));
    entries.push((k_kids(), Obj::Array(kid_refs)));
    entries.push((k_count(), Obj::Integer(count)));
    let node = Obj::Dictionary(Dict { entries });
    proof {
        crate::object::lemma_objs_v(kid_refs@);
        assert(crate::object::objs_v(kid_refs@) =~= refs_of(kids@));
        lemma_entries_v(node->Dictionary_0.entries@);
        assert(crate::object::entries_v(node->Dictionary_0.entries@) =~= seq![
            (key_type(), ObjV::Name(name_pages())),
            (key_kids(), ObjV::Array(refs_of(kids@))),
            (key_count(), ObjV::Integer(count)),
        ]);
        assert(node@ == pages_node_v(kids@, count));
    }
    doc.insert(pages_id, node);
    pages_id
}

/// Inserts a fresh catalog pointing at `pages_id` and returns its identifier.
pub fn insert_catalog(doc: &mut Store, pages_id: ObjId) -> (id: ObjId)
    requires
        old(doc)@.max_id < u32::MAX,
    ensures
        id.num == old(doc)@.max_id + 1,
        id.gen == 0u16,
        final(doc)@.objects == old(doc)@.objects.push((id, catalog_v(pages_id))),
        final(doc)@.max_id == old(doc)@.max_id + 1,
        final(doc)@.trailer == old(doc)@.trailer,
{
    let catalog_id = doc.alloc_id();
    let mut entries: Vec<(Vec<u8>, Obj)> = Vec::new();
    entries.push((k_type(), Obj::Name(n_catalog())));
    entries.push((n_pages(), Obj::Reference(pages_id)));
    let node = Obj::Dictionary(Dict { entries });
    proof {
        lemma_entries_v(node->Dictionary_0.entries@);
        assert(crate::object::entries_v(node->Dictionary_0.entries@) =~= seq![
            (key_type(), ObjV::Name(name_catalog())),
            (name_pages(), ObjV::Reference(pages_id)),
        ]);
        assert(node@ == catalog_v(pages_id));
    }
    doc.insert(catalog_id, node);
    catalog_id
}

/// The store as the finalizer hands it to the encoder: trailer `Root` at the
/// catalog, `Size` one past the highest identifier handed out.
pub open spec fn finalized(s: StoreV, catalog_id: ObjId) -> StoreV {
    StoreV {
        objects: s.objects,
        max_id: s.max_id,
        trailer: dict_set(
            dict_set(s.trailer, key_root(), ObjV::Reference(catalog_id)),
            key_size(),
            ObjV::Integer((s.max_id + 1) as i64),
        ),
    }
}

/// Writes trailer `Root` and `Size`, as `finalized` names it.
pub fn write_trailer(doc: &mut Store, catalog_id: ObjId)
    ensures
        final(doc)@ == finalized(old(doc)@, catalog_id),
{
    let kr = k_root();
    doc.set_trailer(kr.as_slice(), Obj::Reference(catalog_id));
    let size = (doc.max_id as i64) + 1;
    let ks = k_size();
    doc.set_trailer(ks.as_slice(), Obj::Integer(size));
    proof {
        assert(doc@ =~= finalized(old(doc)@, catalog_id));
    }
}

/// The translation table the copier builds against a destination whose
/// counter stands at `base`: the i-th source identifier goes to `base + i + 1`,
/// generation zero.
pub open spec fn mapping_from(s: Seq<(ObjId, ObjV)>, base: u32) -> Seq<(ObjId, ObjId)> {
    Seq::new(s.len(), |i: int| (s[i].0, (ObjId { num: (base + i + 1) as u32, gen: 0u16 })))
}

/// The finishing steps every operation shares: parent the kids to a fresh
/// pages root, add that root and a fresh catalog, and write the trailer.
pub open spec fn assemble(st: StoreV, kids: Seq<ObjId>, count: i64) -> StoreV {
    let pages_id = ObjId { num: (st.max_id + 1) as u32, gen: 0u16 };
    let catalog_id = ObjId { num: (st.max_id + 2) as u32, gen: 0u16 };
    let parented = set_parent_objs(st.objects, kids, pages_id);
    let objs = parented.push((pages_id, pages_node_v(kids, count))).push(
        (catalog_id, catalog_v(pages_id)),
    );
    finalized(
        StoreV { objects: objs, max_id: (st.max_id + 2) as u32, trailer: st.trailer },
        catalog_id,
    )
}

/// The whole of a flatten-style (or single-wrap) reconstruction: copy the
/// source but for the excluded objects into an empty store, then assemble a
/// root whose kids are the given already-remapped identifiers.
pub open spec fn flatten_store(
    src: StoreV,
    excl: Seq<ObjId>,
    kids: Seq<ObjId>,
    count: i64,
) -> StoreV {
    let m = mapping_from(src.objects, 0);
    let copied = copied_objs(src.objects, m, excl);
    assemble(
        StoreV {
            objects: copied,
            max_id: src.objects.len() as u32,
            trailer: Seq::empty(),
        },
        kids,
        count,
    )
}

/// Does the executable result agree with what the operation's specification
/// returns: the same store view on success, the same error on failure?
pub open spec fn agrees(r: Result<Store, PdfError>, s: Result<StoreV, ErrV>) -> bool {
    match r {
        Ok(out) => s matches Ok(sv) && out@ == sv,
        Err(e) => s matches Err(ev) && e@ == ev,
    }
}

/// Can the store's objects be renumbered into a fresh store on this machine:
/// two more identifiers must fit in the counter with the encoder's two of
/// headroom beyond them, and the walk's fuel in usize.
pub open spec fn renumberable(s: StoreV) -> bool {
    s.objects.len() + 4 <= u32::MAX && s.objects.len() < usize::MAX
}

/// Writes trailer `Root` and `Size` and encodes the store; an encoder failure
/// is the only error.
pub fn finalize(doc: &mut Store, catalog_id: ObjId) -> (r: Result<Vec<u8>, PdfError>)
    requires
        old(doc)@.max_id + 2 <= u32::MAX,
    ensures
        final(doc)@ == finalized(old(doc)@, catalog_id),
        r is Ok <==> encoded(finalized(old(doc)@, catalog_id)) is Some,
        r matches Ok(b) ==> Some(b@) == encoded(finalized(old(doc)@, catalog_id)),
        r matches Err(e) ==> e@ == ErrV::Io,
{
    write_trailer(doc, catalog_id);
    match crate::codec::encode_store(doc) {
        Ok(b) => Ok(b),
        Err(e) => Err(PdfError::Io(e)),
    }
}

} // verus!
