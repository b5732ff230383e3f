use vstd::prelude::*;

use crate::names::k_kids;
use crate::names::k_parent;
use crate::names::k_type;
use crate::names::key_count;
use crate::names::key_kids;
use crate::names::key_parent;
use crate::names::key_type;
use crate::names::n_catalog;
use crate::names::n_page;
use crate::names::n_pages;
use crate::names::name_catalog;
use crate::names::name_page;
use crate::names::name_pages;
use crate::object::Dict;
use crate::object::ObjId;
use crate::object::Obj;
use crate::object::ObjV;
use crate::object::bytes_eq;
use crate::object::dict_lookup;
use crate::store::Store;
use crate::store::StoreV;
use crate::store::distinct_ids;
use crate::store::store_lookup;

verus! {

/// The `Type` name of a dictionary, if it carries one.
pub open spec fn dict_type_v(d: Seq<(Seq<u8>, ObjV)>) -> Option<Seq<u8>> {
    match dict_lookup(d, key_type()) {
        Some(ObjV::Name(n)) => Some(n),
        _ => None,
    }
}

/// Is the object a dictionary whose `Type` is the given name?
pub open spec fn is_dict_with_type(o: ObjV, name: Seq<u8>) -> bool {
    match o {
        ObjV::Dictionary(d) => dict_type_v(d) == Some(name),
        _ => false,
    }
}

pub open spec fn is_page_v(o: ObjV) -> bool {
    is_dict_with_type(o, name_page())
}

pub open spec fn is_pages_v(o: ObjV) -> bool {
    is_dict_with_type(o, name_pages())
}

pub open spec fn is_catalog_v(o: ObjV) -> bool {
    is_dict_with_type(o, name_catalog())
}

/// A pages node with no `Parent`: the root of the page tree.
pub open spec fn is_pages_root_v(o: ObjV) -> bool {
    &&& is_pages_v(o)
    &&& match o {
        ObjV::Dictionary(d) => dict_lookup(d, key_parent()) is None,
        _ => false,
    }
}

/// The `Kids` array of a pages node; empty when absent or not an array.
pub open spec fn kids_of(o: ObjV) -> Seq<ObjV> {
    match o {
        ObjV::Dictionary(d) => match dict_lookup(d, key_kids()) {
            Some(ObjV::Array(a)) => a,
            _ => Seq::empty(),
        },
        _ => Seq::empty(),
    }
}

/// The `Count` integer of a pages node, if present.
pub open spec fn count_of(o: ObjV) -> Option<i64> {
    match o {
        ObjV::Dictionary(d) => match dict_lookup(d, key_count()) {
            Some(ObjV::Integer(c)) => Some(c),
            _ => None,
        },
        _ => None,
    }
}

/// Identifier of the first object that is a catalog, in store order.
pub open spec fn find_catalog_v(s: Seq<(ObjId, ObjV)>) -> Option<ObjId>
    decreases s.len(),
{
    if s.len() == 0 {
        None
    } else if is_catalog_v(s[0].1) {
        Some(s[0].0)
    } else {
        find_catalog_v(s.subrange(1, s.len() as int))
    }
}

/// Identifier of the first parent-less pages node, in store order.
pub open spec fn find_pages_root_v(s: Seq<(ObjId, ObjV)>) -> Option<ObjId>
    decreases s.len(),
{
    if s.len() == 0 {
        None
    } else if is_pages_root_v(s[0].1) {
        Some(s[0].0)
    } else {
        find_pages_root_v(s.subrange(1, s.len() as int))
    }
}

proof fn lemma_find_catalog_skip(s: Seq<(ObjId, ObjV)>, i: int)
    requires
        0 <= i < s.len(),
        !is_catalog_v(s[i].1),
    ensures
        find_catalog_v(s.subrange(i, s.len() as int)) == find_catalog_v(
            s.subrange(i + 1, s.len() as int),
        ),
{
    let t = s.subrange(i, s.len() as int);
    assert(t.subrange(1, t.len() as int) =~= s.subrange(i + 1, s.len() as int));
}

proof fn lemma_find_pages_root_skip(s: Seq<(ObjId, ObjV)>, i: int)
    requires
        0 <= i < s.len(),
        !is_pages_root_v(s[i].1),
    ensures
        find_pages_root_v(s.subrange(i, s.len() as int)) == find_pages_root_v(
            s.subrange(i + 1, s.len() as int),
        ),
{
    let t = s.subrange(i, s.len() as int);
    assert(t.subrange(1, t.len() as int) =~= s.subrange(i + 1, s.len() as int));
}

/// The leaf pages reachable from `id`, in depth-first, left-to-right `Kids`
/// order: this enumeration defines the canonical page numbering (1-based by
/// position). The fuel bounds the walk, so a malformed cyclic tree yields a
/// truncated list instead of failing to terminate; any fuel at least the tree
/// depth plus one enumerates an acyclic tree in full.
pub open spec fn leaves(s: Seq<(ObjId, ObjV)>, id: ObjId, fuel: nat) -> Seq<ObjId>
    decreases fuel, 0nat,
{
    if fuel == 0 {
        Seq::empty()
    } else {
        match store_lookup(s, id) {
            Some(o) => if is_page_v(o) {
                seq![id]
            } else if is_pages_v(o) {
                kids_leaves(s, kids_of(o), (fuel - 1) as nat)
            } else {
                Seq::empty()
            },
            None => Seq::empty(),
        }
    }
}

/// Leaves below each `Kids` entry in turn; a kid that is not a reference
/// contributes nothing.
pub open spec fn kids_leaves(s: Seq<(ObjId, ObjV)>, kids: Seq<ObjV>, fuel: nat) -> Seq<ObjId>
    decreases fuel, kids.len() + 1,
{
    if kids.len() == 0 {
        Seq::empty()
    } else {
        (match kids[0] {
            ObjV::Reference(kid) => leaves(s, kid, fuel),
            _ => Seq::empty(),
        }) + kids_leaves(s, kids.subrange(1, kids.len() as int), fuel)
    }
}

proof fn lemma_kids_leaves_skip(s: Seq<(ObjId, ObjV)>, kids: Seq<ObjV>, i: int, fuel: nat)
    requires
        0 <= i < kids.len(),
    ensures
        kids_leaves(s, kids.subrange(i, kids.len() as int), fuel) == (match kids[i] {
            ObjV::Reference(kid) => leaves(s, kid, fuel),
            _ => Seq::empty(),
        }) + kids_leaves(s, kids.subrange(i + 1, kids.len() as int), fuel),
{
    let t = kids.subrange(i, kids.len() as int);
    assert(t.subrange(1, t.len() as int) =~= kids.subrange(i + 1, kids.len() as int));
}

/// The page list of a store, from its pages root; meaningful when the store
/// has one.
pub open spec fn pages_of(s: StoreV) -> Seq<ObjId> {
    leaves(s.objects, find_pages_root_v(s.objects)->Some_0, (s.objects.len() + 1) as nat)
}

/// Is the object a dictionary whose `Type` equals `name`? The executable side
/// of `is_dict_with_type`.
pub fn obj_type_is(o: &Obj, name: &[u8]) -> (r: bool)
    ensures
        r == is_dict_with_type(o@, name@),
{
    match o {
        Obj::Dictionary(d) => {
            let kt = k_type();
            match d.get(kt.as_slice()) {
                Some(t) => match t {
                    Obj::Name(n) => bytes_eq(n.as_slice(), name),
                    _ => false,
                },
                None => false,
            }
        },
        _ => false,
    }
}

/// Has the dictionary no `Parent` entry?
fn obj_parent_absent(o: &Obj) -> (r: bool)
    ensures
        r == match o@ {
            ObjV::Dictionary(d) => dict_lookup(d, key_parent()) is None,
            _ => false,
        },
{
    match o {
        Obj::Dictionary(d) => {
            let kp = k_parent();
            match d.get(kp.as_slice()) {
                Some(_) => false,
                None => true,
            }
        },
        _ => false,
    }
}

/// Identifier of the store's catalog, as `find_catalog_v` names it.
pub fn find_catalog(store: &Store) -> (r: Option<ObjId>)
    ensures
        r == find_catalog_v(store@.objects),
{
    let ghost s = store@.objects;
    let n = store.objects.len();
    proof {
        crate::store::lemma_pairs_v(store.objects@);
        assert(s.subrange(0, n as int) =~= s);
    }
    let np = n_catalog();
    let mut i: usize = 0;
    while i < n
        invariant
            i <= n,
            find_catalog_v(s) == find_catalog_v(s.subrange(i as int, n as int)),
            np@ == name_catalog(),
        decreases n - i,
    {
        if obj_type_is(&store.objects[i].1, np.as_slice()) {
            assert(s.subrange(i as int, n as int)[0] == s[i as int]);
            return Some(store.objects[i].0);
        }
        proof {
            lemma_find_catalog_skip(s, i as int);
        }
        i = i + 1;
    }
    assert(s.subrange(n as int, n as int) =~= Seq::<(ObjId, ObjV)>::empty());
    None
}

/// Identifier of the page-tree root, as `find_pages_root_v` names it.
pub fn find_pages_root(store: &Store) -> (r: Option<ObjId>)
    ensures
        r == find_pages_root_v(store@.objects),
{
    let ghost s = store@.objects;
    let n = store.objects.len();
    proof {
        crate::store::lemma_pairs_v(store.objects@);
        assert(s.subrange(0, n as int) =~= s);
    }
    let np = n_pages();
    let mut i: usize = 0;
    while i < n
        invariant
            i <= n,
            find_pages_root_v(s) == find_pages_root_v(s.subrange(i as int, n as int)),
            np@ == name_pages(),
        decreases n - i,
    {
        if obj_type_is(&store.objects[i].1, np.as_slice())
            && obj_parent_absent(&store.objects[i].1) {
            assert(s.subrange(i as int, n as int)[0] == s[i as int]);
            return Some(store.objects[i].0);
        }
        proof {
            lemma_find_pages_root_skip(s, i as int);
        }
        i = i + 1;
    }
    assert(s.subrange(n as int, n as int) =~= Seq::<(ObjId, ObjV)>::empty());
    None
}

/// The leaves below `id`, as the `leaves` walk names them.
fn leaves_rec(store: &Store, id: ObjId, fuel: usize) -> (r: Vec<ObjId>)
    requires
        distinct_ids(store@.objects),
    ensures
        r@ == leaves(store@.objects, id, fuel as nat),
    decreases fuel, 0int,
{
    let ghost s = store@.objects;
    if fuel == 0 {
        let r: Vec<ObjId> = Vec::new();
        proof {
            assert(r@ =~= leaves(s, id, 0nat));
        }
        return r;
    }
    match store.get(id) {
        None => {
            let r: Vec<ObjId> = Vec::new();
            proof {
                assert(r@ =~= leaves(s, id, fuel as nat));
            }
            r
        },
        Some(o) => {
            let npage = n_page();
            let npages = n_pages();
            if obj_type_is(o, npage.as_slice()) {
                let mut r: Vec<ObjId> = Vec::new();
                r.push(id);
                proof {
                    assert(r@ =~= leaves(s, id, fuel as nat));
                }
                r
            } else if obj_type_is(o, npages.as_slice()) {
                let kk = k_kids();
                match o {
                    Obj::Dictionary(d) => {
                        match d.get(kk.as_slice()) {
                            Some(kobj) => match kobj {
                                Obj::Array(a) => {
                                    let r = walk_kids(store, a, fuel - 1);
                                    proof {
                                        assert(kids_of(o@) == crate::object::objs_v(a@));
                                    }
                                    r
                                },
                                _ => {
                                    let r: Vec<ObjId> = Vec::new();
                                    proof {
                                        assert(kids_of(o@) =~= Seq::<ObjV>::empty());
                                        assert(r@ =~= leaves(s, id, fuel as nat));
                                    }
                                    r
                                },
                            },
                            None => {
                                let r: Vec<ObjId> = Vec::new();
                                proof {
                                    assert(kids_of(o@) =~= Seq::<ObjV>::empty());
                                    assert(r@ =~= leaves(s, id, fuel as nat));
                                }
                                r
                            },
                        }
                    },
                    _ => {
                        let r: Vec<ObjId> = Vec::new();
                        proof {
                            assert(r@ =~= leaves(s, id, fuel as nat));
                        }
                        r
                    },
                }
            } else {
                let r: Vec<ObjId> = Vec::new();
                proof {
                    assert(r@ =~= leaves(s, id, fuel as nat));
                }
                r
            }
        },
    }
}

/// The leaves below each kid of a pages node, left to right.
fn walk_kids(store: &Store, kids: &Vec<Obj>, fuel: usize) -> (r: Vec<ObjId>)
    requires
        distinct_ids(store@.objects),
    ensures
        r@ == kids_leaves(store@.objects, crate::object::objs_v(kids@), fuel as nat),
    decreases fuel, kids.len() + 1,
{
    let ghost s = store@.objects;
    let ghost kv = crate::object::objs_v(kids@);
    proof {
        crate::object::lemma_objs_v(kids@);
        assert(kv.subrange(0, kv.len() as int) =~= kv);
    }
    let n = kids.len();
    let mut out: Vec<ObjId> = Vec::new();
    let mut i: usize = 0;
    while i < n
        invariant
            i <= n,
            kids_leaves(s, kv, fuel as nat) == out@ + kids_leaves(
                s,
                kv.subrange(i as int, n as int),
                fuel as nat,
            ),
        decreases n - i,
    {
        proof {
            lemma_kids_leaves_skip(s, kv, i as int, fuel as nat);
        }
        match &kids[i] {
            Obj::Reference(kid) => {
                let sub = leaves_rec(store, *kid, fuel);
                assert(sub@ == leaves(s, kv[i as int]->Reference_0, fuel as nat));
                append_ids(&mut out, &sub);
            },
            _ => {
                assert((match kv[i as int] {
                    ObjV::Reference(kid) => leaves(s, kid, fuel as nat),
                    _ => Seq::empty(),
                }) =~= Seq::<ObjId>::empty());
            },
        }
        proof {
            assert(kids_leaves(s, kv, fuel as nat) =~= out@ + kids_leaves(
                s,
                kv.subrange(i as int + 1, n as int),
                fuel as nat,
            ));
        }
        i = i + 1;
    }
    assert(kv.subrange(n as int, n as int) =~= Seq::<ObjV>::empty());
    assert(out@ =~= kids_leaves(s, kv, fuel as nat));
    out
}

/// Appends every identifier of `src` to `dst`, in order.
fn append_ids(dst: &mut Vec<ObjId>, src: &Vec<ObjId>)
    ensures
        final(dst)@ == old(dst)@ + src@,
{
    let ghost d0 = dst@;
    let m = src.len();
    let mut j: usize = 0;
    while j < m
        invariant
            j <= m,
            dst@ == d0 + src@.subrange(0, j as int),
        decreases m - j,
    {
        proof {
            assert(d0 + src@.subrange(0, j as int + 1) =~= (d0 + src@.subrange(0, j as int)).push(
                src@[j as int],
            ));
        }
        dst.push(src[j]);
        j = j + 1;
    }
    assert(dst@ =~= d0 + src@);
}

/// Leaf pages in document order: page `n` is entry `n - 1`.
pub fn enumerate_pages(store: &Store, root: ObjId) -> (r: Vec<ObjId>)
    requires
        distinct_ids(store@.objects),
        store@.objects.len() < usize::MAX,
    ensures
        r@ == leaves(store@.objects, root, (store@.objects.len() + 1) as nat),
{
    proof {
        crate::store::lemma_pairs_v(store.objects@);
    }
    let n = store.objects.len();
    leaves_rec(store, root, n + 1)
}

} // verus!
