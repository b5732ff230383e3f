use vstd::prelude::*;

use crate::builder::catalog_v;
use crate::builder::contains_id;
use crate::builder::copied_objs;
use crate::builder::mapping_from;
use crate::builder::pages_node_v;
use crate::builder::refs_of;
use crate::builder::set_entry_obj_v;
use crate::builder::set_parent_obj_v;
use crate::builder::set_parent_objs;
use crate::names::key_count;
use crate::names::key_kids;
use crate::names::key_parent;
use crate::names::key_rotate;
use crate::names::key_type;
use crate::names::name_catalog;
use crate::names::name_page;
use crate::names::name_pages;
use crate::object::ObjId;
use crate::object::ObjV;
use crate::object::dict_lookup;
use crate::object::dict_set;
use crate::remap::remap_entries;
use crate::remap::remap_v;
use crate::store::StoreV;
use crate::store::distinct_ids;
use crate::store::has_id;
use crate::store::id_index;
use crate::store::store_lookup;
use crate::locate::count_of;
use crate::locate::find_catalog_v;
use crate::locate::find_pages_root_v;
use crate::locate::is_catalog_v;
use crate::locate::is_page_v;
use crate::locate::is_pages_root_v;
use crate::locate::is_pages_v;
use crate::locate::kids_of;
use crate::locate::kids_leaves;
use crate::locate::leaves;
use crate::locate::pages_of;

verus! {

/// Binding one key leaves every other binding alone.
pub proof fn lemma_dict_set_lookup(d: Seq<(Seq<u8>, ObjV)>, k0: Seq<u8>, v: ObjV, k: Seq<u8>)
    ensures
        dict_lookup(dict_set(d, k0, v), k) == (if k == k0 {
            Some(v)
        } else {
            dict_lookup(d, k)
        }),
    decreases d.len(),
{
    if d.len() == 0 {
        let r = seq![(k0, v)];
        assert(dict_set(d, k0, v) == r);
        assert(r.len() == 1);
        assert(r[0] == (k0, v));
        if k == k0 {
            assert(dict_lookup(r, k) == Some(v));
        } else {
            assert(r.subrange(1, r.len() as int) =~= Seq::<(Seq<u8>, ObjV)>::empty());
            assert(dict_lookup(Seq::<(Seq<u8>, ObjV)>::empty(), k) is None);
            assert(dict_lookup(r.subrange(1, r.len() as int), k) is None);
            assert(dict_lookup(r, k) is None);
            assert(dict_lookup(d, k) is None);
        }
    } else if d[0].0 == k0 {
        let u = d.update(0, (k0, v));
        assert(dict_set(d, k0, v) == u);
        assert(u[0] == (k0, v));
        if k == k0 {
            assert(dict_lookup(u, k) == Some(v));
        } else {
            assert(u.subrange(1, u.len() as int) =~= d.subrange(1, d.len() as int));
            assert(dict_lookup(u, k) == dict_lookup(u.subrange(1, u.len() as int), k));
            assert(dict_lookup(d, k) == dict_lookup(d.subrange(1, d.len() as int), k));
        }
    } else {
        let tail = d.subrange(1, d.len() as int);
        lemma_dict_set_lookup(tail, k0, v, k);
        let r = seq![d[0]] + dict_set(tail, k0, v);
        assert(dict_set(d, k0, v) == r);
        assert(r[0] == d[0]);
        assert(r.subrange(1, r.len() as int) =~= dict_set(tail, k0, v));
        if k == d[0].0 {
            assert(dict_lookup(r, k) == Some(r[0].1));
            assert(dict_lookup(d, k) == Some(d[0].1));
        } else {
            assert(dict_lookup(r, k) == dict_lookup(r.subrange(1, r.len() as int), k));
            assert(dict_lookup(d, k) == dict_lookup(tail, k));
        }
    }
}

/// Setting a dictionary entry other than `Type` keeps the locator's view of
/// the object's kind.
pub proof fn lemma_set_entry_structure(o: ObjV, key: Seq<u8>, v: ObjV)
    requires
        key != key_type(),
    ensures
        is_page_v(set_entry_obj_v(o, key, v)) == is_page_v(o),
        is_pages_v(set_entry_obj_v(o, key, v)) == is_pages_v(o),
        is_catalog_v(set_entry_obj_v(o, key, v)) == is_catalog_v(o),
{
    match o {
        ObjV::Dictionary(d) => {
            lemma_dict_set_lookup(d, key, v, key_type());
        },
        _ => {
        },
    }
}

/// The dictionary keys and type names the engine writes are pairwise
/// distinct byte strings.
pub proof fn lemma_names_distinct()
    ensures
        key_parent() != key_type(),
        key_kids() != key_type(),
        key_count() != key_type(),
        key_rotate() != key_type(),
        key_parent() != key_kids(),
        key_parent() != key_count(),
        name_page() != name_pages(),
        name_catalog() != name_pages(),
        name_catalog() != name_page(),
{
    assert(key_parent().len() == 6 && key_type().len() == 4);
    assert(key_kids()[0] == 75u8 && key_type()[0] == 84u8);
    assert(key_count().len() == 5 && key_type().len() == 4);
    assert(key_rotate().len() == 6 && key_type().len() == 4);
    assert(key_parent()[0] == 80u8 && key_kids()[0] == 75u8);
    assert(key_parent()[0] == 80u8 && key_count()[0] == 67u8);
    assert(name_page().len() == 4 && name_pages().len() == 5);
    assert(name_catalog().len() == 7);
}

/// Binding a key twice keeps only the second binding.
pub proof fn lemma_dict_set_overwrite(d: Seq<(Seq<u8>, ObjV)>, k: Seq<u8>, v1: ObjV, v2: ObjV)
    ensures
        dict_set(dict_set(d, k, v1), k, v2) == dict_set(d, k, v2),
    decreases d.len(),
{
    if d.len() == 0 {
        let r1 = seq![(k, v1)];
        assert(dict_set(d, k, v1) == r1);
        assert(r1[0].0 == k);
        assert(dict_set(r1, k, v2) =~= r1.update(0, (k, v2)));
        assert(dict_set(d, k, v2) =~= seq![(k, v2)]);
        assert(dict_set(dict_set(d, k, v1), k, v2) =~= dict_set(d, k, v2));
    } else if d[0].0 == k {
        let u = d.update(0, (k, v1));
        assert(dict_set(d, k, v1) == u);
        assert(u[0].0 == k);
        assert(dict_set(u, k, v2) =~= u.update(0, (k, v2)));
        assert(dict_set(d, k, v2) =~= d.update(0, (k, v2)));
        assert(dict_set(dict_set(d, k, v1), k, v2) =~= dict_set(d, k, v2));
    } else {
        let tail = d.subrange(1, d.len() as int);
        lemma_dict_set_overwrite(tail, k, v1, v2);
        let r = seq![d[0]] + dict_set(tail, k, v1);
        assert(dict_set(d, k, v1) == r);
        assert(r[0] == d[0]);
        assert(r.subrange(1, r.len() as int) =~= dict_set(tail, k, v1));
        assert(dict_set(r, k, v2) =~= seq![d[0]] + dict_set(dict_set(tail, k, v1), k, v2));
        assert(dict_set(d, k, v2) =~= seq![d[0]] + dict_set(tail, k, v2));
    }
}

/// Setting `Parent` twice in a row is the same as setting it once.
pub proof fn lemma_dict_set_idem(d: Seq<(Seq<u8>, ObjV)>, k: Seq<u8>, v: ObjV)
    ensures
        dict_set(dict_set(d, k, v), k, v) == dict_set(d, k, v),
{
    lemma_dict_set_overwrite(d, k, v, v);
}

pub proof fn lemma_set_parent_obj_idem(o: ObjV, p: ObjId)
    ensures
        set_parent_obj_v(set_parent_obj_v(o, p), p) == set_parent_obj_v(o, p),
{
    match o {
        ObjV::Dictionary(d) => {
            lemma_dict_set_idem(d, key_parent(), ObjV::Reference(p));
        },
        _ => {
        },
    }
}

/// What parenting a list of kids does, entry by entry: each object bound to
/// a listed identifier has its `Parent` set once; everything else is left.
pub proof fn lemma_set_parent_objs_char(s: Seq<(ObjId, ObjV)>, ids: Seq<ObjId>, p: ObjId)
    ensures
        set_parent_objs(s, ids, p).len() == s.len(),
        forall|j: int|
            0 <= j < s.len() ==> (#[trigger] set_parent_objs(s, ids, p)[j]) == (
            s[j].0,
            if contains_id(ids, s[j].0) {
                set_parent_obj_v(s[j].1, p)
            } else {
                s[j].1
            },
            ),
    decreases ids.len(),
{
    if ids.len() > 0 {
        let head = ids.subrange(0, ids.len() - 1);
        lemma_set_parent_objs_char(s, head, p);
        let prev = set_parent_objs(s, head, p);
        let last = ids[ids.len() - 1];
        assert forall|j: int| 0 <= j < s.len() implies (#[trigger] set_parent_objs(s, ids, p)[j])
            == (
        s[j].0,
        if contains_id(ids, s[j].0) {
            set_parent_obj_v(s[j].1, p)
        } else {
            s[j].1
        },
        ) by {
            assert(set_parent_objs(s, ids, p) == crate::builder::set_parent_one(prev, last, p));
            assert(prev[j].0 == s[j].0);
            if contains_id(ids, s[j].0) {
                if s[j].0 == last {
                    if contains_id(head, s[j].0) {
                        lemma_set_parent_obj_idem(s[j].1, p);
                    }
                } else {
                    let w = choose|i: int| 0 <= i < ids.len() && ids[i] == s[j].0;
                    assert(head[w] == s[j].0);
                    assert(contains_id(head, s[j].0));
                }
            } else {
                assert(!contains_id(head, s[j].0)) by {
                    if contains_id(head, s[j].0) {
                        let w = choose|i: int| 0 <= i < head.len() && head[i] == s[j].0;
                        assert(ids[w] == s[j].0);
                    }
                }
                assert(s[j].0 != last);
            }
        }
    } else {
        assert forall|j: int| 0 <= j < s.len() implies !contains_id(ids, s[j].0) by {
        }
    }
}

/// Every identifier the leaf walk returns is bound to a page dictionary.
pub proof fn lemma_leaves_are_pages(s: Seq<(ObjId, ObjV)>, id: ObjId, fuel: nat)
    ensures
        forall|k: int|
            0 <= k < leaves(s, id, fuel).len() ==> (store_lookup(
                s,
                #[trigger] leaves(s, id, fuel)[k],
            ) matches Some(o) && is_page_v(o)),
    decreases fuel, 0nat,
{
    if fuel > 0 {
        match store_lookup(s, id) {
            Some(o) => {
                if is_page_v(o) {
                } else if is_pages_v(o) {
                    lemma_kids_leaves_are_pages(s, kids_of(o), (fuel - 1) as nat);
                }
            },
            None => {
            },
        }
    }
}

pub proof fn lemma_kids_leaves_are_pages(s: Seq<(ObjId, ObjV)>, kids: Seq<ObjV>, fuel: nat)
    ensures
        forall|k: int|
            0 <= k < kids_leaves(s, kids, fuel).len() ==> (store_lookup(
                s,
                #[trigger] kids_leaves(s, kids, fuel)[k],
            ) matches Some(o) && is_page_v(o)),
    decreases fuel, kids.len() + 1,
{
    if kids.len() > 0 {
        match kids[0] {
            ObjV::Reference(kid) => {
                lemma_leaves_are_pages(s, kid, fuel);
            },
            _ => {
            },
        }
        lemma_kids_leaves_are_pages(s, kids.subrange(1, kids.len() as int), fuel);
    }
}

/// A root whose kids all stand for page dictionaries enumerates exactly
/// those kids, in order.
pub proof fn lemma_kids_all_pages(s: Seq<(ObjId, ObjV)>, kids: Seq<ObjId>, fuel: nat)
    requires
        fuel >= 1,
        forall|i: int|
            0 <= i < kids.len() ==> (store_lookup(s, #[trigger] kids[i]) matches Some(o)
                && is_page_v(o)),
    ensures
        kids_leaves(s, refs_of(kids), fuel) == kids,
    decreases kids.len(),
{
    if kids.len() == 0 {
        assert(kids_leaves(s, refs_of(kids), fuel) =~= kids);
    } else {
        let tail = kids.subrange(1, kids.len() as int);
        lemma_kids_all_pages(s, tail, fuel);
        let r = refs_of(kids);
        assert(r[0] == ObjV::Reference(kids[0]));
        assert(r.subrange(1, r.len() as int) =~= refs_of(tail));
        assert(leaves(s, kids[0], fuel) == seq![kids[0]]);
        assert(kids_leaves(s, refs_of(kids), fuel) =~= kids);
    }
}

/// The first catalog, and first parent-less pages node, of a list where only
/// the final two entries qualify.
pub proof fn lemma_find_in_built(
    s: Seq<(ObjId, ObjV)>,
    pages_id: ObjId,
    node: ObjV,
    catalog_id: ObjId,
    cat: ObjV,
)
    requires
        forall|k: int| 0 <= k < s.len() ==> !is_pages_root_v((#[trigger] s[k]).1),
        forall|k: int| 0 <= k < s.len() ==> !is_catalog_v((#[trigger] s[k]).1),
        is_pages_root_v(node),
        !is_catalog_v(node),
        is_catalog_v(cat),
    ensures
        find_pages_root_v(s.push((pages_id, node)).push((catalog_id, cat))) == Some(pages_id),
        find_catalog_v(s.push((pages_id, node)).push((catalog_id, cat))) == Some(catalog_id),
    decreases s.len(),
{
    let t = s.push((pages_id, node)).push((catalog_id, cat));
    if s.len() == 0 {
        assert(t[0] == (pages_id, node));
        assert(t.subrange(1, t.len() as int) =~= seq![(catalog_id, cat)]);
        let u = t.subrange(1, t.len() as int);
        assert(u[0] == (catalog_id, cat));
        assert(u.subrange(1, u.len() as int) =~= Seq::<(ObjId, ObjV)>::empty());
        assert(find_catalog_v(u) == Some(catalog_id));
    } else {
        let s2 = s.subrange(1, s.len() as int);
        lemma_find_in_built(s2, pages_id, node, catalog_id, cat);
        assert(t[0] == s[0]);
        assert(!is_catalog_v(s[0].1));
        assert(!is_pages_root_v(s[0].1));
        assert(t.subrange(1, t.len() as int) =~= s2.push((pages_id, node)).push(
            (catalog_id, cat),
        ));
    }
}

/// What the locator sees of a freshly built pages node and catalog.
pub proof fn lemma_node_props(kids: Seq<ObjId>, count: i64, pages_id: ObjId)
    ensures
        is_pages_root_v(pages_node_v(kids, count)),
        !is_catalog_v(pages_node_v(kids, count)),
        !is_page_v(pages_node_v(kids, count)),
        is_pages_v(pages_node_v(kids, count)),
        kids_of(pages_node_v(kids, count)) == refs_of(kids),
        count_of(pages_node_v(kids, count)) == Some(count),
        is_catalog_v(catalog_v(pages_id)),
        !is_pages_root_v(catalog_v(pages_id)),
        !is_page_v(catalog_v(pages_id)),
        !is_pages_v(catalog_v(pages_id)),
{
    lemma_names_distinct();
    let d = seq![
        (key_type(), ObjV::Name(name_pages())),
        (key_kids(), ObjV::Array(refs_of(kids))),
        (key_count(), ObjV::Integer(count)),
    ];
    assert(d.len() == 3);
    assert(d[0] == (key_type(), ObjV::Name(name_pages())));
    let d1 = d.subrange(1, 3);
    assert(d1.len() == 2);
    assert(d1[0] == (key_kids(), ObjV::Array(refs_of(kids))));
    let d2 = d1.subrange(1, 2);
    assert(d2.len() == 1);
    assert(d2[0] == (key_count(), ObjV::Integer(count)));
    assert(dict_lookup(d, key_type()) == Some(ObjV::Name(name_pages())));
    assert(dict_lookup(d1, key_kids()) == Some(ObjV::Array(refs_of(kids))));
    assert(dict_lookup(d, key_kids()) == dict_lookup(d1, key_kids()));
    assert(dict_lookup(d2, key_count()) == Some(ObjV::Integer(count)));
    assert(dict_lookup(d1, key_count()) == dict_lookup(d2, key_count()));
    assert(dict_lookup(d, key_count()) == dict_lookup(d1, key_count()));
    assert(d2.subrange(1, 1) =~= Seq::<(Seq<u8>, ObjV)>::empty());
    assert(dict_lookup(Seq::<(Seq<u8>, ObjV)>::empty(), key_parent()) is None);
    assert(dict_lookup(d2.subrange(1, 1), key_parent()) is None);
    assert(dict_lookup(d2, key_parent()) is None);
    assert(dict_lookup(d1, key_parent()) is None);
    assert(dict_lookup(d, key_parent()) is None);
    let c = seq![
        (key_type(), ObjV::Name(name_catalog())),
        (name_pages(), ObjV::Reference(pages_id)),
    ];
    assert(c.len() == 2);
    assert(c[0] == (key_type(), ObjV::Name(name_catalog())));
    assert(dict_lookup(c, key_type()) == Some(ObjV::Name(name_catalog())));
}

/// Is `id` never the identifier of any entry in the listed pages, catalog or
/// root roles: two structural kinds cannot share one object.
pub proof fn lemma_kinds_exclusive(a: ObjV)
    ensures
        !(is_page_v(a) && is_pages_v(a)),
        !(is_page_v(a) && is_catalog_v(a)),
        !(is_pages_v(a) && is_catalog_v(a)),
{
    lemma_names_distinct();
}

/// In a list with distinct identifiers, the entry an identifier is bound to
/// is the one the lookup returns.
pub proof fn lemma_lookup_at(s: Seq<(ObjId, ObjV)>, j: int)
    requires
        distinct_ids(s),
        0 <= j < s.len(),
    ensures
        store_lookup(s, s[j].0) == Some(s[j].1),
{
    assert(has_id(s, s[j].0));
    let w = id_index(s, s[j].0);
    assert(0 <= w < s.len() && s[w].0 == s[j].0);
    if w != j {
        assert(false);
    }
}

/// Two lists with the same identifiers in the same places look the same to a
/// lookup, value for value through `f`-style pointwise change.
pub proof fn lemma_lookup_pointwise(s: Seq<(ObjId, ObjV)>, t: Seq<(ObjId, ObjV)>, id: ObjId)
    requires
        distinct_ids(s),
        s.len() == t.len(),
        forall|j: int| 0 <= j < s.len() ==> (#[trigger] t[j]).0 == s[j].0,
    ensures
        distinct_ids(t),
        has_id(t, id) == has_id(s, id),
        has_id(s, id) ==> store_lookup(t, id) == Some(t[id_index(s, id)].1),
{
    assert forall|a: int, b: int| 0 <= a < b < t.len() implies t[a].0 != t[b].0 by {
        assert(s[a].0 != s[b].0);
    }
    if has_id(s, id) {
        let w = id_index(s, id);
        assert(0 <= w < s.len() && s[w].0 == id);
        assert(t[w].0 == id);
        assert(has_id(t, id));
        let u = id_index(t, id);
        assert(0 <= u < t.len() && t[u].0 == id);
        assert(s[u].0 == id);
        if u != w {
            assert(false);
        }
    }
    if has_id(t, id) {
        let u = id_index(t, id);
        assert(0 <= u < t.len() && t[u].0 == id);
        assert(s[u].0 == id);
        assert(has_id(s, id));
    }
}

/// What a flatten (or single-wrap) reconstruction looks like, in whole: the
/// new root and catalog are the ones the locator finds, the enumeration of
/// the output is exactly the chosen kid list, and each kid holds its copied
/// object with `Parent` rebound — no more and no less.
#[verifier::rlimit(100)]
pub proof fn lemma_flatten_pages(src: StoreV, excl: Seq<ObjId>, kids: Seq<ObjId>, count: i64)
    requires
        distinct_ids(src.objects),
        src.objects.len() + 2 <= u32::MAX,
        forall|k: int|
            0 <= k < copied_objs(src.objects, mapping_from(src.objects, 0), excl).len() ==> (
            contains_id(kids, (#[trigger] copied_objs(
                src.objects,
                mapping_from(src.objects, 0),
                excl,
            )[k]).0) || !is_pages_root_v(copied_objs(
                src.objects,
                mapping_from(src.objects, 0),
                excl,
            )[k].1)),
        forall|k: int|
            0 <= k < copied_objs(src.objects, mapping_from(src.objects, 0), excl).len()
                ==> !is_catalog_v((#[trigger] copied_objs(
                src.objects,
                mapping_from(src.objects, 0),
                excl,
            )[k]).1),
        forall|i: int|
            0 <= i < kids.len() ==> (store_lookup(
                copied_objs(src.objects, mapping_from(src.objects, 0), excl),
                #[trigger] kids[i],
            ) matches Some(o) && is_page_v(o)),
    ensures
        ({
            let n = src.objects.len() as int;
            let pages_id = ObjId { num: (n + 1) as u32, gen: 0u16 };
            let catalog_id = ObjId { num: (n + 2) as u32, gen: 0u16 };
            let copied = copied_objs(src.objects, mapping_from(src.objects, 0), excl);
            let out = crate::builder::flatten_store(src, excl, kids, count);
            &&& find_pages_root_v(out.objects) == Some(pages_id)
            &&& find_catalog_v(out.objects) == Some(catalog_id)
            &&& distinct_ids(out.objects)
            &&& pages_of(out) == kids
            &&& store_lookup(out.objects, pages_id) == Some(pages_node_v(kids, count))
            &&& store_lookup(out.objects, catalog_id) == Some(catalog_v(pages_id))
            &&& forall|i: int|
                0 <= i < kids.len() ==> store_lookup(out.objects, #[trigger] kids[i]) == Some(
                    set_parent_obj_v(store_lookup(copied, kids[i])->Some_0, pages_id),
                )
            &&& forall|k: int|
                0 <= k < out.objects.len() ==> (#[trigger] out.objects[k]).0.num <= (n + 2)
        }),
{
    let n = src.objects.len() as int;
    let m = mapping_from(src.objects, 0);
    let pages_id = ObjId { num: (n + 1) as u32, gen: 0u16 };
    let catalog_id = ObjId { num: (n + 2) as u32, gen: 0u16 };
    let copied = copied_objs(src.objects, m, excl);
    let parented = set_parent_objs(copied, kids, pages_id);
    let node = pages_node_v(kids, count);
    let cat = catalog_v(pages_id);
    let out = crate::builder::flatten_store(src, excl, kids, count);
    crate::builder::lemma_copied_facts(src.objects, m, excl, 0u32, n);
    assert(src.objects.subrange(0, n) =~= src.objects);
    lemma_set_parent_objs_char(copied, kids, pages_id);
    lemma_node_props(kids, count, pages_id);
    lemma_names_distinct();
    assert(out.objects =~= parented.push((pages_id, node)).push((catalog_id, cat)));

    // every parented entry keeps its identifier, and none is a root or a
    // catalog: a kid is a page dictionary whose fresh `Parent` disqualifies
    // it, anything else was already neither.
    assert forall|k: int| 0 <= k < parented.len() implies !is_pages_root_v(
        (#[trigger] parented[k]).1,
    ) && !is_catalog_v(parented[k].1) by {
        assert(parented[k].0 == copied[k].0);
        if contains_id(kids, copied[k].0) {
            let i = choose|i: int| 0 <= i < kids.len() && kids[i] == copied[k].0;
            assert(store_lookup(copied, kids[i]) matches Some(o) && is_page_v(o));
            lemma_lookup_at(copied, k);
            assert(store_lookup(copied, copied[k].0) == Some(copied[k].1));
            assert(is_page_v(copied[k].1));
            assert(parented[k].1 == set_parent_obj_v(copied[k].1, pages_id));
            lemma_set_entry_structure(copied[k].1, key_parent(), ObjV::Reference(pages_id));
            lemma_kinds_exclusive(parented[k].1);
            match copied[k].1 {
                ObjV::Dictionary(d) => {
                    lemma_dict_set_lookup(
                        d,
                        key_parent(),
                        ObjV::Reference(pages_id),
                        key_parent(),
                    );
                },
                _ => {
                },
            }
        } else {
            assert(parented[k].1 == copied[k].1);
        }
    }

    lemma_find_in_built(parented, pages_id, node, catalog_id, cat);

    // distinctness: parented keeps the copied identifiers, and the two new
    // numbers lie above every copied one.
    lemma_lookup_pointwise(copied, parented, pages_id);
    assert(distinct_ids(parented));
    assert forall|k: int| 0 <= k < parented.len() implies 1 <= (
    #[trigger] parented[k]).0.num <= n by {
        assert(parented[k].0 == copied[k].0);
    }
    assert(!has_id(parented, pages_id));
    crate::store::lemma_lookup_push(parented, (pages_id, node));
    let with_node = parented.push((pages_id, node));
    assert(!has_id(with_node, catalog_id)) by {
        if has_id(with_node, catalog_id) {
            let w = id_index(with_node, catalog_id);
            assert(0 <= w < with_node.len() && with_node[w].0 == catalog_id);
            if w < parented.len() {
                assert(parented[w].0.num <= n);
            }
        }
    }
    crate::store::lemma_lookup_push(with_node, (catalog_id, cat));
    assert(distinct_ids(out.objects));
    assert(store_lookup(out.objects, pages_id) == Some(node));
    assert(store_lookup(out.objects, catalog_id) == Some(cat));

    // each kid id lies at or below n, so the two pushes leave its lookup
    // alone, and parenting rebinds exactly its `Parent`.
    assert forall|i: int| 0 <= i < kids.len() implies store_lookup(
        out.objects,
        #[trigger] kids[i],
    ) == Some(set_parent_obj_v(store_lookup(copied, kids[i])->Some_0, pages_id)) by {
        assert(store_lookup(copied, kids[i]) is Some);
        assert(has_id(copied, kids[i]));
        let w = id_index(copied, kids[i]);
        assert(0 <= w < copied.len() && copied[w].0 == kids[i]);
        assert(copied[w].0.num <= n);
        assert(kids[i] != pages_id && kids[i] != catalog_id);
        lemma_lookup_pointwise(copied, parented, kids[i]);
        assert(store_lookup(parented, kids[i]) == Some(parented[w].1));
        assert(contains_id(kids, copied[w].0));
        assert(parented[w].1 == set_parent_obj_v(copied[w].1, pages_id));
        lemma_lookup_at(copied, w);
        assert(store_lookup(out.objects, kids[i]) == store_lookup(with_node, kids[i]));
        assert(store_lookup(with_node, kids[i]) == store_lookup(parented, kids[i]));
    }

    // the enumeration: the new root is a pages node whose kids are all page
    // dictionaries, so the walk returns exactly the kid list.
    let fuel = (out.objects.len() + 1) as nat;
    assert(fuel >= 2);
    assert forall|i: int| 0 <= i < kids.len() implies (store_lookup(
        out.objects,
        #[trigger] kids[i],
    ) matches Some(o) && is_page_v(o)) by {
        assert(store_lookup(out.objects, kids[i]) == Some(
            set_parent_obj_v(store_lookup(copied, kids[i])->Some_0, pages_id),
        ));
        lemma_set_entry_structure(
            store_lookup(copied, kids[i])->Some_0,
            key_parent(),
            ObjV::Reference(pages_id),
        );
    }
    lemma_kids_all_pages(out.objects, kids, (fuel - 1) as nat);
    assert(leaves(out.objects, pages_id, fuel) == kids_leaves(
        out.objects,
        refs_of(kids),
        (fuel - 1) as nat,
    ));
    assert(pages_of(out) == kids);

    assert forall|k: int| 0 <= k < out.objects.len() implies (
    #[trigger] out.objects[k]).0.num <= (n + 2) by {
        if k < parented.len() {
            assert(parented[k].0.num <= n);
        }
    }
}

/// The identifier the locator returns is bound, and to a catalog.
pub proof fn lemma_find_catalog_char(s: Seq<(ObjId, ObjV)>)
    requires
        distinct_ids(s),
        find_catalog_v(s) is Some,
    ensures
        store_lookup(s, find_catalog_v(s)->Some_0) matches Some(o) && is_catalog_v(o),
    decreases s.len(),
{
    if s.len() > 0 {
        if is_catalog_v(s[0].1) {
            lemma_lookup_at(s, 0);
        } else {
            let tail = s.subrange(1, s.len() as int);
            assert forall|a: int, b: int| 0 <= a < b < tail.len() implies tail[a].0
                != tail[b].0 by {
                assert(s[a + 1].0 == tail[a].0 && s[b + 1].0 == tail[b].0);
            }
            lemma_find_catalog_char(tail);
            let c = find_catalog_v(s)->Some_0;
            assert(find_catalog_v(tail) == Some(c));
            assert(has_id(tail, c));
            let w = id_index(tail, c);
            assert(0 <= w < tail.len() && tail[w].0 == c);
            assert(s[w + 1] == tail[w]);
            lemma_lookup_at(s, w + 1);
            assert(store_lookup(s, c) == Some(tail[w].1));
            assert(store_lookup(tail, c) == Some(tail[w].1)) by {
                lemma_lookup_at(tail, w);
            }
        }
    }
}

/// The identifier the locator returns is bound, and to a parent-less pages
/// node.
pub proof fn lemma_find_root_char(s: Seq<(ObjId, ObjV)>)
    requires
        distinct_ids(s),
        find_pages_root_v(s) is Some,
    ensures
        store_lookup(s, find_pages_root_v(s)->Some_0) matches Some(o) && is_pages_root_v(o),
    decreases s.len(),
{
    if s.len() > 0 {
        if is_pages_root_v(s[0].1) {
            lemma_lookup_at(s, 0);
        } else {
            let tail = s.subrange(1, s.len() as int);
            assert forall|a: int, b: int| 0 <= a < b < tail.len() implies tail[a].0
                != tail[b].0 by {
                assert(s[a + 1].0 == tail[a].0 && s[b + 1].0 == tail[b].0);
            }
            lemma_find_root_char(tail);
            let c = find_pages_root_v(s)->Some_0;
            assert(find_pages_root_v(tail) == Some(c));
            assert(has_id(tail, c));
            let w = id_index(tail, c);
            assert(0 <= w < tail.len() && tail[w].0 == c);
            assert(s[w + 1] == tail[w]);
            lemma_lookup_at(s, w + 1);
            assert(store_lookup(s, c) == Some(tail[w].1));
            assert(store_lookup(tail, c) == Some(tail[w].1)) by {
                lemma_lookup_at(tail, w);
            }
        }
    }
}

/// A store in the shape every decoded document is expected to have: well
/// formed, with one catalog and one parent-less pages node, and no page
/// listed twice by the enumeration.
pub open spec fn tidy(s: StoreV) -> bool {
    &&& s.wf()
    &&& find_catalog_v(s.objects) is Some
    &&& find_pages_root_v(s.objects) is Some
    &&& forall|k: int|
        0 <= k < s.objects.len() ==> (is_pages_root_v((#[trigger] s.objects[k]).1)
            ==> s.objects[k].0 == find_pages_root_v(s.objects)->Some_0)
    &&& forall|k: int|
        0 <= k < s.objects.len() ==> (is_catalog_v((#[trigger] s.objects[k]).1)
            ==> s.objects[k].0 == find_catalog_v(s.objects)->Some_0)
    &&& forall|i: int, j: int|
        0 <= i < j < pages_of(s).len() ==> pages_of(s)[i] != pages_of(s)[j]
}

/// The flatten operations' exclusion: the source's catalog and root.
pub open spec fn flatten_excl(s: StoreV) -> Seq<ObjId> {
    seq![find_catalog_v(s.objects)->Some_0, find_pages_root_v(s.objects)->Some_0]
}

/// A list of page numbers each within range has no first bad one.
pub proof fn lemma_first_bad_none(nums: Seq<u32>, total: nat)
    requires
        forall|i: int| 0 <= i < nums.len() ==> 1 <= #[trigger] nums[i] <= total,
    ensures
        crate::extract::first_bad_page(nums, total) is None,
    decreases nums.len(),
{
    if nums.len() > 0 {
        let tail = nums.subrange(1, nums.len() as int);
        assert forall|i: int| 0 <= i < tail.len() implies 1 <= #[trigger] tail[i] <= total by {
            assert(tail[i] == nums[i + 1]);
        }
        lemma_first_bad_none(tail, total);
    }
}

/// The selection law behind extraction and reordering: for any list of
/// in-range page numbers, the rebuilt store's enumeration has exactly one
/// page per requested number, in request order, and the page's object is the
/// source page's object with its references renumbered and its `Parent`
/// rebound to the fresh root — content is preserved up to renumbering.
#[verifier::rlimit(100)]
pub proof fn lemma_selected_pages(src: StoreV, nums: Seq<u32>)
    requires
        tidy(src),
        crate::builder::renumberable(src),
        forall|i: int| 0 <= i < nums.len() ==> 1 <= #[trigger] nums[i] <= pages_of(src).len(),
    ensures
        ({
            let pages = pages_of(src);
            let m = mapping_from(src.objects, 0);
            let pages_id = ObjId { num: (src.objects.len() + 1) as u32, gen: 0u16 };
            &&& crate::extract::extract_spec(src, nums) is Ok
            &&& pages_of(crate::extract::extract_spec(src, nums)->Ok_0).len() == nums.len()
            &&& forall|i: int|
                0 <= i < nums.len() ==> store_lookup(
                    (crate::extract::extract_spec(src, nums)->Ok_0).objects,
                    pages_of(crate::extract::extract_spec(src, nums)->Ok_0)[i],
                ) == Some(
                    set_parent_obj_v(
                        crate::remap::clean_v(
                            store_lookup(src.objects, pages[#[trigger] nums[i] - 1])->Some_0,
                            m,
                            flatten_excl(src),
                        ),
                        pages_id,
                    ),
                )
        }),
{
    let s = src.objects;
    let n = s.len() as int;
    let m = mapping_from(s, 0);
    let cat = find_catalog_v(s)->Some_0;
    let root = find_pages_root_v(s)->Some_0;
    let pages = pages_of(src);
    let total = pages.len();
    let excl = seq![cat, root];
    let copied = copied_objs(s, m, excl);
    lemma_first_bad_none(nums, total as nat);
    lemma_selection_flatten_reqs(src, excl, Seq::new(nums.len(), |i: int| crate::remap::apply_map(m, pages[nums[i] - 1])), nums);
    let kids = Seq::new(nums.len(), |i: int| crate::remap::apply_map(m, pages[nums[i] - 1]));
    lemma_flatten_pages(src, excl, kids, nums.len() as i64);
    assert(crate::extract::extract_spec(src, nums) == Ok::<StoreV, crate::error::ErrV>(
        crate::builder::flatten_store(src, excl, kids, nums.len() as i64),
    ));
    let out = crate::extract::extract_spec(src, nums)->Ok_0;
    assert(pages_of(out) == kids);
    assert(excl == flatten_excl(src));
    assert forall|i: int| 0 <= i < nums.len() implies store_lookup(
        out.objects,
        pages_of(out)[i],
    ) == Some(
        set_parent_obj_v(
            crate::remap::clean_v(
                store_lookup(s, pages[#[trigger] nums[i] - 1])->Some_0,
                m,
                flatten_excl(src),
            ),
            (ObjId { num: (n + 1) as u32, gen: 0u16 }),
        ),
    ) by {
        let pid = pages[nums[i] - 1];
        lemma_leaves_are_pages(s, root, (s.len() + 1) as nat);
        assert(store_lookup(s, pid) matches Some(o) && is_page_v(o));
        lemma_page_not_cat_root(src, pid);
        assert(!contains_id(excl, pid)) by {
            if contains_id(excl, pid) {
                let e = choose|k: int| 0 <= k < excl.len() && excl[k] == pid;
            }
        }
        lemma_page_maps_into_copy(src, excl, pid);
        assert(kids[i] == crate::remap::apply_map(m, pid));
        assert(store_lookup(out.objects, kids[i]) == Some(
            set_parent_obj_v(
                store_lookup(copied, kids[i])->Some_0,
                (ObjId { num: (n + 1) as u32, gen: 0u16 }),
            ),
        ));
    }
}

/// A page the source enumerates is copied: its fresh identifier is bound in
/// the copy to the renumbered page object.
pub proof fn lemma_page_maps_into_copy(src: StoreV, excl: Seq<ObjId>, pid: ObjId)
    requires
        distinct_ids(src.objects),
        src.objects.len() + 2 <= u32::MAX,
        store_lookup(src.objects, pid) matches Some(o) && is_page_v(o),
        !contains_id(excl, pid),
    ensures
        ({
            let m = mapping_from(src.objects, 0);
            let copied = copied_objs(src.objects, m, excl);
            &&& store_lookup(copied, crate::remap::apply_map(m, pid)) == Some(
                crate::remap::clean_v(store_lookup(src.objects, pid)->Some_0, m, excl),
            )
            &&& is_page_v(store_lookup(copied, crate::remap::apply_map(m, pid))->Some_0)
        }),
{
    let s = src.objects;
    let n = s.len() as int;
    let m = mapping_from(s, 0);
    let copied = copied_objs(s, m, excl);
    crate::builder::lemma_copied_facts(s, m, excl, 0u32, n);
    assert(s.subrange(0, n) =~= s);
    assert(has_id(s, pid));
    let w = id_index(s, pid);
    assert(0 <= w < n && s[w].0 == pid);
    lemma_lookup_at(s, w);
    assert(store_lookup(s, pid) == Some(s[w].1));
    assert(crate::remap::map_has(m, pid)) by {
        assert(m[w].0 == pid);
    }
    let u = crate::remap::map_index(m, pid);
    assert(0 <= u < m.len() && m[u].0 == pid);
    assert(s[u].0 == pid);
    if u != w {
        assert(false);
    }
    assert(crate::remap::apply_map(m, pid) == (ObjId { num: (w + 1) as u32, gen: 0u16 }));
    assert(store_lookup(copied, (ObjId { num: (0 + w + 1) as u32, gen: 0u16 })) == Some(
        crate::remap::clean_v(s[w].1, m, excl),
    ));
    lemma_clean_structure(s[w].1, m, excl);
}

/// A page the enumeration returns is neither the catalog nor the root, so
/// the flatten exclusion never drops it.
pub proof fn lemma_page_not_cat_root(src: StoreV, pid: ObjId)
    requires
        distinct_ids(src.objects),
        find_catalog_v(src.objects) is Some,
        find_pages_root_v(src.objects) is Some,
        store_lookup(src.objects, pid) matches Some(o) && is_page_v(o),
    ensures
        pid != find_catalog_v(src.objects)->Some_0,
        pid != find_pages_root_v(src.objects)->Some_0,
{
    let s = src.objects;
    lemma_find_catalog_char(s);
    lemma_find_root_char(s);
    lemma_kinds_exclusive(store_lookup(s, pid)->Some_0);
    lemma_names_distinct();
    if pid == find_catalog_v(s)->Some_0 {
        assert(is_catalog_v(store_lookup(s, pid)->Some_0));
    }
    if pid == find_pages_root_v(s)->Some_0 {
        assert(is_pages_root_v(store_lookup(s, pid)->Some_0));
    }
}

/// The requirements of `lemma_flatten_pages`, discharged for a selection of
/// source pages under the flatten exclusion of catalog and root.
pub proof fn lemma_selection_flatten_reqs(
    src: StoreV,
    excl: Seq<ObjId>,
    kids: Seq<ObjId>,
    nums: Seq<u32>,
)
    requires
        tidy(src),
        crate::builder::renumberable(src),
        excl == seq![find_catalog_v(src.objects)->Some_0, find_pages_root_v(src.objects)->Some_0],
        kids == Seq::new(
            nums.len(),
            |i: int|
                crate::remap::apply_map(
                    mapping_from(src.objects, 0),
                    pages_of(src)[nums[i] - 1],
                ),
        ),
        forall|i: int| 0 <= i < nums.len() ==> 1 <= #[trigger] nums[i] <= pages_of(src).len(),
    ensures
        ({
            let copied = copied_objs(src.objects, mapping_from(src.objects, 0), excl);
            &&& forall|k: int|
                0 <= k < copied.len() ==> (contains_id(kids, (#[trigger] copied[k]).0)
                    || !is_pages_root_v(copied[k].1))
            &&& forall|k: int| 0 <= k < copied.len() ==> !is_catalog_v((#[trigger] copied[k]).1)
            &&& forall|i: int|
                0 <= i < kids.len() ==> (store_lookup(copied, #[trigger] kids[i]) matches Some(o)
                    && is_page_v(o))
        }),
{
    let s = src.objects;
    let n = s.len() as int;
    let m = mapping_from(s, 0);
    let copied = copied_objs(s, m, excl);
    let cat = find_catalog_v(s)->Some_0;
    let root = find_pages_root_v(s)->Some_0;
    crate::builder::lemma_copied_facts(s, m, excl, 0u32, n);
    assert(s.subrange(0, n) =~= s);
    assert forall|k: int| 0 <= k < copied.len() implies !is_pages_root_v(
        (#[trigger] copied[k]).1,
    ) && !is_catalog_v(copied[k].1) by {
        let i = choose|i: int|
            0 <= i < n && !contains_id(excl, s[i].0) && copied[k] == (
            (ObjId { num: (0 + i + 1) as u32, gen: 0u16 }),
            crate::remap::clean_v(s[i].1, m, excl),
            );
        lemma_clean_structure(s[i].1, m, excl);
        if is_pages_root_v(s[i].1) {
            assert(s[i].0 == root);
            assert(excl[1] == root);
            assert(contains_id(excl, s[i].0));
        }
        if is_catalog_v(s[i].1) {
            assert(s[i].0 == cat);
            assert(excl[0] == cat);
            assert(contains_id(excl, s[i].0));
        }
    }
    let fuel = (s.len() + 1) as nat;
    lemma_leaves_are_pages(s, root, fuel);
    assert forall|i: int| 0 <= i < kids.len() implies (store_lookup(
        copied,
        #[trigger] kids[i],
    ) matches Some(o) && is_page_v(o)) by {
        let pid = pages_of(src)[nums[i] - 1];
        assert(store_lookup(s, pid) matches Some(o) && is_page_v(o));
        lemma_page_not_cat_root(src, pid);
        assert(!contains_id(excl, pid)) by {
            if contains_id(excl, pid) {
                let e = choose|k: int| 0 <= k < excl.len() && excl[k] == pid;
            }
        }
        lemma_page_maps_into_copy(src, excl, pid);
        assert(kids[i] == crate::remap::apply_map(m, pid));
    }
}

/// Extracting every page, first to last, preserves the page count, and each
/// page's content up to renumbering: output page `i` is source page `i + 1`
/// with its references renumbered and its `Parent` rebound.
#[verifier::rlimit(100)]
pub proof fn lemma_extract_all_preserves(src: StoreV)
    requires
        tidy(src),
        crate::builder::renumberable(src),
        pages_of(src).len() <= u32::MAX,
    ensures
        ({
            let nums = Seq::new(pages_of(src).len(), |i: int| (i + 1) as u32);
            &&& crate::extract::extract_spec(src, nums) is Ok
            &&& pages_of(crate::extract::extract_spec(src, nums)->Ok_0).len() == pages_of(
                src,
            ).len()
            &&& forall|i: int|
                0 <= i < pages_of(src).len() ==> store_lookup(
                    (crate::extract::extract_spec(src, nums)->Ok_0).objects,
                    #[trigger] pages_of(crate::extract::extract_spec(src, nums)->Ok_0)[i],
                ) == Some(
                    set_parent_obj_v(
                        crate::remap::clean_v(
                            store_lookup(src.objects, pages_of(src)[i])->Some_0,
                            mapping_from(src.objects, 0),
                            flatten_excl(src),
                        ),
                        (ObjId { num: (src.objects.len() + 1) as u32, gen: 0u16 }),
                    ),
                )
        }),
{
    let total = pages_of(src).len();
    let nums = Seq::new(total, |i: int| (i + 1) as u32);
    assert forall|i: int| 0 <= i < nums.len() implies 1 <= #[trigger] nums[i] <= total by {
        assert(nums[i] == (i + 1) as u32);
    }
    lemma_selected_pages(src, nums);
    assert forall|i: int| 0 <= i < total implies store_lookup(
        (crate::extract::extract_spec(src, nums)->Ok_0).objects,
        #[trigger] pages_of(crate::extract::extract_spec(src, nums)->Ok_0)[i],
    ) == Some(
        set_parent_obj_v(
            crate::remap::clean_v(
                store_lookup(src.objects, pages_of(src)[i])->Some_0,
                mapping_from(src.objects, 0),
                flatten_excl(src),
            ),
            (ObjId { num: (src.objects.len() + 1) as u32, gen: 0u16 }),
        ),
    ) by {
        assert(nums[i] == (i + 1) as u32);
        assert(nums[i] - 1 == i);
    }
}

/// A permutation passes reordering's checks, and output page `i` then holds
/// original page `order[i]`, renumbered and reparented.
#[verifier::rlimit(100)]
pub proof fn lemma_reorder_permutes(src: StoreV, order: Seq<u32>)
    requires
        tidy(src),
        crate::builder::renumberable(src),
        order.len() == pages_of(src).len(),
        forall|i: int| 0 <= i < order.len() ==> 1 <= #[trigger] order[i] <= order.len(),
        forall|i: int, j: int| 0 <= i < j < order.len() ==> order[i] != order[j],
    ensures
        ({
            &&& crate::reorder::reorder_spec(src, order) is Ok
            &&& pages_of(crate::reorder::reorder_spec(src, order)->Ok_0).len() == order.len()
            &&& forall|i: int|
                0 <= i < order.len() ==> store_lookup(
                    (crate::reorder::reorder_spec(src, order)->Ok_0).objects,
                    #[trigger] pages_of(crate::reorder::reorder_spec(src, order)->Ok_0)[i],
                ) == Some(
                    set_parent_obj_v(
                        crate::remap::clean_v(
                            store_lookup(src.objects, pages_of(src)[order[i] - 1])->Some_0,
                            mapping_from(src.objects, 0),
                            flatten_excl(src),
                        ),
                        (ObjId { num: (src.objects.len() + 1) as u32, gen: 0u16 }),
                    ),
                )
        }),
{
    let s = src.objects;
    let total = pages_of(src).len();
    lemma_order_fault_none(order, total as nat, 0);
    let m = mapping_from(s, 0);
    let cat = find_catalog_v(s)->Some_0;
    let root = find_pages_root_v(s)->Some_0;
    let excl = seq![cat, root];
    let kids = Seq::new(order.len(), |i: int| crate::remap::apply_map(m, pages_of(src)[order[i] - 1]));
    assert(excl == flatten_excl(src));
    lemma_selection_flatten_reqs(src, excl, kids, order);
    lemma_flatten_pages(src, excl, kids, total as i64);
    assert(crate::reorder::reorder_spec(src, order) == Ok::<StoreV, crate::error::ErrV>(
        crate::builder::flatten_store(src, excl, kids, total as i64),
    ));
    let out = crate::reorder::reorder_spec(src, order)->Ok_0;
    let copied = copied_objs(s, m, excl);
    assert forall|i: int| 0 <= i < order.len() implies store_lookup(
        out.objects,
        #[trigger] pages_of(out)[i],
    ) == Some(
        set_parent_obj_v(
            crate::remap::clean_v(
                store_lookup(s, pages_of(src)[order[i] - 1])->Some_0,
                m,
                flatten_excl(src),
            ),
            (ObjId { num: (s.len() + 1) as u32, gen: 0u16 }),
        ),
    ) by {
        let pid = pages_of(src)[order[i] - 1];
        lemma_leaves_are_pages(s, root, (s.len() + 1) as nat);
        assert(store_lookup(s, pid) matches Some(o) && is_page_v(o));
        lemma_page_not_cat_root(src, pid);
        assert(!contains_id(excl, pid)) by {
            if contains_id(excl, pid) {
                let e = choose|k: int| 0 <= k < excl.len() && excl[k] == pid;
            }
        }
        lemma_page_maps_into_copy(src, excl, pid);
        assert(pages_of(out)[i] == kids[i]);
        assert(kids[i] == crate::remap::apply_map(m, pid));
    }
}

/// A list of in-range numbers without repeats raises no reorder fault.
pub proof fn lemma_order_fault_none(order: Seq<u32>, total: nat, i: int)
    requires
        0 <= i <= order.len(),
        forall|k: int| 0 <= k < order.len() ==> 1 <= #[trigger] order[k] <= total,
        forall|k: int, j: int| 0 <= k < j < order.len() ==> order[k] != order[j],
    ensures
        crate::reorder::first_order_fault(order, total, i) is None,
    decreases order.len() - i,
{
    if i < order.len() {
        assert(!crate::delete::contains_u32(order.subrange(0, i), order[i])) by {
            if crate::delete::contains_u32(order.subrange(0, i), order[i]) {
                let w = choose|k: int| 0 <= k < i && order.subrange(0, i)[k] == order[i];
                assert(order[w] == order[i]);
            }
        }
        lemma_order_fault_none(order, total, i + 1);
    }
}

/// The output trailer always carries `Size` one past the highest object
/// number present: the counter equals the last identifier handed out, the
/// catalog stands at it, nothing lies above it, and `Size` is one more.
pub proof fn lemma_trailer_size(src: StoreV, excl: Seq<ObjId>, kids: Seq<ObjId>, count: i64)
    requires
        distinct_ids(src.objects),
        src.objects.len() + 2 <= u32::MAX,
    ensures
        ({
            let n = src.objects.len() as int;
            let out = crate::builder::flatten_store(src, excl, kids, count);
            let catalog_id = ObjId { num: (n + 2) as u32, gen: 0u16 };
            &&& dict_lookup(out.trailer, crate::names::key_size()) == Some(
                ObjV::Integer((n + 3) as i64),
            )
            &&& dict_lookup(out.trailer, crate::names::key_root()) == Some(
                ObjV::Reference(catalog_id),
            )
            &&& out.max_id == (n + 2) as u32
            &&& has_id(out.objects, catalog_id)
            &&& catalog_id.num == out.max_id
            &&& forall|k: int|
                0 <= k < out.objects.len() ==> (#[trigger] out.objects[k]).0.num <= out.max_id
        }),
{
    let n = src.objects.len() as int;
    let m = mapping_from(src.objects, 0);
    let out = crate::builder::flatten_store(src, excl, kids, count);
    let pages_id = ObjId { num: (n + 1) as u32, gen: 0u16 };
    let catalog_id = ObjId { num: (n + 2) as u32, gen: 0u16 };
    let copied = copied_objs(src.objects, m, excl);
    let parented = set_parent_objs(copied, kids, pages_id);
    crate::builder::lemma_copied_facts(src.objects, m, excl, 0u32, n);
    assert(src.objects.subrange(0, n) =~= src.objects);
    lemma_set_parent_objs_char(copied, kids, pages_id);
    let empty_tr = Seq::<(Seq<u8>, ObjV)>::empty();
    let tr1 = dict_set(empty_tr, crate::names::key_root(), ObjV::Reference(catalog_id));
    assert(out.trailer == dict_set(tr1, crate::names::key_size(), ObjV::Integer((n + 3) as i64)));
    lemma_dict_set_lookup(
        tr1,
        crate::names::key_size(),
        ObjV::Integer((n + 3) as i64),
        crate::names::key_size(),
    );
    lemma_dict_set_lookup(
        tr1,
        crate::names::key_size(),
        ObjV::Integer((n + 3) as i64),
        crate::names::key_root(),
    );
    lemma_dict_set_lookup(
        empty_tr,
        crate::names::key_root(),
        ObjV::Reference(catalog_id),
        crate::names::key_root(),
    );
    assert(crate::names::key_root() != crate::names::key_size()) by {
        assert(crate::names::key_root()[0] == 82u8);
        assert(crate::names::key_size()[0] == 83u8);
    }
    assert(out.objects =~= parented.push((pages_id, pages_node_v(kids, count))).push(
        (catalog_id, catalog_v(pages_id)),
    ));
    assert(out.objects[out.objects.len() - 1] == (catalog_id, catalog_v(pages_id)));
    assert(has_id(out.objects, catalog_id));
    assert forall|k: int| 0 <= k < out.objects.len() implies (
    #[trigger] out.objects[k]).0.num <= out.max_id by {
        if k < parented.len() {
            assert(parented[k].0 == copied[k].0);
            assert(copied[k].0.num <= n);
        }
    }
}

/// The references the reconstruction itself writes all resolve within the
/// output: the trailer's root points at the catalog, the catalog at the new
/// pages node, the node's kids and the kept pages' parents at objects the
/// output holds. (References carried inside copied objects are rewritten by
/// the same table but are not covered here.)
pub proof fn lemma_new_refs_resolve(src: StoreV, excl: Seq<ObjId>, kids: Seq<ObjId>, count: i64)
    requires
        distinct_ids(src.objects),
        src.objects.len() + 2 <= u32::MAX,
        forall|k: int|
            0 <= k < copied_objs(src.objects, mapping_from(src.objects, 0), excl).len() ==> (
            contains_id(kids, (#[trigger] copied_objs(
                src.objects,
                mapping_from(src.objects, 0),
                excl,
            )[k]).0) || !is_pages_root_v(copied_objs(
                src.objects,
                mapping_from(src.objects, 0),
                excl,
            )[k].1)),
        forall|k: int|
            0 <= k < copied_objs(src.objects, mapping_from(src.objects, 0), excl).len()
                ==> !is_catalog_v((#[trigger] copied_objs(
                src.objects,
                mapping_from(src.objects, 0),
                excl,
            )[k]).1),
        forall|i: int|
            0 <= i < kids.len() ==> (store_lookup(
                copied_objs(src.objects, mapping_from(src.objects, 0), excl),
                #[trigger] kids[i],
            ) matches Some(o) && is_page_v(o)),
    ensures
        ({
            let n = src.objects.len() as int;
            let out = crate::builder::flatten_store(src, excl, kids, count);
            let pages_id = ObjId { num: (n + 1) as u32, gen: 0u16 };
            let catalog_id = ObjId { num: (n + 2) as u32, gen: 0u16 };
            &&& dict_lookup(out.trailer, crate::names::key_root()) == Some(
                ObjV::Reference(catalog_id),
            )
            &&& has_id(out.objects, catalog_id)
            &&& store_lookup(out.objects, catalog_id) == Some(catalog_v(pages_id))
            &&& has_id(out.objects, pages_id)
            &&& kids_of(store_lookup(out.objects, pages_id)->Some_0) == refs_of(kids)
            &&& forall|i: int| 0 <= i < kids.len() ==> has_id(out.objects, #[trigger] kids[i])
        }),
{
    lemma_flatten_pages(src, excl, kids, count);
    lemma_trailer_size(src, excl, kids, count);
    lemma_node_props(
        kids,
        count,
        (ObjId { num: (src.objects.len() + 1) as u32, gen: 0u16 }),
    );
    let n = src.objects.len() as int;
    let out = crate::builder::flatten_store(src, excl, kids, count);
    let pages_id = ObjId { num: (n + 1) as u32, gen: 0u16 };
    assert(store_lookup(out.objects, pages_id) == Some(pages_node_v(kids, count)));
    assert forall|i: int| 0 <= i < kids.len() implies has_id(
        out.objects,
        #[trigger] kids[i],
    ) by {
        assert(store_lookup(out.objects, kids[i]) is Some);
    }
}

/// Advancing a page's rotation by `a` and then by `b` leaves the store as
/// one advance by `(a + b) % 360` would, and every written rotation lies in
/// `[0, 360)`.
pub proof fn lemma_rotate_store_twice(s: Seq<(ObjId, ObjV)>, id: ObjId, a: i64, b: i64)
    ensures
        crate::rotate::rotate_one(crate::rotate::rotate_one(s, id, a), id, b)
            == crate::rotate::rotate_one(
            s,
            id,
            crate::rotate::rot_add(a as int, b as int) as i64,
        ),
        forall|j: int|
            0 <= j < s.len() && s[j].0 == id ==> 0 <= crate::rotate::rot_of(
                #[trigger] crate::rotate::rotate_one(s, id, a)[j].1,
            ) < 360,
{
    let once = crate::rotate::rotate_one(s, id, a);
    let twice = crate::rotate::rotate_one(once, id, b);
    let ab = crate::rotate::rot_add(a as int, b as int) as i64;
    let direct = crate::rotate::rotate_one(s, id, ab);
    assert forall|j: int| 0 <= j < s.len() implies twice[j] == direct[j] && (s[j].0 == id ==> 0
        <= crate::rotate::rot_of(once[j].1) < 360) by {
        if s[j].0 == id {
            let c = crate::rotate::rot_of(s[j].1) as int;
            let x = crate::rotate::rot_add(c, a as int);
            crate::rotate::lemma_rotate_twice(c, a as int, b as int);
            match s[j].1 {
                ObjV::Dictionary(d) => {
                    lemma_dict_set_lookup(
                        d,
                        key_rotate(),
                        ObjV::Integer(x as i64),
                        key_rotate(),
                    );
                    assert(crate::rotate::rot_of(once[j].1) == x as i64);
                    lemma_dict_set_overwrite(
                        d,
                        key_rotate(),
                        ObjV::Integer(x as i64),
                        ObjV::Integer(crate::rotate::rot_add(x, b as int) as i64),
                    );
                    assert(crate::rotate::rot_add(x, b as int) == crate::rotate::rot_add(
                        c,
                        crate::rotate::rot_add(a as int, b as int),
                    ));
                    assert(crate::rotate::rot_add(c, ab as int) == crate::rotate::rot_add(
                        c,
                        crate::rotate::rot_add(a as int, b as int),
                    ));
                },
                _ => {
                    assert(once[j].1 == s[j].1);
                },
            }
        } else {
            assert(once[j] == s[j]);
        }
    }
    assert(twice =~= direct);
    assert forall|j: int| 0 <= j < s.len() && s[j].0 == id implies 0 <= crate::rotate::rot_of(
        #[trigger] crate::rotate::rotate_one(s, id, a)[j].1,
    ) < 360 by {
        let c = crate::rotate::rot_of(s[j].1) as int;
        crate::rotate::lemma_rotate_twice(c, a as int, b as int);
        match s[j].1 {
            ObjV::Dictionary(d) => {
                lemma_dict_set_lookup(
                    d,
                    key_rotate(),
                    ObjV::Integer(crate::rotate::rot_add(c, a as int) as i64),
                    key_rotate(),
                );
            },
            _ => {
            },
        }
    }
}

/// The page numbers `1..=total` not listed, in ascending order.
pub open spec fn complement(total: nat, nums: Seq<u32>) -> Seq<u32>
    decreases total,
{
    if total == 0 {
        Seq::empty()
    } else {
        complement((total - 1) as nat, nums) + (if crate::delete::contains_u32(
            nums,
            total as u32,
        ) {
            Seq::empty()
        } else {
            seq![total as u32]
        })
    }
}

pub proof fn lemma_complement_props(total: nat, nums: Seq<u32>)
    requires
        total <= u32::MAX,
    ensures
        forall|i: int|
            0 <= i < complement(total, nums).len() ==> 1 <= #[trigger] complement(total, nums)[i]
                <= total && !crate::delete::contains_u32(nums, complement(total, nums)[i]),
    decreases total,
{
    if total > 0 {
        lemma_complement_props((total - 1) as nat, nums);
        let prev = complement((total - 1) as nat, nums);
        let cur = complement(total, nums);
        assert forall|i: int| 0 <= i < cur.len() implies 1 <= #[trigger] cur[i] <= total
            && !crate::delete::contains_u32(nums, cur[i]) by {
            if i < prev.len() {
                assert(cur[i] == prev[i]);
            } else {
                assert(cur[i] == total as u32);
            }
        }
    }
}

/// The kept identifiers of a deletion are the extraction of the complement.
pub proof fn lemma_kept_is_complement(
    pages: Seq<ObjId>,
    nums: Seq<u32>,
    m: Seq<(ObjId, ObjId)>,
    j: nat,
)
    requires
        j <= pages.len(),
        j <= u32::MAX,
    ensures
        crate::delete::kept_new_ids(pages, nums, m, j) == Seq::new(
            complement(j, nums).len(),
            |i: int| crate::remap::apply_map(m, pages[complement(j, nums)[i] - 1]),
        ),
    decreases j,
{
    lemma_complement_props(j, nums);
    if j == 0 {
        assert(crate::delete::kept_new_ids(pages, nums, m, 0) =~= Seq::new(
            complement(0, nums).len(),
            |i: int| crate::remap::apply_map(m, pages[complement(0, nums)[i] - 1]),
        ));
    } else {
        lemma_kept_is_complement(pages, nums, m, (j - 1) as nat);
        lemma_complement_props((j - 1) as nat, nums);
        let cj = complement(j, nums);
        let cp = complement((j - 1) as nat, nums);
        let kp = crate::delete::kept_new_ids(pages, nums, m, (j - 1) as nat);
        if crate::delete::contains_u32(nums, j as u32) {
            assert(cj =~= cp);
            assert(crate::delete::kept_new_ids(pages, nums, m, j) =~= kp);
            assert(crate::delete::kept_new_ids(pages, nums, m, j) =~= Seq::new(
                cj.len(),
                |i: int| crate::remap::apply_map(m, pages[cj[i] - 1]),
            ));
        } else {
            assert(cj =~= cp.push(j as u32));
            assert(crate::delete::kept_new_ids(pages, nums, m, j) =~= kp.push(
                crate::remap::apply_map(m, pages[j - 1]),
            ));
            assert forall|i: int| 0 <= i < cj.len() implies crate::remap::apply_map(
                m,
                pages[#[trigger] cj[i] - 1],
            ) == crate::delete::kept_new_ids(pages, nums, m, j)[i] by {
                if i < cp.len() {
                    assert(cj[i] == cp[i]);
                } else {
                    assert(cj[i] == j as u32);
                }
            }
            assert(crate::delete::kept_new_ids(pages, nums, m, j) =~= Seq::new(
                cj.len(),
                |i: int| crate::remap::apply_map(m, pages[cj[i] - 1]),
            ));
        }
    }
}

/// A deleted identifier is one of the pages whose number is listed.
pub proof fn lemma_deleted_ids_members(pages: Seq<ObjId>, nums: Seq<u32>, j: nat, x: ObjId)
    requires
        j <= pages.len(),
        contains_id(crate::delete::deleted_ids(pages, nums, j), x),
    ensures
        exists|k: int|
            0 <= k < j && crate::delete::contains_u32(nums, (k + 1) as u32) && #[trigger] pages[k]
                == x,
    decreases j,
{
    if j > 0 {
        let prev = crate::delete::deleted_ids(pages, nums, (j - 1) as nat);
        let cur = crate::delete::deleted_ids(pages, nums, j);
        let w = choose|i: int| 0 <= i < cur.len() && cur[i] == x;
        if w < prev.len() {
            assert(prev[w] == x);
            assert(contains_id(prev, x));
            lemma_deleted_ids_members(pages, nums, (j - 1) as nat, x);
            let k = choose|k: int|
                0 <= k < j - 1 && crate::delete::contains_u32(nums, (k + 1) as u32) && #[trigger] pages[k]
                    == x;
            assert(0 <= k < j && crate::delete::contains_u32(nums, (k + 1) as u32) && pages[k]
                == x);
        } else {
            assert(crate::delete::contains_u32(nums, j as u32));
            assert(cur[w] == pages[j - 1]);
            assert(0 <= j - 1 < j && crate::delete::contains_u32(
                nums,
                ((j - 1) + 1) as u32,
            ) && pages[j - 1] == x);
        }
    }
}

/// Deleting a set of pages and then reading the rest is extracting the rest
/// directly: the two stores enumerate the same fresh identifiers, and each
/// page holds the same object. The kept pages must not reference what the
/// deletion removes: a reference to a deleted page is nulled on the delete
/// side only, so on such an input the two page objects differ there.
#[verifier::rlimit(100)]
#[verifier::spinoff_prover]
pub proof fn lemma_delete_as_extract(src: StoreV, nums: Seq<u32>)
    requires
        tidy(src),
        crate::builder::renumberable(src),
        pages_of(src).len() <= u32::MAX,
        forall|i: int| 0 <= i < nums.len() ==> 1 <= #[trigger] nums[i] <= pages_of(src).len(),
        complement(pages_of(src).len() as nat, nums).len() > 0,
        forall|i: int|
            0 <= i < complement(pages_of(src).len() as nat, nums).len() ==> refs_within(
                store_lookup(
                    src.objects,
                    pages_of(src)[#[trigger] complement(pages_of(src).len() as nat, nums)[i]
                        - 1],
                )->Some_0,
                kept_source_ids(
                    src.objects,
                    flatten_excl(src) + crate::delete::deleted_ids(
                        pages_of(src),
                        nums,
                        pages_of(src).len() as nat,
                    ),
                ),
            ),
    ensures
        ({
            let comp = complement(pages_of(src).len() as nat, nums);
            &&& crate::delete::delete_spec(src, nums) is Ok
            &&& crate::extract::extract_spec(src, comp) is Ok
            &&& pages_of(crate::delete::delete_spec(src, nums)->Ok_0) == pages_of(
                crate::extract::extract_spec(src, comp)->Ok_0,
            )
            &&& forall|i: int|
                0 <= i < comp.len() ==> store_lookup(
                    (crate::delete::delete_spec(src, nums)->Ok_0).objects,
                    #[trigger] pages_of(crate::delete::delete_spec(src, nums)->Ok_0)[i],
                ) == store_lookup(
                    (crate::extract::extract_spec(src, comp)->Ok_0).objects,
                    pages_of(crate::extract::extract_spec(src, comp)->Ok_0)[i],
                )
        }),
{
    let s = src.objects;
    let n = s.len() as int;
    let m = mapping_from(s, 0);
    let cat = find_catalog_v(s)->Some_0;
    let root = find_pages_root_v(s)->Some_0;
    let pages = pages_of(src);
    let total = pages.len();
    let comp = complement(total as nat, nums);
    let pages_id = ObjId { num: (n + 1) as u32, gen: 0u16 };
    lemma_complement_props(total as nat, nums);
    lemma_first_bad_none(nums, total as nat);
    lemma_first_bad_none(comp, total as nat);
    lemma_kept_is_complement(pages, nums, m, total as nat);
    let kids = Seq::new(comp.len(), |i: int| crate::remap::apply_map(m, pages[comp[i] - 1]));
    assert(crate::delete::kept_new_ids(pages, nums, m, total as nat) == kids);

    // the extract side
    let excl_e = seq![cat, root];
    lemma_selection_flatten_reqs(src, excl_e, kids, comp);
    lemma_flatten_pages(src, excl_e, kids, comp.len() as i64);
    assert(crate::extract::extract_spec(src, comp) == Ok::<StoreV, crate::error::ErrV>(
        crate::builder::flatten_store(src, excl_e, kids, comp.len() as i64),
    ));

    // the delete side: the excluded set also drops the deleted page objects,
    // but none of the kept pages is among them.
    let deleted = crate::delete::deleted_ids(pages, nums, total as nat);
    let excl_d = seq![cat, root] + deleted;
    assert(crate::delete::delete_spec(src, nums) == Ok::<StoreV, crate::error::ErrV>(
        crate::builder::flatten_store(src, excl_d, kids, kids.len() as i64),
    ));
    let copied_d = copied_objs(s, m, excl_d);
    let copied_e = copied_objs(s, m, excl_e);
    crate::builder::lemma_copied_facts(s, m, excl_d, 0u32, n);
    assert(s.subrange(0, n) =~= s);
    assert forall|k: int| 0 <= k < copied_d.len() implies !is_pages_root_v(
        (#[trigger] copied_d[k]).1,
    ) && !is_catalog_v(copied_d[k].1) by {
        let i = choose|i: int|
            0 <= i < n && !contains_id(excl_d, s[i].0) && copied_d[k] == (
            (ObjId { num: (0 + i + 1) as u32, gen: 0u16 }),
            crate::remap::clean_v(s[i].1, m, excl_d),
            );
        lemma_clean_structure(s[i].1, m, excl_d);
        if is_pages_root_v(s[i].1) {
            assert(s[i].0 == root);
            assert(excl_d[1] == root);
            assert(contains_id(excl_d, s[i].0));
        }
        if is_catalog_v(s[i].1) {
            assert(s[i].0 == cat);
            assert(excl_d[0] == cat);
            assert(contains_id(excl_d, s[i].0));
        }
    }
    let fuel = (s.len() + 1) as nat;
    lemma_leaves_are_pages(s, root, fuel);
    assert forall|i: int| 0 <= i < kids.len() implies (store_lookup(
        copied_d,
        #[trigger] kids[i],
    ) matches Some(o) && is_page_v(o)) && store_lookup(copied_d, kids[i]) == store_lookup(
        copied_e,
        kids[i],
    ) by {
        let pid = pages[comp[i] - 1];
        assert(store_lookup(s, pid) matches Some(o) && is_page_v(o));
        lemma_page_not_cat_root(src, pid);
        assert(!contains_id(excl_d, pid)) by {
            if contains_id(excl_d, pid) {
                let e = choose|k: int| 0 <= k < excl_d.len() && excl_d[k] == pid;
                if e >= 2 {
                    assert(deleted[e - 2] == pid);
                    assert(contains_id(deleted, pid));
                    lemma_deleted_ids_members(pages, nums, total as nat, pid);
                    let k = choose|k: int|
                        0 <= k < total && crate::delete::contains_u32(
                            nums,
                            (k + 1) as u32,
                        ) && #[trigger] pages[k] == pid;
                    assert(pages[k] == pages[comp[i] - 1]);
                    if k != comp[i] - 1 {
                        assert(false);
                    }
                    assert(crate::delete::contains_u32(nums, comp[i]));
                }
            }
        }
        assert(!contains_id(excl_e, pid)) by {
            if contains_id(excl_e, pid) {
                let e = choose|k: int| 0 <= k < excl_e.len() && excl_e[k] == pid;
            }
        }
        lemma_page_maps_into_copy(src, excl_d, pid);
        lemma_page_maps_into_copy(src, excl_e, pid);
        assert(kids[i] == crate::remap::apply_map(m, pid));
        let o = store_lookup(s, pid)->Some_0;
        assert(excl_d == flatten_excl(src) + deleted);
        assert(refs_within(o, kept_source_ids(s, excl_d)));
        assert forall|x: ObjId| #[trigger] kept_source_ids(s, excl_d).contains(x)
            implies crate::remap::map_has(m, x) && !contains_id(excl_d, x) && !contains_id(
            excl_e,
            x,
        ) by {
            let w = id_index(s, x);
            assert(0 <= w < n && s[w].0 == x);
            assert(m[w].0 == x);
            assert(crate::remap::map_has(m, x));
            if contains_id(excl_e, x) {
                let e = choose|k: int| 0 <= k < excl_e.len() && excl_e[k] == x;
                assert(excl_d[e] == excl_e[e]);
                assert(contains_id(excl_d, x));
            }
        }
        lemma_clean_agree(o, m, excl_d, excl_e, kept_source_ids(s, excl_d));
    }
    lemma_flatten_pages(src, excl_d, kids, kids.len() as i64);
    let d_out = crate::delete::delete_spec(src, nums)->Ok_0;
    let e_out = crate::extract::extract_spec(src, comp)->Ok_0;
    assert(pages_of(d_out) == kids && pages_of(e_out) == kids);
    assert forall|i: int| 0 <= i < comp.len() implies store_lookup(
        d_out.objects,
        #[trigger] pages_of(d_out)[i],
    ) == store_lookup(e_out.objects, pages_of(e_out)[i]) by {
        assert(store_lookup(d_out.objects, kids[i]) == Some(
            set_parent_obj_v(store_lookup(copied_d, kids[i])->Some_0, pages_id),
        ));
        assert(store_lookup(e_out.objects, kids[i]) == Some(
            set_parent_obj_v(store_lookup(copied_e, kids[i])->Some_0, pages_id),
        ));
    }
}

/// A lookup in a concatenation with distinct identifiers lands where the
/// identifier is bound.
pub proof fn lemma_lookup_concat(a: Seq<(ObjId, ObjV)>, b: Seq<(ObjId, ObjV)>, id: ObjId)
    requires
        distinct_ids(a + b),
        has_id(b, id),
    ensures
        store_lookup(a + b, id) == store_lookup(b, id),
{
    let t = a + b;
    assert(distinct_ids(b)) by {
        assert forall|i: int, j: int| 0 <= i < j < b.len() implies b[i].0 != b[j].0 by {
            assert(t[a.len() + i] == b[i] && t[a.len() + j] == b[j]);
        }
    }
    let w = id_index(b, id);
    assert(0 <= w < b.len() && b[w].0 == id);
    assert(t[a.len() + w] == b[w]);
    assert(has_id(t, id));
    let u = id_index(t, id);
    assert(0 <= u < t.len() && t[u].0 == id);
    if u != a.len() + w {
        assert(false);
    }
    assert(store_lookup(t, id) == Some(b[w].1));
    lemma_lookup_at(b, w);
}

/// Merging two documents: the output's root carries the two page counts
/// added, and one sub-root per source, in source order. (Each source's root
/// `Count` is trusted, here assumed accurate, as a well-formed document has
/// it.)
#[verifier::rlimit(100)]
pub proof fn lemma_merge_two_counts(a: StoreV, b: StoreV)
    requires
        a.wf(),
        b.wf(),
        a.objects.len() + b.objects.len() + 2 <= u32::MAX,
        find_catalog_v(a.objects) is Some,
        find_catalog_v(b.objects) is Some,
        find_pages_root_v(a.objects) is Some,
        find_pages_root_v(b.objects) is Some,
        count_of(store_lookup(a.objects, find_pages_root_v(a.objects)->Some_0)->Some_0) == Some(
            pages_of(a).len() as i64,
        ),
        count_of(store_lookup(b.objects, find_pages_root_v(b.objects)->Some_0)->Some_0) == Some(
            pages_of(b).len() as i64,
        ),
        pages_of(a).len() + pages_of(b).len() <= i64::MAX,
    ensures
        crate::merge::merge_spec(seq![a, b]) is Ok,
        ({
            let out = crate::merge::merge_spec(seq![a, b])->Ok_0;
            let acc = crate::merge::merge_acc(seq![a, b], 2);
            &&& acc.2.len() == 2
            &&& acc.3 == (pages_of(a).len() + pages_of(b).len()) as i64
            &&& out.objects.len() >= 2
            &&& out.objects[out.objects.len() - 2].1 == pages_node_v(acc.2, acc.3)
            &&& count_of(out.objects[out.objects.len() - 2].1) == Some(
                (pages_of(a).len() + pages_of(b).len()) as i64,
            )
        }),
{
    let srcs = seq![a, b];
    assert(srcs[0] == a && srcs[1] == b && srcs.len() == 2);
    let len_a = pages_of(a).len() as i64;
    let len_b = pages_of(b).len() as i64;

    // the first source's accumulation
    let cat_a = find_catalog_v(a.objects)->Some_0;
    let root_a = find_pages_root_v(a.objects)->Some_0;
    let m_a = mapping_from(a.objects, 0);
    let copied_a = copied_objs(a.objects, m_a, seq![cat_a]);
    let n_a = a.objects.len() as int;
    crate::builder::lemma_copied_facts(a.objects, m_a, seq![cat_a], 0u32, n_a);
    assert(a.objects.subrange(0, n_a) =~= a.objects);
    lemma_find_root_char(a.objects);
    lemma_find_catalog_char(a.objects);
    lemma_kinds_exclusive(store_lookup(a.objects, root_a)->Some_0);
    lemma_names_distinct();
    assert(root_a != cat_a) by {
        if root_a == cat_a {
            assert(is_catalog_v(store_lookup(a.objects, root_a)->Some_0));
            assert(is_pages_root_v(store_lookup(a.objects, root_a)->Some_0));
        }
    }
    assert(!contains_id(seq![cat_a], root_a)) by {
        if contains_id(seq![cat_a], root_a) {
            let e = choose|k: int| 0 <= k < 1 && seq![cat_a][k] == root_a;
        }
    }
    let wa = id_index(a.objects, root_a);
    assert(0 <= wa < n_a && a.objects[wa].0 == root_a);
    lemma_lookup_at(a.objects, wa);
    assert(crate::remap::map_has(m_a, root_a)) by {
        assert(m_a[wa].0 == root_a);
    }
    let ua = crate::remap::map_index(m_a, root_a);
    assert(0 <= ua < m_a.len() && m_a[ua].0 == root_a);
    assert(a.objects[ua].0 == root_a);
    if ua != wa {
        assert(false);
    }
    let nr_a = crate::remap::apply_map(m_a, root_a);
    assert(nr_a == (ObjId { num: (0 + wa + 1) as u32, gen: 0u16 }));
    assert(store_lookup(copied_a, nr_a) == Some(
        crate::remap::clean_v(a.objects[wa].1, m_a, seq![cat_a]),
    ));
    lemma_clean_structure(a.objects[wa].1, m_a, seq![cat_a]);
    let objs1 = Seq::<(ObjId, ObjV)>::empty() + copied_a;
    assert(objs1 =~= copied_a);
    assert(count_of(store_lookup(objs1, nr_a)->Some_0) == Some(len_a));

    // the second source's accumulation, on top
    let cat_b = find_catalog_v(b.objects)->Some_0;
    let root_b = find_pages_root_v(b.objects)->Some_0;
    let base = n_a as u32;
    let m_b = mapping_from(b.objects, base);
    let copied_b = copied_objs(b.objects, m_b, seq![cat_b]);
    let n_b = b.objects.len() as int;
    crate::builder::lemma_copied_facts(b.objects, m_b, seq![cat_b], base, n_b);
    assert(b.objects.subrange(0, n_b) =~= b.objects);
    lemma_find_root_char(b.objects);
    lemma_find_catalog_char(b.objects);
    lemma_kinds_exclusive(store_lookup(b.objects, root_b)->Some_0);
    assert(root_b != cat_b) by {
        if root_b == cat_b {
            assert(is_catalog_v(store_lookup(b.objects, root_b)->Some_0));
            assert(is_pages_root_v(store_lookup(b.objects, root_b)->Some_0));
        }
    }
    assert(!contains_id(seq![cat_b], root_b)) by {
        if contains_id(seq![cat_b], root_b) {
            let e = choose|k: int| 0 <= k < 1 && seq![cat_b][k] == root_b;
        }
    }
    let wb = id_index(b.objects, root_b);
    assert(0 <= wb < n_b && b.objects[wb].0 == root_b);
    lemma_lookup_at(b.objects, wb);
    assert(crate::remap::map_has(m_b, root_b)) by {
        assert(m_b[wb].0 == root_b);
    }
    let ub = crate::remap::map_index(m_b, root_b);
    assert(0 <= ub < m_b.len() && m_b[ub].0 == root_b);
    assert(b.objects[ub].0 == root_b);
    if ub != wb {
        assert(false);
    }
    let nr_b = crate::remap::apply_map(m_b, root_b);
    assert(nr_b == (ObjId { num: (base + wb + 1) as u32, gen: 0u16 }));
    assert(store_lookup(copied_b, nr_b) == Some(
        crate::remap::clean_v(b.objects[wb].1, m_b, seq![cat_b]),
    ));
    lemma_clean_structure(b.objects[wb].1, m_b, seq![cat_b]);
    let objs2 = objs1 + copied_b;
    assert(distinct_ids(objs2)) by {
        assert forall|i: int, j: int| 0 <= i < j < objs2.len() implies objs2[i].0
            != objs2[j].0 by {
            if i < objs1.len() && j >= objs1.len() {
                assert(objs2[i] == objs1[i]);
                assert(objs2[j] == copied_b[j - objs1.len()]);
                assert(objs1[i].0.num <= n_a);
                assert(copied_b[j - objs1.len()].0.num >= base + 1);
            } else if j < objs1.len() {
                assert(objs2[i] == objs1[i] && objs2[j] == objs1[j]);
            } else {
                assert(objs2[i] == copied_b[i - objs1.len()]);
                assert(objs2[j] == copied_b[j - objs1.len()]);
            }
        }
    }
    assert(has_id(copied_b, nr_b));
    lemma_lookup_concat(objs1, copied_b, nr_b);
    assert(count_of(store_lookup(objs2, nr_b)->Some_0) == Some(len_b));

    // the accumulator over both, unfolded
    let acc0 = crate::merge::merge_acc(srcs, 0);
    let acc1 = crate::merge::merge_acc(srcs, 1);
    let acc2 = crate::merge::merge_acc(srcs, 2);
    assert(acc0 == (Seq::<(ObjId, ObjV)>::empty(), 0u32, Seq::<ObjId>::empty(), 0i64));
    assert(acc1.0 == objs1 && acc1.1 == n_a as u32 && acc1.2 == seq![nr_a] && acc1.3
        == crate::merge::count_add(0, len_a));
    assert(crate::merge::count_add(0, len_a) == len_a);
    assert(acc2.0 == objs2 && acc2.2 == seq![nr_a].push(nr_b) && acc2.3
        == crate::merge::count_add(len_a, len_b));
    assert(crate::merge::count_add(len_a, len_b) == (pages_of(a).len() + pages_of(b).len())
        as i64);
    assert(!(exists|k: int|
        0 <= k < srcs.len() && find_catalog_v(#[trigger] srcs[k].objects) is None)) by {
        if exists|k: int|
            0 <= k < srcs.len() && find_catalog_v(#[trigger] srcs[k].objects) is None {
            let k = choose|k: int|
                0 <= k < srcs.len() && find_catalog_v(#[trigger] srcs[k].objects) is None;
            assert(k == 0 || k == 1);
        }
    }
    let st2 = StoreV { objects: acc2.0, max_id: acc2.1, trailer: Seq::empty() };
    let out = crate::merge::merge_spec(srcs)->Ok_0;
    assert(out == crate::builder::assemble(st2, acc2.2, acc2.3));
    let pages_id = ObjId { num: (st2.max_id + 1) as u32, gen: 0u16 };
    let parented = set_parent_objs(st2.objects, acc2.2, pages_id);
    lemma_set_parent_objs_char(st2.objects, acc2.2, pages_id);
    assert(out.objects[out.objects.len() - 2].1 == pages_node_v(acc2.2, acc2.3));
    lemma_node_props(acc2.2, acc2.3, pages_id);
}

/// Does every reference inside the object point at a bound identifier?
pub open spec fn refs_within(o: ObjV, ok: Set<ObjId>) -> bool
    decreases o,
{
    match o {
        ObjV::Reference(id) => ok.contains(id),
        ObjV::Array(s) => refs_within_seq(s, ok),
        ObjV::Dictionary(d) => refs_within_entries(d, ok),
        ObjV::Stream(d, _) => refs_within_entries(d, ok),
        _ => true,
    }
}

pub open spec fn refs_within_seq(s: Seq<ObjV>, ok: Set<ObjId>) -> bool
    decreases s,
{
    if s.len() == 0 {
        true
    } else {
        refs_within_seq(s.subrange(0, s.len() - 1), ok) && refs_within(s[s.len() - 1], ok)
    }
}

pub open spec fn refs_within_entries(d: Seq<(Seq<u8>, ObjV)>, ok: Set<ObjId>) -> bool
    decreases d,
{
    if d.len() == 0 {
        true
    } else {
        refs_within_entries(d.subrange(0, d.len() - 1), ok) && refs_within(
            d[d.len() - 1].1,
            ok,
        )
    }
}

pub proof fn lemma_refs_within_seq_index(s: Seq<ObjV>, ok: Set<ObjId>)
    requires
        refs_within_seq(s, ok),
    ensures
        forall|i: int| 0 <= i < s.len() ==> refs_within(#[trigger] s[i], ok),
    decreases s.len(),
{
    if s.len() > 0 {
        let head = s.subrange(0, s.len() - 1);
        lemma_refs_within_seq_index(head, ok);
        assert forall|i: int| 0 <= i < s.len() implies refs_within(#[trigger] s[i], ok) by {
            if i < s.len() - 1 {
                assert(head[i] == s[i]);
            }
        }
    }
}

/// The identifiers a store binds.
pub open spec fn bound_ids(s: Seq<(ObjId, ObjV)>) -> Set<ObjId> {
    Set::new(|id: ObjId| has_id(s, id))
}

/// Entry values with references in range make a dictionary with references
/// in range.
proof fn lemma_refs_entries_from_index(d: Seq<(Seq<u8>, ObjV)>, ok: Set<ObjId>)
    requires
        forall|j: int| 0 <= j < d.len() ==> refs_within((#[trigger] d[j]).1, ok),
    ensures
        refs_within_entries(d, ok),
    decreases d.len(),
{
    if d.len() > 0 {
        let head = d.subrange(0, d.len() - 1);
        assert forall|j: int| 0 <= j < head.len() implies refs_within(
            (#[trigger] head[j]).1,
            ok,
        ) by {
            assert(head[j] == d[j]);
        }
        lemma_refs_entries_from_index(head, ok);
    }
}

/// The identifiers of a store's objects outside the excluded list.
pub open spec fn kept_source_ids(s: Seq<(ObjId, ObjV)>, excl: Seq<ObjId>) -> Set<ObjId> {
    Set::new(|id: ObjId| has_id(s, id) && !contains_id(excl, id))
}

proof fn lemma_refs_of_within(kids: Seq<ObjId>, ok: Set<ObjId>)
    requires
        forall|i: int| 0 <= i < kids.len() ==> ok.contains(#[trigger] kids[i]),
    ensures
        refs_within_seq(refs_of(kids), ok),
    decreases kids.len(),
{
    if kids.len() > 0 {
        let head = kids.subrange(0, kids.len() - 1);
        assert forall|i: int| 0 <= i < head.len() implies ok.contains(#[trigger] head[i]) by {
            assert(head[i] == kids[i]);
        }
        lemma_refs_of_within(head, ok);
        let r = refs_of(kids);
        assert(r.subrange(0, r.len() - 1) =~= refs_of(head));
        assert(r[r.len() - 1] == ObjV::Reference(kids[kids.len() - 1]));
        assert(ok.contains(kids[kids.len() - 1]));
        assert(refs_within(r[r.len() - 1], ok));
        assert(refs_within_seq(r.subrange(0, r.len() - 1), ok));
        assert(refs_within_seq(r, ok));
    } else {
        assert(refs_of(kids).len() == 0);
        assert(refs_within_seq(refs_of(kids), ok));
    }
}

/// No reference of a flatten output dangles, whatever the input holds:
/// the copier nulls every reference whose target it does not keep, the kids
/// and parents are rebound to the fresh root, and the catalog and trailer
/// point at objects the output binds. This is invariant I1 for the rebuilt
/// store, with no demand on the source beyond its decoded well-formedness.
#[verifier::rlimit(100)]
pub proof fn lemma_no_dangling_refs(src: StoreV, excl: Seq<ObjId>, kids: Seq<ObjId>, count: i64)
    requires
        distinct_ids(src.objects),
        src.objects.len() + 2 <= u32::MAX,
        forall|i: int|
            0 <= i < kids.len() ==> has_id(
                copied_objs(src.objects, mapping_from(src.objects, 0), excl),
                #[trigger] kids[i],
            ),
    ensures
        ({
            let out = crate::builder::flatten_store(src, excl, kids, count);
            &&& forall|k: int|
                0 <= k < out.objects.len() ==> refs_within(
                    (#[trigger] out.objects[k]).1,
                    bound_ids(out.objects),
                )
            &&& refs_within_entries(out.trailer, bound_ids(out.objects))
        }),
{
    let s = src.objects;
    let n = s.len() as int;
    let m = mapping_from(s, 0);
    let copied = copied_objs(s, m, excl);
    let pages_id = ObjId { num: (n + 1) as u32, gen: 0u16 };
    let catalog_id = ObjId { num: (n + 2) as u32, gen: 0u16 };
    let parented = set_parent_objs(copied, kids, pages_id);
    let out = crate::builder::flatten_store(src, excl, kids, count);
    let ok2 = bound_ids(out.objects);
    lemma_trailer_size(src, excl, kids, count);
    crate::builder::lemma_copied_facts(s, m, excl, 0u32, n);
    assert(s.subrange(0, n) =~= s);
    lemma_set_parent_objs_char(copied, kids, pages_id);
    assert(out.objects =~= parented.push((pages_id, pages_node_v(kids, count))).push(
        (catalog_id, catalog_v(pages_id)),
    ));
    lemma_lookup_pointwise(copied, parented, pages_id);
    assert forall|k: int| 0 <= k < parented.len() implies 1 <= (
    #[trigger] parented[k]).0.num <= n by {
        assert(parented[k].0 == copied[k].0);
    }

    // whatever the copy keeps, the output binds
    assert forall|x: ObjId|
        crate::remap::map_has(m, x) && !contains_id(excl, x) implies ok2.contains(
        #[trigger] crate::remap::apply_map(m, x),
    ) by {
        let u = crate::remap::map_index(m, x);
        assert(0 <= u < m.len() && m[u].0 == x);
        assert(s[u].0 == x);
        assert(store_lookup(copied, (ObjId { num: (0 + u + 1) as u32, gen: 0u16 })) == Some(
            crate::remap::clean_v(s[u].1, m, excl),
        ));
        assert(crate::remap::apply_map(m, x) == (ObjId { num: (u + 1) as u32, gen: 0u16 })) by {
            let w = crate::remap::map_index(m, x);
        }
        assert(has_id(copied, crate::remap::apply_map(m, x)));
        let v = id_index(copied, crate::remap::apply_map(m, x));
        assert(parented[v].0 == copied[v].0);
        assert(out.objects[v] == parented[v]);
        assert(has_id(out.objects, crate::remap::apply_map(m, x)));
    }
    assert(ok2.contains(pages_id)) by {
        assert(out.objects[out.objects.len() - 2].0 == pages_id);
    }
    assert(ok2.contains(catalog_id)) by {
        assert(out.objects[out.objects.len() - 1].0 == catalog_id);
    }
    assert forall|i: int| 0 <= i < kids.len() implies ok2.contains(#[trigger] kids[i]) by {
        let v = id_index(copied, kids[i]);
        assert(0 <= v < copied.len() && copied[v].0 == kids[i]);
        assert(parented[v].0 == copied[v].0);
        assert(out.objects[v] == parented[v]);
        assert(has_id(out.objects, kids[i]));
    }

    assert forall|k: int| 0 <= k < out.objects.len() implies refs_within(
        (#[trigger] out.objects[k]).1,
        ok2,
    ) by {
        if k < parented.len() {
            assert(out.objects[k] == parented[k]);
            let i = choose|i: int|
                0 <= i < n && !contains_id(excl, s[i].0) && #[trigger] copied[k] == (
                (ObjId { num: (0 + i + 1) as u32, gen: 0u16 }),
                crate::remap::clean_v(s[i].1, m, excl),
                );
            lemma_clean_refs(s[i].1, m, excl, ok2);
            if contains_id(kids, copied[k].0) {
                assert(parented[k].1 == set_parent_obj_v(copied[k].1, pages_id));
                match crate::remap::clean_v(s[i].1, m, excl) {
                    ObjV::Dictionary(d2) => {
                        lemma_refs_after_set(
                            d2,
                            key_parent(),
                            ObjV::Reference(pages_id),
                            ok2,
                        );
                    },
                    _ => {
                    },
                }
            } else {
                assert(parented[k].1 == copied[k].1);
            }
        } else if k == parented.len() {
            assert(out.objects[k].1 == pages_node_v(kids, count));
            lemma_refs_of_within(kids, ok2);
            let d = seq![
                (key_type(), ObjV::Name(name_pages())),
                (key_kids(), ObjV::Array(refs_of(kids))),
                (key_count(), ObjV::Integer(count)),
            ];
            assert forall|j: int| 0 <= j < d.len() implies refs_within(
                (#[trigger] d[j]).1,
                ok2,
            ) by {
                if j == 0 {
                    assert(d[j].1 == ObjV::Name(name_pages()));
                } else if j == 1 {
                    assert(d[j].1 == ObjV::Array(refs_of(kids)));
                } else {
                    assert(d[j].1 == ObjV::Integer(count));
                }
            }
            lemma_refs_entries_from_index(d, ok2);
        } else {
            assert(out.objects[k].1 == catalog_v(pages_id));
            let d = seq![
                (key_type(), ObjV::Name(name_catalog())),
                (name_pages(), ObjV::Reference(pages_id)),
            ];
            assert forall|j: int| 0 <= j < d.len() implies refs_within(
                (#[trigger] d[j]).1,
                ok2,
            ) by {
                if j == 0 {
                    assert(d[j].1 == ObjV::Name(name_catalog()));
                } else {
                    assert(d[j].1 == ObjV::Reference(pages_id));
                }
            }
            lemma_refs_entries_from_index(d, ok2);
        }
    }

    let tr = out.trailer;
    assert(dict_lookup(tr, crate::names::key_root()) == Some(ObjV::Reference(catalog_id)));
    let tr0 = dict_set(
        Seq::<(Seq<u8>, ObjV)>::empty(),
        crate::names::key_root(),
        ObjV::Reference(catalog_id),
    );
    assert(tr0 == seq![(crate::names::key_root(), ObjV::Reference(catalog_id))]);
    assert(tr0[0].0 == crate::names::key_root());
    assert(crate::names::key_root() != crate::names::key_size()) by {
        assert(crate::names::key_root()[0] == 82u8);
        assert(crate::names::key_size()[0] == 83u8);
    }
    crate::object::lemma_dict_set_frame(
        tr0,
        crate::names::key_size(),
        ObjV::Integer((n + 3) as i64),
    );
    assert(dict_lookup(tr0, crate::names::key_size()) is None) by {
        assert(tr0.subrange(1, 1) =~= Seq::<(Seq<u8>, ObjV)>::empty());
        assert(dict_lookup(Seq::<(Seq<u8>, ObjV)>::empty(), crate::names::key_size()) is None);
        assert(dict_lookup(tr0.subrange(1, 1), crate::names::key_size()) is None);
    }
    assert(tr =~= tr0.push((crate::names::key_size(), ObjV::Integer((n + 3) as i64))));
    assert forall|j: int| 0 <= j < tr.len() implies refs_within((#[trigger] tr[j]).1, ok2) by {
        if j == 0 {
            assert(tr[j].1 == ObjV::Reference(catalog_id));
        } else {
            assert(tr[j].1 == ObjV::Integer((n + 3) as i64));
        }
    }
    lemma_refs_entries_from_index(tr, ok2);
}

/// A list of identifiers, each sent through `f`.
pub open spec fn map_ids_f(s: Seq<ObjId>, f: spec_fn(ObjId) -> ObjId) -> Seq<ObjId> {
    Seq::new(s.len(), |i: int| f(s[i]))
}

/// Two kid lists the leaf walk cannot tell apart, the references renamed by
/// `f`: references line up pairwise, and non-references stay non-references.
pub open spec fn kids_like(a: Seq<ObjV>, b: Seq<ObjV>, f: spec_fn(ObjId) -> ObjId) -> bool {
    &&& a.len() == b.len()
    &&& forall|i: int|
        0 <= i < b.len() ==> (match #[trigger] b[i] {
            ObjV::Reference(x) => a[i] == ObjV::Reference(f(x)),
            _ => !(#[trigger] a[i] is Reference),
        })
}

/// Two objects the leaf walk cannot tell apart, up to renaming by `f`; the
/// kid lists matter only where the walk reads them, on a pages node.
pub open spec fn walk_like(v: ObjV, o: ObjV, f: spec_fn(ObjId) -> ObjId) -> bool {
    &&& is_page_v(v) == is_page_v(o)
    &&& is_pages_v(v) == is_pages_v(o)
    &&& is_pages_v(o) ==> kids_like(kids_of(v), kids_of(o), f)
}

/// Does `dest` mirror the page tree of `src` under the renaming `f`, on the
/// identifiers in `kept`? Each kept object is found at its renamed
/// identifier, indistinguishable to the walk; and every pages node of the
/// source keeps its kid references among the kept identifiers.
pub open spec fn mirrors(
    src: Seq<(ObjId, ObjV)>,
    dest: Seq<(ObjId, ObjV)>,
    f: spec_fn(ObjId) -> ObjId,
    kept: Set<ObjId>,
) -> bool {
    &&& forall|x: ObjId| #[trigger] kept.contains(x) ==> has_id(src, x)
    &&& forall|x: ObjId|
        kept.contains(x) ==> (store_lookup(dest, #[trigger] f(x)) matches Some(v) && walk_like(
            v,
            store_lookup(src, x)->Some_0,
            f,
        ))
    &&& forall|j: int|
        0 <= j < src.len() && is_pages_v((#[trigger] src[j]).1) ==> refs_within_seq(
            kids_of(src[j].1),
            kept,
        )
}

proof fn lemma_refs_within_seq_tail(b: Seq<ObjV>, kept: Set<ObjId>)
    requires
        b.len() > 0,
        refs_within_seq(b, kept),
    ensures
        refs_within_seq(b.subrange(1, b.len() as int), kept),
{
    lemma_refs_within_seq_index(b, kept);
    lemma_refs_within_seq_from_index(b.subrange(1, b.len() as int), kept);
}

proof fn lemma_refs_within_seq_from_index(s: Seq<ObjV>, ok: Set<ObjId>)
    requires
        forall|i: int| 0 <= i < s.len() ==> refs_within(#[trigger] s[i], ok),
    ensures
        refs_within_seq(s, ok),
    decreases s.len(),
{
    if s.len() > 0 {
        let head = s.subrange(0, s.len() - 1);
        assert forall|i: int| 0 <= i < head.len() implies refs_within(#[trigger] head[i], ok) by {
            assert(head[i] == s[i]);
        }
        lemma_refs_within_seq_from_index(head, ok);
    }
}

/// The walk simulation: a destination that mirrors a source enumerates, from
/// any kept identifier, exactly the source's leaves under the renaming — the
/// same pages, in the same order, at every fuel. This is the general law
/// behind the wrap-style rebuilds, whose kids are whole copied subtrees.
pub proof fn lemma_walk_sim(
    src: Seq<(ObjId, ObjV)>,
    dest: Seq<(ObjId, ObjV)>,
    f: spec_fn(ObjId) -> ObjId,
    kept: Set<ObjId>,
    id: ObjId,
    fuel: nat,
)
    requires
        mirrors(src, dest, f, kept),
        kept.contains(id),
    ensures
        leaves(dest, f(id), fuel) == map_ids_f(leaves(src, id, fuel), f),
    decreases fuel, 0nat,
{
    if fuel == 0 {
        assert(map_ids_f(leaves(src, id, fuel), f) =~= Seq::<ObjId>::empty());
    } else {
        assert(has_id(src, id));
        let o = store_lookup(src, id)->Some_0;
        let v = store_lookup(dest, f(id))->Some_0;
        assert(walk_like(v, o, f));
        if is_page_v(o) {
            assert(leaves(src, id, fuel) == seq![id]);
            assert(leaves(dest, f(id), fuel) == seq![f(id)]);
            assert(map_ids_f(seq![id], f) =~= seq![f(id)]);
        } else if is_pages_v(o) {
            let w = id_index(src, id);
            assert(0 <= w < src.len() && src[w].0 == id);
            assert(src[w].1 == o);
            assert(refs_within_seq(kids_of(o), kept));
            lemma_walk_sim_kids(src, dest, f, kept, kids_of(v), kids_of(o), (fuel - 1) as nat);
            assert(leaves(src, id, fuel) == kids_leaves(src, kids_of(o), (fuel - 1) as nat));
            assert(leaves(dest, f(id), fuel) == kids_leaves(dest, kids_of(v), (fuel - 1) as nat));
        } else {
            assert(leaves(src, id, fuel) == Seq::<ObjId>::empty());
            assert(leaves(dest, f(id), fuel) == Seq::<ObjId>::empty());
            assert(map_ids_f(leaves(src, id, fuel), f) =~= Seq::<ObjId>::empty());
        }
    }
}

/// The companion over kid lists, left to right.
pub proof fn lemma_walk_sim_kids(
    src: Seq<(ObjId, ObjV)>,
    dest: Seq<(ObjId, ObjV)>,
    f: spec_fn(ObjId) -> ObjId,
    kept: Set<ObjId>,
    a: Seq<ObjV>,
    b: Seq<ObjV>,
    fuel: nat,
)
    requires
        mirrors(src, dest, f, kept),
        kids_like(a, b, f),
        refs_within_seq(b, kept),
    ensures
        kids_leaves(dest, a, fuel) == map_ids_f(kids_leaves(src, b, fuel), f),
    decreases fuel, b.len() + 1,
{
    if b.len() == 0 {
        assert(map_ids_f(kids_leaves(src, b, fuel), f) =~= Seq::<ObjId>::empty());
    } else {
        let at = a.subrange(1, a.len() as int);
        let bt = b.subrange(1, b.len() as int);
        assert(kids_like(at, bt, f)) by {
            assert forall|i: int| 0 <= i < bt.len() implies (match #[trigger] bt[i] {
                ObjV::Reference(x) => at[i] == ObjV::Reference(f(x)),
                _ => !(#[trigger] at[i] is Reference),
            }) by {
                assert(bt[i] == b[i + 1] && at[i] == a[i + 1]);
            }
        }
        lemma_refs_within_seq_tail(b, kept);
        lemma_walk_sim_kids(src, dest, f, kept, at, bt, fuel);
        lemma_refs_within_seq_index(b, kept);
        let head_s = match b[0] {
            ObjV::Reference(x) => leaves(src, x, fuel),
            _ => Seq::<ObjId>::empty(),
        };
        let head_d = match a[0] {
            ObjV::Reference(y) => leaves(dest, y, fuel),
            _ => Seq::<ObjId>::empty(),
        };
        match b[0] {
            ObjV::Reference(x) => {
                assert(kept.contains(x));
                assert(a[0] == ObjV::Reference(f(x)));
                lemma_walk_sim(src, dest, f, kept, x, fuel);
                assert(head_d == map_ids_f(head_s, f));
            },
            _ => {
                assert(!(a[0] is Reference));
                assert(head_d =~= map_ids_f(head_s, f));
            },
        }
        assert(kids_leaves(dest, a, fuel) == head_d + kids_leaves(dest, at, fuel));
        assert(kids_leaves(src, b, fuel) == head_s + kids_leaves(src, bt, fuel));
        assert(map_ids_f(head_s + kids_leaves(src, bt, fuel), f) =~= map_ids_f(head_s, f)
            + map_ids_f(kids_leaves(src, bt, fuel), f));
    }
}

/// Rebinding a dictionary entry other than `Type` and `Kids` changes nothing
/// the walk reads.
pub proof fn lemma_set_entry_walk_like(
    v: ObjV,
    o: ObjV,
    f: spec_fn(ObjId) -> ObjId,
    key: Seq<u8>,
    val: ObjV,
)
    requires
        walk_like(v, o, f),
        key != key_type(),
        key != key_kids(),
    ensures
        walk_like(set_entry_obj_v(v, key, val), o, f),
{
    lemma_set_entry_structure(v, key, val);
    match v {
        ObjV::Dictionary(d) => {
            lemma_dict_set_lookup(d, key, val, key_kids());
        },
        _ => {
        },
    }
}

/// A lookup in a concatenation with distinct identifiers finds what the left
/// part binds.
pub proof fn lemma_lookup_concat_left(a: Seq<(ObjId, ObjV)>, b: Seq<(ObjId, ObjV)>, id: ObjId)
    requires
        distinct_ids(a + b),
        has_id(a, id),
    ensures
        store_lookup(a + b, id) == store_lookup(a, id),
{
    let t = a + b;
    assert(distinct_ids(a)) by {
        assert forall|i: int, j: int| 0 <= i < j < a.len() implies a[i].0 != a[j].0 by {
            assert(t[i] == a[i] && t[j] == a[j]);
        }
    }
    let w = id_index(a, id);
    assert(0 <= w < a.len() && a[w].0 == id);
    assert(t[w] == a[w]);
    assert(has_id(t, id));
    let u = id_index(t, id);
    assert(0 <= u < t.len() && t[u].0 == id);
    if u != w {
        assert(false);
    }
    assert(store_lookup(t, id) == Some(a[w].1));
    lemma_lookup_at(a, w);
}

/// Do the source's pages nodes keep their kid references among the objects
/// the copy keeps? The walk then never leaves the copied tree.
pub open spec fn tree_refs_kept(s: StoreV, excl: Seq<ObjId>) -> bool {
    forall|j: int|
        0 <= j < s.objects.len() && is_pages_v((#[trigger] s.objects[j]).1) ==> refs_within_seq(
            kids_of(s.objects[j].1),
            kept_source_ids(s.objects, excl),
        )
}

/// Does the store enumerate the same pages at every sufficient fuel? An
/// acyclic page tree does; a cyclic one keeps growing with the fuel.
pub open spec fn stable_pages(s: StoreV) -> bool {
    forall|f: nat|
        f >= s.objects.len() + 1 ==> leaves(
            s.objects,
            find_pages_root_v(s.objects)->Some_0,
            f,
        ) == pages_of(s)
}

/// The fresh identifier of a bound source identifier, with its range.
pub proof fn lemma_image_of(
    s: Seq<(ObjId, ObjV)>,
    m: Seq<(ObjId, ObjId)>,
    base: u32,
    x: ObjId,
) -> (r: ObjId)
    requires
        distinct_ids(s),
        m == mapping_from(s, base),
        base + s.len() <= u32::MAX,
        has_id(s, x),
    ensures
        r == crate::remap::apply_map(m, x),
        r == (ObjId { num: (base + id_index(s, x) + 1) as u32, gen: 0u16 }),
        base + 1 <= r.num <= base + s.len(),
{
    let w = id_index(s, x);
    assert(0 <= w < s.len() && s[w].0 == x);
    assert(crate::remap::map_has(m, x)) by {
        assert(m[w].0 == x);
    }
    let u = crate::remap::map_index(m, x);
    assert(0 <= u < m.len() && m[u].0 == x);
    assert(s[u].0 == x);
    if u != w {
        assert(false);
    }
    crate::remap::apply_map(m, x)
}

/// Two bound identifiers with one image are one identifier.
pub proof fn lemma_image_inj(
    s: Seq<(ObjId, ObjV)>,
    m: Seq<(ObjId, ObjId)>,
    base: u32,
    x: ObjId,
    y: ObjId,
)
    requires
        distinct_ids(s),
        m == mapping_from(s, base),
        base + s.len() <= u32::MAX,
        has_id(s, x),
        has_id(s, y),
        crate::remap::apply_map(m, x) == crate::remap::apply_map(m, y),
    ensures
        x == y,
{
    let rx = lemma_image_of(s, m, base, x);
    let ry = lemma_image_of(s, m, base, y);
    let wx = id_index(s, x);
    let wy = id_index(s, y);
    assert(base + wx + 1 == base + wy + 1);
    assert(wx == wy);
    assert(s[wx].0 == x && s[wy].0 == y);
}

/// One source's kept objects, found in the assembled output: each sits at
/// its fresh identifier, renumbered, the sub-roots alone reparented.
#[verifier::rlimit(100)]
pub proof fn lemma_merge_side(
    src: StoreV,
    out: StoreV,
    m: Seq<(ObjId, ObjId)>,
    base: u32,
    whole: Seq<(ObjId, ObjV)>,
    kids2: Seq<ObjId>,
    pages_id: ObjId,
    catalog_id: ObjId,
    node: ObjV,
)
    requires
        distinct_ids(src.objects),
        find_catalog_v(src.objects) is Some,
        m == mapping_from(src.objects, base),
        base + src.objects.len() <= u32::MAX,
        distinct_ids(whole),
        forall|x: ObjId|
            kept_source_ids(src.objects, seq![find_catalog_v(src.objects)->Some_0]).contains(x)
                ==> store_lookup(whole, #[trigger] crate::remap::apply_map(m, x)) == store_lookup(
                copied_objs(src.objects, m, seq![find_catalog_v(src.objects)->Some_0]),
                crate::remap::apply_map(m, x),
            ),
        out.objects == set_parent_objs(whole, kids2, pages_id).push((pages_id, node)).push(
            (catalog_id, catalog_v(pages_id)),
        ),
        !has_id(whole, pages_id),
        !has_id(whole, catalog_id),
        pages_id != catalog_id,
        forall|x: ObjId|
            kept_source_ids(src.objects, seq![find_catalog_v(src.objects)->Some_0]).contains(x)
                ==> #[trigger] crate::remap::apply_map(m, x) != pages_id
                && crate::remap::apply_map(m, x) != catalog_id,
    ensures
        forall|x: ObjId|
            kept_source_ids(src.objects, seq![find_catalog_v(src.objects)->Some_0]).contains(x)
                ==> store_lookup(out.objects, #[trigger] crate::remap::apply_map(m, x)) == Some(
                if contains_id(kids2, crate::remap::apply_map(m, x)) {
                    set_parent_obj_v(
                        crate::remap::clean_v(
                            store_lookup(src.objects, x)->Some_0,
                            m,
                            seq![find_catalog_v(src.objects)->Some_0],
                        ),
                        pages_id,
                    )
                } else {
                    crate::remap::clean_v(
                        store_lookup(src.objects, x)->Some_0,
                        m,
                        seq![find_catalog_v(src.objects)->Some_0],
                    )
                },
            ),
{
    let n = src.objects.len() as int;
    let cat = find_catalog_v(src.objects)->Some_0;
    let chunk = copied_objs(src.objects, m, seq![cat]);
    let kept = kept_source_ids(src.objects, seq![cat]);
    crate::builder::lemma_copied_facts(src.objects, m, seq![cat], base, n);
    assert(src.objects.subrange(0, n) =~= src.objects);
    let parented = set_parent_objs(whole, kids2, pages_id);
    lemma_set_parent_objs_char(whole, kids2, pages_id);
    lemma_lookup_pointwise(whole, parented, pages_id);
    assert(!has_id(parented, pages_id));
    crate::store::lemma_lookup_push(parented, (pages_id, node));
    let with_node = parented.push((pages_id, node));
    assert(!has_id(with_node, catalog_id)) by {
        if has_id(with_node, catalog_id) {
            let w = id_index(with_node, catalog_id);
            assert(0 <= w < with_node.len() && with_node[w].0 == catalog_id);
            if w < parented.len() {
                assert(whole[w].0 == catalog_id);
                assert(has_id(whole, catalog_id));
            }
        }
    }
    crate::store::lemma_lookup_push(with_node, (catalog_id, catalog_v(pages_id)));
    assert forall|x: ObjId| kept.contains(x) implies store_lookup(
        out.objects,
        #[trigger] crate::remap::apply_map(m, x),
    ) == Some(
        if contains_id(kids2, crate::remap::apply_map(m, x)) {
            set_parent_obj_v(
                crate::remap::clean_v(store_lookup(src.objects, x)->Some_0, m, seq![cat]),
                pages_id,
            )
        } else {
            crate::remap::clean_v(store_lookup(src.objects, x)->Some_0, m, seq![cat])
        },
    ) by {
        let img = lemma_image_of(src.objects, m, base, x);
        let w = id_index(src.objects, x);
        assert(src.objects[w].0 == x);
        lemma_lookup_at(src.objects, w);
        assert(!contains_id(seq![cat], src.objects[w].0)) by {
            if contains_id(seq![cat], src.objects[w].0) {
                let e = choose|k: int| 0 <= k < 1 && seq![cat][k] == src.objects[w].0;
            }
        }
        assert(store_lookup(chunk, (ObjId { num: (base + w + 1) as u32, gen: 0u16 })) == Some(
            crate::remap::clean_v(src.objects[w].1, m, seq![cat]),
        ));
        assert(store_lookup(whole, img) == Some(
            crate::remap::clean_v(store_lookup(src.objects, x)->Some_0, m, seq![cat]),
        ));
        assert(has_id(whole, img));
        let u = id_index(whole, img);
        assert(0 <= u < whole.len() && whole[u].0 == img);
        lemma_lookup_at(whole, u);
        lemma_lookup_pointwise(whole, parented, img);
        assert(store_lookup(parented, img) == Some(parented[u].1));
        assert(parented[u].1 == (if contains_id(kids2, img) {
            set_parent_obj_v(whole[u].1, pages_id)
        } else {
            whole[u].1
        }));
        assert(img != pages_id && img != catalog_id);
        assert(store_lookup(with_node, img) == store_lookup(parented, img));
        assert(store_lookup(out.objects, img) == store_lookup(with_node, img));
    }
}

/// The copy drops at most the one excluded object.
proof fn lemma_copied_len_lower(
    s: Seq<(ObjId, ObjV)>,
    m: Seq<(ObjId, ObjId)>,
    c: ObjId,
    j: int,
)
    requires
        distinct_ids(s),
        0 <= j <= s.len(),
    ensures
        copied_objs(s.subrange(0, j), m, seq![c]).len() + 1 >= j,
    decreases j,
{
    if j > 0 {
        lemma_copied_len_lower(s, m, c, j - 1);
        assert(s.subrange(0, j).subrange(0, j - 1) =~= s.subrange(0, j - 1));
        assert(s.subrange(0, j)[j - 1] == s[j - 1]);
        let prev = copied_objs(s.subrange(0, j - 1), m, seq![c]);
        if contains_id(seq![c], s[j - 1].0) {
            let e = choose|k: int| 0 <= k < 1 && seq![c][k] == s[j - 1].0;
            assert(s[j - 1].0 == c);
            assert(prev.len() + 1 >= j - 1);
            assert(copied_objs(s.subrange(0, j), m, seq![c]) == prev);
            assert forall|i: int| 0 <= i < j - 1 implies !contains_id(
                seq![c],
                (#[trigger] s[i]).0,
            ) by {
                if contains_id(seq![c], s[i].0) {
                    let e2 = choose|k: int| 0 <= k < 1 && seq![c][k] == s[i].0;
                    assert(s[i].0 == c && s[j - 1].0 == c);
                }
            }
            lemma_copied_len_exact(s, m, c, j - 1);
        } else {
            assert(copied_objs(s.subrange(0, j), m, seq![c]).len() == prev.len() + 1);
        }
    }
}

/// With nothing excluded in the prefix, the copy keeps every object.
proof fn lemma_copied_len_exact(s: Seq<(ObjId, ObjV)>, m: Seq<(ObjId, ObjId)>, c: ObjId, j: int)
    requires
        0 <= j <= s.len(),
        forall|i: int| 0 <= i < j ==> !contains_id(seq![c], (#[trigger] s[i]).0),
    ensures
        copied_objs(s.subrange(0, j), m, seq![c]).len() == j,
    decreases j,
{
    if j > 0 {
        lemma_copied_len_exact(s, m, c, j - 1);
        assert(s.subrange(0, j).subrange(0, j - 1) =~= s.subrange(0, j - 1));
        assert(s.subrange(0, j)[j - 1] == s[j - 1]);
    }
}

/// The accumulated shape of a two-source merge: it goes through, the two
/// renumbered sub-roots are the new root's kids in source order, and the
/// output is the parented accumulation plus the fresh root and catalog.
#[verifier::rlimit(100)]
pub proof fn lemma_merge_two_acc(a: StoreV, b: StoreV)
    requires
        tidy(a),
        tidy(b),
        a.objects.len() + b.objects.len() + 3 <= u32::MAX,
    ensures
        ({
            let n_a = a.objects.len() as int;
            let n_b = b.objects.len() as int;
            let m_a = mapping_from(a.objects, 0);
            let m_b = mapping_from(b.objects, a.objects.len() as u32);
            let cat_a = find_catalog_v(a.objects)->Some_0;
            let cat_b = find_catalog_v(b.objects)->Some_0;
            let nr_a = crate::remap::apply_map(m_a, find_pages_root_v(a.objects)->Some_0);
            let nr_b = crate::remap::apply_map(m_b, find_pages_root_v(b.objects)->Some_0);
            let kids2 = seq![nr_a, nr_b];
            let objs2 = Seq::<(ObjId, ObjV)>::empty() + copied_objs(a.objects, m_a, seq![cat_a])
                + copied_objs(b.objects, m_b, seq![cat_b]);
            let pages_id = ObjId { num: (n_a + n_b + 1) as u32, gen: 0u16 };
            let catalog_id = ObjId { num: (n_a + n_b + 2) as u32, gen: 0u16 };
            let node = pages_node_v(kids2, crate::merge::merge_acc(seq![a, b], 2).3);
            let merged = crate::merge::merge_spec(seq![a, b]);
            let out = merged->Ok_0;
            &&& merged is Ok
            &&& crate::merge::merge_acc(seq![a, b], 2).2 == kids2
            &&& 1 <= nr_a.num <= n_a && n_a < nr_b.num <= n_a + n_b
            &&& out.objects == set_parent_objs(objs2, kids2, pages_id).push(
                (pages_id, node),
            ).push((catalog_id, catalog_v(pages_id)))
            &&& distinct_ids(objs2)
            &&& forall|k: int|
                0 <= k < objs2.len() ==> 1 <= (#[trigger] objs2[k]).0.num <= n_a + n_b
            &&& !has_id(objs2, pages_id) && !has_id(objs2, catalog_id)
            &&& out.objects.len() >= n_a + n_b
            &&& store_lookup(out.objects, pages_id) == Some(node)
        }),
{
    let srcs = seq![a, b];
    assert(srcs[0] == a && srcs[1] == b && srcs.len() == 2);
    let n_a = a.objects.len() as int;
    let n_b = b.objects.len() as int;
    let cat_a = find_catalog_v(a.objects)->Some_0;
    let root_a = find_pages_root_v(a.objects)->Some_0;
    let cat_b = find_catalog_v(b.objects)->Some_0;
    let root_b = find_pages_root_v(b.objects)->Some_0;
    let m_a = mapping_from(a.objects, 0);
    let m_b = mapping_from(b.objects, n_a as u32);
    let copied_a = copied_objs(a.objects, m_a, seq![cat_a]);
    let copied_b = copied_objs(b.objects, m_b, seq![cat_b]);
    crate::builder::lemma_copied_facts(a.objects, m_a, seq![cat_a], 0u32, n_a);
    assert(a.objects.subrange(0, n_a) =~= a.objects);
    crate::builder::lemma_copied_facts(b.objects, m_b, seq![cat_b], n_a as u32, n_b);
    assert(b.objects.subrange(0, n_b) =~= b.objects);
    lemma_find_root_char(a.objects);
    lemma_find_root_char(b.objects);
    let nr_a = lemma_image_of(a.objects, m_a, 0u32, root_a);
    let nr_b = lemma_image_of(b.objects, m_b, n_a as u32, root_b);
    let acc1 = crate::merge::merge_acc(srcs, 1);
    let acc2 = crate::merge::merge_acc(srcs, 2);
    let objs1 = Seq::<(ObjId, ObjV)>::empty() + copied_a;
    assert(objs1 =~= copied_a);
    assert(acc1.0 == objs1 && acc1.1 == n_a as u32 && acc1.2 == seq![nr_a]) by {
        assert(crate::merge::merge_acc(srcs, 0) == (
            Seq::<(ObjId, ObjV)>::empty(),
            0u32,
            Seq::<ObjId>::empty(),
            0i64,
        ));
    }
    let objs2 = objs1 + copied_b;
    assert(acc2.0 == objs2 && acc2.1 == (n_a + n_b) as u32 && acc2.2 == seq![nr_a].push(nr_b));
    assert(acc2.2 =~= seq![nr_a, nr_b]);
    let kids2 = acc2.2;
    assert(distinct_ids(objs2)) by {
        assert forall|i: int, j: int| 0 <= i < j < objs2.len() implies objs2[i].0
            != objs2[j].0 by {
            if i < objs1.len() && j >= objs1.len() {
                assert(objs2[i] == objs1[i]);
                assert(objs2[j] == copied_b[j - objs1.len()]);
                assert(objs1[i].0.num <= n_a);
                assert(copied_b[j - objs1.len()].0.num >= n_a + 1);
            } else if j < objs1.len() {
                assert(objs2[i] == objs1[i] && objs2[j] == objs1[j]);
            } else {
                assert(objs2[i] == copied_b[i - objs1.len()]);
                assert(objs2[j] == copied_b[j - objs1.len()]);
            }
        }
    }
    assert forall|k: int| 0 <= k < objs2.len() implies 1 <= (#[trigger] objs2[k]).0.num <= n_a
        + n_b by {
        if k < objs1.len() {
            assert(objs2[k] == objs1[k]);
        } else {
            assert(objs2[k] == copied_b[k - objs1.len()]);
        }
    }
    assert(!(exists|k: int|
        0 <= k < srcs.len() && find_catalog_v(#[trigger] srcs[k].objects) is None)) by {
        if exists|k: int|
            0 <= k < srcs.len() && find_catalog_v(#[trigger] srcs[k].objects) is None {
            let k = choose|k: int|
                0 <= k < srcs.len() && find_catalog_v(#[trigger] srcs[k].objects) is None;
            assert(k == 0 || k == 1);
        }
    }
    let st2 = StoreV { objects: objs2, max_id: acc2.1, trailer: Seq::empty() };
    let out = crate::merge::merge_spec(srcs)->Ok_0;
    assert(out == crate::builder::assemble(st2, kids2, acc2.3));
    let pages_id = ObjId { num: (n_a + n_b + 1) as u32, gen: 0u16 };
    let catalog_id = ObjId { num: (n_a + n_b + 2) as u32, gen: 0u16 };
    let parented = set_parent_objs(objs2, kids2, pages_id);
    let node = pages_node_v(kids2, acc2.3);
    lemma_set_parent_objs_char(objs2, kids2, pages_id);
    assert(out.objects =~= parented.push((pages_id, node)).push(
        (catalog_id, catalog_v(pages_id)),
    ));
    lemma_copied_len_lower(a.objects, m_a, cat_a, n_a);
    lemma_copied_len_lower(b.objects, m_b, cat_b, n_b);
    assert(out.objects.len() >= n_a + n_b);
    assert(!has_id(objs2, pages_id)) by {
        if has_id(objs2, pages_id) {
            let w = id_index(objs2, pages_id);
        }
    }
    assert(!has_id(objs2, catalog_id)) by {
        if has_id(objs2, catalog_id) {
            let w = id_index(objs2, catalog_id);
        }
    }
    lemma_lookup_pointwise(objs2, parented, pages_id);
    assert(!has_id(parented, pages_id));
    crate::store::lemma_lookup_push(parented, (pages_id, node));
    let with_node = parented.push((pages_id, node));
    assert(!has_id(with_node, catalog_id)) by {
        if has_id(with_node, catalog_id) {
            let w = id_index(with_node, catalog_id);
            assert(0 <= w < with_node.len() && with_node[w].0 == catalog_id);
            if w < parented.len() {
                assert(parented[w].0 == objs2[w].0);
                assert(has_id(objs2, catalog_id));
            }
        }
    }
    crate::store::lemma_lookup_push(with_node, (catalog_id, catalog_v(pages_id)));
    assert(store_lookup(out.objects, pages_id) == Some(node));
}

/// Every kept object of either source is found in the merged output at its
/// fresh identifier, renumbered; the two sub-roots alone are reparented.
#[verifier::rlimit(100)]
pub proof fn lemma_merge_two_values(a: StoreV, b: StoreV)
    requires
        tidy(a),
        tidy(b),
        a.objects.len() + b.objects.len() + 3 <= u32::MAX,
    ensures
        ({
            let n_a = a.objects.len() as int;
            let n_b = b.objects.len() as int;
            let m_a = mapping_from(a.objects, 0);
            let m_b = mapping_from(b.objects, a.objects.len() as u32);
            let cat_a = find_catalog_v(a.objects)->Some_0;
            let cat_b = find_catalog_v(b.objects)->Some_0;
            let nr_a = crate::remap::apply_map(m_a, find_pages_root_v(a.objects)->Some_0);
            let nr_b = crate::remap::apply_map(m_b, find_pages_root_v(b.objects)->Some_0);
            let kids2 = seq![nr_a, nr_b];
            let pages_id = ObjId { num: (n_a + n_b + 1) as u32, gen: 0u16 };
            let out = crate::merge::merge_spec(seq![a, b])->Ok_0;
            &&& forall|x: ObjId|
                kept_source_ids(a.objects, seq![cat_a]).contains(x) ==> store_lookup(
                    out.objects,
                    #[trigger] crate::remap::apply_map(m_a, x),
                ) == Some(
                    if contains_id(kids2, crate::remap::apply_map(m_a, x)) {
                        set_parent_obj_v(
                            crate::remap::clean_v(
                                store_lookup(a.objects, x)->Some_0,
                                m_a,
                                seq![cat_a],
                            ),
                            pages_id,
                        )
                    } else {
                        crate::remap::clean_v(store_lookup(a.objects, x)->Some_0, m_a, seq![cat_a])
                    },
                )
            &&& forall|x: ObjId|
                kept_source_ids(b.objects, seq![cat_b]).contains(x) ==> store_lookup(
                    out.objects,
                    #[trigger] crate::remap::apply_map(m_b, x),
                ) == Some(
                    if contains_id(kids2, crate::remap::apply_map(m_b, x)) {
                        set_parent_obj_v(
                            crate::remap::clean_v(
                                store_lookup(b.objects, x)->Some_0,
                                m_b,
                                seq![cat_b],
                            ),
                            pages_id,
                        )
                    } else {
                        crate::remap::clean_v(store_lookup(b.objects, x)->Some_0, m_b, seq![cat_b])
                    },
                )
        }),
{
    lemma_merge_two_acc(a, b);
    let n_a = a.objects.len() as int;
    let n_b = b.objects.len() as int;
    let cat_a = find_catalog_v(a.objects)->Some_0;
    let cat_b = find_catalog_v(b.objects)->Some_0;
    let m_a = mapping_from(a.objects, 0);
    let m_b = mapping_from(b.objects, n_a as u32);
    let copied_a = copied_objs(a.objects, m_a, seq![cat_a]);
    let copied_b = copied_objs(b.objects, m_b, seq![cat_b]);
    let kept_a = kept_source_ids(a.objects, seq![cat_a]);
    let kept_b = kept_source_ids(b.objects, seq![cat_b]);
    let nr_a = crate::remap::apply_map(m_a, find_pages_root_v(a.objects)->Some_0);
    let nr_b = crate::remap::apply_map(m_b, find_pages_root_v(b.objects)->Some_0);
    let kids2 = seq![nr_a, nr_b];
    let objs1 = Seq::<(ObjId, ObjV)>::empty() + copied_a;
    let objs2 = objs1 + copied_b;
    let pages_id = ObjId { num: (n_a + n_b + 1) as u32, gen: 0u16 };
    let catalog_id = ObjId { num: (n_a + n_b + 2) as u32, gen: 0u16 };
    let node = pages_node_v(kids2, crate::merge::merge_acc(seq![a, b], 2).3);
    let out = crate::merge::merge_spec(seq![a, b])->Ok_0;
    crate::builder::lemma_copied_facts(a.objects, m_a, seq![cat_a], 0u32, n_a);
    assert(a.objects.subrange(0, n_a) =~= a.objects);
    crate::builder::lemma_copied_facts(b.objects, m_b, seq![cat_b], n_a as u32, n_b);
    assert(b.objects.subrange(0, n_b) =~= b.objects);
    assert(objs1 =~= copied_a);
    assert forall|x: ObjId| kept_a.contains(x) implies store_lookup(
        objs2,
        #[trigger] crate::remap::apply_map(m_a, x),
    ) == store_lookup(copied_a, crate::remap::apply_map(m_a, x)) by {
        let img = lemma_image_of(a.objects, m_a, 0u32, x);
        let w = id_index(a.objects, x);
        lemma_lookup_at(a.objects, w);
        assert(!contains_id(seq![cat_a], a.objects[w].0)) by {
            if contains_id(seq![cat_a], a.objects[w].0) {
                let e = choose|k: int| 0 <= k < 1 && seq![cat_a][k] == a.objects[w].0;
            }
        }
        assert(store_lookup(copied_a, (ObjId { num: (0 + w + 1) as u32, gen: 0u16 })) == Some(
            crate::remap::clean_v(a.objects[w].1, m_a, seq![cat_a]),
        ));
        assert(has_id(copied_a, img));
        assert(has_id(objs1, img)) by {
            let u = id_index(copied_a, img);
            assert(objs1[u] == copied_a[u]);
        }
        lemma_lookup_concat_left(objs1, copied_b, img);
        assert(store_lookup(objs1, img) == store_lookup(copied_a, img)) by {
            assert(objs1 =~= copied_a);
        }
    }
    assert forall|x: ObjId| kept_b.contains(x) implies store_lookup(
        objs2,
        #[trigger] crate::remap::apply_map(m_b, x),
    ) == store_lookup(copied_b, crate::remap::apply_map(m_b, x)) by {
        let img = lemma_image_of(b.objects, m_b, n_a as u32, x);
        let w = id_index(b.objects, x);
        lemma_lookup_at(b.objects, w);
        assert(!contains_id(seq![cat_b], b.objects[w].0)) by {
            if contains_id(seq![cat_b], b.objects[w].0) {
                let e = choose|k: int| 0 <= k < 1 && seq![cat_b][k] == b.objects[w].0;
            }
        }
        assert(store_lookup(copied_b, (ObjId { num: (n_a + w + 1) as u32, gen: 0u16 })) == Some(
            crate::remap::clean_v(b.objects[w].1, m_b, seq![cat_b]),
        ));
        assert(has_id(copied_b, img));
        lemma_lookup_concat(objs1, copied_b, img);
    }
    assert forall|x: ObjId| kept_a.contains(x) implies #[trigger] crate::remap::apply_map(m_a, x)
        != pages_id && crate::remap::apply_map(m_a, x) != catalog_id by {
        let img = lemma_image_of(a.objects, m_a, 0u32, x);
    }
    assert forall|x: ObjId| kept_b.contains(x) implies #[trigger] crate::remap::apply_map(m_b, x)
        != pages_id && crate::remap::apply_map(m_b, x) != catalog_id by {
        let img = lemma_image_of(b.objects, m_b, n_a as u32, x);
    }
    lemma_merge_side(a, out, m_a, 0u32, objs2, kids2, pages_id, catalog_id, node);
    lemma_merge_side(b, out, m_b, n_a as u32, objs2, kids2, pages_id, catalog_id, node);
}

/// Merging two documents keeps every page, in source order: the output's
/// enumeration is the first source's pages then the second's, each renamed
/// by its own translation table, and each page object is the source's page
/// renumbered — content up to renumbering, the page-for-page reading of the
/// merge law. The sources must be tidy, their page trees self-contained
/// (`tree_refs_kept`) and acyclic (`stable_pages`).
#[verifier::rlimit(100)]
pub proof fn lemma_merge_two_pages(a: StoreV, b: StoreV)
    requires
        tidy(a),
        tidy(b),
        a.objects.len() + b.objects.len() + 3 <= u32::MAX,
        tree_refs_kept(a, seq![find_catalog_v(a.objects)->Some_0]),
        tree_refs_kept(b, seq![find_catalog_v(b.objects)->Some_0]),
        stable_pages(a),
        stable_pages(b),
    ensures
        ({
            let m_a = mapping_from(a.objects, 0);
            let m_b = mapping_from(b.objects, a.objects.len() as u32);
            let f_a = |x: ObjId| crate::remap::apply_map(m_a, x);
            let f_b = |x: ObjId| crate::remap::apply_map(m_b, x);
            let merged = crate::merge::merge_spec(seq![a, b]);
            &&& merged is Ok
            &&& pages_of(merged->Ok_0) == map_ids_f(pages_of(a), f_a) + map_ids_f(
                pages_of(b),
                f_b,
            )
            &&& forall|i: int|
                0 <= i < pages_of(a).len() ==> store_lookup(
                    (merged->Ok_0).objects,
                    #[trigger] pages_of(merged->Ok_0)[i],
                ) == Some(
                    crate::remap::clean_v(
                        store_lookup(a.objects, pages_of(a)[i])->Some_0,
                        m_a,
                        seq![find_catalog_v(a.objects)->Some_0],
                    ),
                )
            &&& forall|i: int|
                0 <= i < pages_of(b).len() ==> store_lookup(
                    (merged->Ok_0).objects,
                    #[trigger] pages_of(merged->Ok_0)[pages_of(a).len() + i],
                ) == Some(
                    crate::remap::clean_v(
                        store_lookup(b.objects, pages_of(b)[i])->Some_0,
                        m_b,
                        seq![find_catalog_v(b.objects)->Some_0],
                    ),
                )
        }),
{
    lemma_merge_two_acc(a, b);
    lemma_merge_two_values(a, b);
    let n_a = a.objects.len() as int;
    let n_b = b.objects.len() as int;
    let cat_a = find_catalog_v(a.objects)->Some_0;
    let cat_b = find_catalog_v(b.objects)->Some_0;
    let root_a = find_pages_root_v(a.objects)->Some_0;
    let root_b = find_pages_root_v(b.objects)->Some_0;
    let m_a = mapping_from(a.objects, 0);
    let m_b = mapping_from(b.objects, n_a as u32);
    let f_a = |x: ObjId| crate::remap::apply_map(m_a, x);
    let f_b = |x: ObjId| crate::remap::apply_map(m_b, x);
    let kept_a = kept_source_ids(a.objects, seq![cat_a]);
    let kept_b = kept_source_ids(b.objects, seq![cat_b]);
    let nr_a = crate::remap::apply_map(m_a, root_a);
    let nr_b = crate::remap::apply_map(m_b, root_b);
    let kids2 = seq![nr_a, nr_b];
    let pages_id = ObjId { num: (n_a + n_b + 1) as u32, gen: 0u16 };
    let node = pages_node_v(kids2, crate::merge::merge_acc(seq![a, b], 2).3);
    let out = crate::merge::merge_spec(seq![a, b])->Ok_0;
    lemma_find_catalog_char(a.objects);
    lemma_find_catalog_char(b.objects);
    lemma_find_root_char(a.objects);
    lemma_find_root_char(b.objects);
    lemma_names_distinct();

    // the two sides mirror their sources in the output
    assert forall|x: ObjId| #[trigger] kept_a.contains(x) implies crate::remap::map_has(m_a, x)
        && !contains_id(seq![cat_a], x) by {
        let w = id_index(a.objects, x);
        assert(0 <= w < a.objects.len() && a.objects[w].0 == x);
        assert(m_a[w].0 == x);
    }
    assert forall|x: ObjId| #[trigger] kept_b.contains(x) implies crate::remap::map_has(m_b, x)
        && !contains_id(seq![cat_b], x) by {
        let w = id_index(b.objects, x);
        assert(0 <= w < b.objects.len() && b.objects[w].0 == x);
        assert(m_b[w].0 == x);
    }
    assert(mirrors(a.objects, out.objects, f_a, kept_a)) by {
        assert forall|x: ObjId| kept_a.contains(x) implies (store_lookup(
            out.objects,
            #[trigger] f_a(x),
        ) matches Some(v) && walk_like(v, store_lookup(a.objects, x)->Some_0, f_a)) by {
            let o = store_lookup(a.objects, x)->Some_0;
            let v0 = crate::remap::clean_v(o, m_a, seq![cat_a]);
            lemma_clean_structure(o, m_a, seq![cat_a]);
            if is_pages_v(o) {
                let w = id_index(a.objects, x);
                assert(0 <= w < a.objects.len() && a.objects[w].0 == x);
                assert(a.objects[w].1 == o) by {
                    lemma_lookup_at(a.objects, w);
                }
                assert(refs_within_seq(kids_of(o), kept_a));
                lemma_clean_walk_like(o, m_a, seq![cat_a], kept_a);
                assert(kids_like(kids_of(v0), kids_of(o), f_a));
            }
            assert(walk_like(v0, o, f_a));
            if contains_id(kids2, crate::remap::apply_map(m_a, x)) {
                lemma_set_entry_walk_like(v0, o, f_a, key_parent(), ObjV::Reference(pages_id));
            }
        }
    }
    assert(mirrors(b.objects, out.objects, f_b, kept_b)) by {
        assert forall|x: ObjId| kept_b.contains(x) implies (store_lookup(
            out.objects,
            #[trigger] f_b(x),
        ) matches Some(v) && walk_like(v, store_lookup(b.objects, x)->Some_0, f_b)) by {
            let o = store_lookup(b.objects, x)->Some_0;
            let v0 = crate::remap::clean_v(o, m_b, seq![cat_b]);
            lemma_clean_structure(o, m_b, seq![cat_b]);
            if is_pages_v(o) {
                let w = id_index(b.objects, x);
                assert(0 <= w < b.objects.len() && b.objects[w].0 == x);
                assert(b.objects[w].1 == o) by {
                    lemma_lookup_at(b.objects, w);
                }
                assert(refs_within_seq(kids_of(o), kept_b));
                lemma_clean_walk_like(o, m_b, seq![cat_b], kept_b);
                assert(kids_like(kids_of(v0), kids_of(o), f_b));
            }
            assert(walk_like(v0, o, f_b));
            if contains_id(kids2, crate::remap::apply_map(m_b, x)) {
                lemma_set_entry_walk_like(v0, o, f_b, key_parent(), ObjV::Reference(pages_id));
            }
        }
    }

    // the walk from the new root is the two sub-walks in order
    assert(kept_a.contains(root_a)) by {
        if contains_id(seq![cat_a], root_a) {
            let e = choose|k: int| 0 <= k < 1 && seq![cat_a][k] == root_a;
            lemma_kinds_exclusive(store_lookup(a.objects, root_a)->Some_0);
        }
    }
    assert(kept_b.contains(root_b)) by {
        if contains_id(seq![cat_b], root_b) {
            let e = choose|k: int| 0 <= k < 1 && seq![cat_b][k] == root_b;
            lemma_kinds_exclusive(store_lookup(b.objects, root_b)->Some_0);
        }
    }
    let fuel = (out.objects.len() + 1) as nat;
    let f1 = (fuel - 1) as nat;
    lemma_walk_sim(a.objects, out.objects, f_a, kept_a, root_a, f1);
    lemma_walk_sim(b.objects, out.objects, f_b, kept_b, root_b, f1);
    assert(n_b >= 1) by {
        let w = id_index(b.objects, cat_b);
    }
    assert(n_a >= 1) by {
        let w = id_index(a.objects, cat_a);
    }
    assert(f1 >= n_a + 1 && f1 >= n_b + 1);
    assert(leaves(a.objects, root_a, f1) == pages_of(a));
    assert(leaves(b.objects, root_b, f1) == pages_of(b));
    assert(find_pages_root_v(out.objects) == Some(pages_id)) by {
        lemma_merge_two_finds(a, b);
    }
    lemma_node_props(kids2, crate::merge::merge_acc(seq![a, b], 2).3, pages_id);
    assert(leaves(out.objects, pages_id, fuel) == kids_leaves(
        out.objects,
        refs_of(kids2),
        f1,
    ));
    let r = refs_of(kids2);
    assert(r[0] == ObjV::Reference(nr_a) && r[1] == ObjV::Reference(nr_b) && r.len() == 2);
    let r1 = r.subrange(1, 2);
    assert(r1[0] == ObjV::Reference(nr_b) && r1.len() == 1);
    assert(r1.subrange(1, 1) =~= Seq::<ObjV>::empty());
    assert(kids_leaves(out.objects, r1.subrange(1, 1), f1) =~= Seq::<ObjId>::empty());
    assert(kids_leaves(out.objects, r1, f1) == leaves(out.objects, nr_b, f1) + kids_leaves(
        out.objects,
        r1.subrange(1, r1.len() as int),
        f1,
    ));
    assert(kids_leaves(out.objects, r1, f1) =~= leaves(out.objects, nr_b, f1));
    assert(r.subrange(1, r.len() as int) == r1);
    assert(kids_leaves(out.objects, r, f1) == leaves(out.objects, nr_a, f1) + kids_leaves(
        out.objects,
        r1,
        f1,
    ));
    assert(kids_leaves(out.objects, r, f1) =~= leaves(out.objects, nr_a, f1) + leaves(
        out.objects,
        nr_b,
        f1,
    ));
    assert(nr_a == f_a(root_a) && nr_b == f_b(root_b));
    assert(pages_of(out) == map_ids_f(pages_of(a), f_a) + map_ids_f(pages_of(b), f_b));

    // each page object rides across unchanged but for renumbering
    assert forall|i: int| 0 <= i < pages_of(a).len() implies store_lookup(
        out.objects,
        #[trigger] pages_of(out)[i],
    ) == Some(
        crate::remap::clean_v(store_lookup(a.objects, pages_of(a)[i])->Some_0, m_a, seq![cat_a]),
    ) by {
        let p = pages_of(a)[i];
        lemma_leaves_are_pages(a.objects, root_a, (n_a + 1) as nat);
        assert(store_lookup(a.objects, p) matches Some(o) && is_page_v(o));
        lemma_page_not_cat_root(a, p);
        assert(!contains_id(seq![cat_a], p)) by {
            if contains_id(seq![cat_a], p) {
                let e = choose|k: int| 0 <= k < 1 && seq![cat_a][k] == p;
            }
        }
        assert(kept_a.contains(p));
        assert(pages_of(out)[i] == f_a(p)) by {
            assert(map_ids_f(pages_of(a), f_a)[i] == f_a(p));
        }
        assert(f_a(p) != nr_a) by {
            if f_a(p) == nr_a {
                lemma_image_inj(a.objects, m_a, 0u32, p, root_a);
                assert(is_pages_root_v(store_lookup(a.objects, root_a)->Some_0));
                lemma_kinds_exclusive(store_lookup(a.objects, p)->Some_0);
            }
        }
        assert(f_a(p) != nr_b) by {
            let img = lemma_image_of(a.objects, m_a, 0u32, p);
            if f_a(p) == nr_b {
                assert(f_a(p).num <= n_a && nr_b.num >= n_a + 1);
            }
        }
        assert(!contains_id(kids2, f_a(p))) by {
            if contains_id(kids2, f_a(p)) {
                let e = choose|k: int| 0 <= k < 2 && kids2[k] == f_a(p);
            }
        }
    }
    assert forall|i: int| 0 <= i < pages_of(b).len() implies store_lookup(
        out.objects,
        #[trigger] pages_of(out)[pages_of(a).len() + i],
    ) == Some(
        crate::remap::clean_v(store_lookup(b.objects, pages_of(b)[i])->Some_0, m_b, seq![cat_b]),
    ) by {
        let p = pages_of(b)[i];
        lemma_leaves_are_pages(b.objects, root_b, (n_b + 1) as nat);
        assert(store_lookup(b.objects, p) matches Some(o) && is_page_v(o));
        lemma_page_not_cat_root(b, p);
        assert(!contains_id(seq![cat_b], p)) by {
            if contains_id(seq![cat_b], p) {
                let e = choose|k: int| 0 <= k < 1 && seq![cat_b][k] == p;
            }
        }
        assert(kept_b.contains(p));
        assert(pages_of(out)[pages_of(a).len() + i] == f_b(p)) by {
            assert(map_ids_f(pages_of(b), f_b)[i] == f_b(p));
        }
        assert(f_b(p) != nr_b) by {
            if f_b(p) == nr_b {
                lemma_image_inj(b.objects, m_b, n_a as u32, p, root_b);
                assert(is_pages_root_v(store_lookup(b.objects, root_b)->Some_0));
                lemma_kinds_exclusive(store_lookup(b.objects, p)->Some_0);
            }
        }
        assert(f_b(p) != nr_a) by {
            let img = lemma_image_of(b.objects, m_b, n_a as u32, p);
            if f_b(p) == nr_a {
                assert(f_b(p).num >= n_a + 1 && nr_a.num <= n_a);
            }
        }
        assert(!contains_id(kids2, f_b(p))) by {
            if contains_id(kids2, f_b(p)) {
                let e = choose|k: int| 0 <= k < 2 && kids2[k] == f_b(p);
            }
        }
    }
}

/// The locator on the merged output: the fresh root and catalog are the ones
/// it finds, every copied object having lost any claim to either role.
#[verifier::rlimit(100)]
proof fn lemma_merge_two_finds(a: StoreV, b: StoreV)
    requires
        tidy(a),
        tidy(b),
        a.objects.len() + b.objects.len() + 3 <= u32::MAX,
    ensures
        ({
            let n_a = a.objects.len() as int;
            let n_b = b.objects.len() as int;
            let out = crate::merge::merge_spec(seq![a, b])->Ok_0;
            &&& find_pages_root_v(out.objects) == Some(
                ObjId { num: (n_a + n_b + 1) as u32, gen: 0u16 },
            )
            &&& find_catalog_v(out.objects) == Some(
                ObjId { num: (n_a + n_b + 2) as u32, gen: 0u16 },
            )
        }),
{
    lemma_merge_two_acc(a, b);
    let n_a = a.objects.len() as int;
    let n_b = b.objects.len() as int;
    let cat_a = find_catalog_v(a.objects)->Some_0;
    let cat_b = find_catalog_v(b.objects)->Some_0;
    let root_a = find_pages_root_v(a.objects)->Some_0;
    let root_b = find_pages_root_v(b.objects)->Some_0;
    let m_a = mapping_from(a.objects, 0);
    let m_b = mapping_from(b.objects, n_a as u32);
    let copied_a = copied_objs(a.objects, m_a, seq![cat_a]);
    let copied_b = copied_objs(b.objects, m_b, seq![cat_b]);
    let nr_a = crate::remap::apply_map(m_a, root_a);
    let nr_b = crate::remap::apply_map(m_b, root_b);
    let kids2 = seq![nr_a, nr_b];
    let objs1 = Seq::<(ObjId, ObjV)>::empty() + copied_a;
    let objs2 = objs1 + copied_b;
    let pages_id = ObjId { num: (n_a + n_b + 1) as u32, gen: 0u16 };
    let catalog_id = ObjId { num: (n_a + n_b + 2) as u32, gen: 0u16 };
    let node = pages_node_v(kids2, crate::merge::merge_acc(seq![a, b], 2).3);
    let parented = set_parent_objs(objs2, kids2, pages_id);
    let out = crate::merge::merge_spec(seq![a, b])->Ok_0;
    crate::builder::lemma_copied_facts(a.objects, m_a, seq![cat_a], 0u32, n_a);
    assert(a.objects.subrange(0, n_a) =~= a.objects);
    crate::builder::lemma_copied_facts(b.objects, m_b, seq![cat_b], n_a as u32, n_b);
    assert(b.objects.subrange(0, n_b) =~= b.objects);
    assert(objs1 =~= copied_a);
    lemma_set_parent_objs_char(objs2, kids2, pages_id);
    lemma_names_distinct();

    assert forall|k: int| 0 <= k < parented.len() implies !is_pages_root_v(
        (#[trigger] parented[k]).1,
    ) && !is_catalog_v(parented[k].1) by {
        let base_val = objs2[k].1;
        // the copied value is neither a root nor a catalog
        assert(!is_pages_root_v(base_val) || contains_id(kids2, objs2[k].0)) by {
            if k < objs1.len() {
                assert(objs2[k] == copied_a[k]);
                let i = choose|i: int|
                    0 <= i < n_a && !contains_id(seq![cat_a], a.objects[i].0)
                        && #[trigger] copied_a[k] == (
                    (ObjId { num: (0 + i + 1) as u32, gen: 0u16 }),
                    crate::remap::clean_v(a.objects[i].1, m_a, seq![cat_a]),
                    );
                lemma_clean_structure(a.objects[i].1, m_a, seq![cat_a]);
                if is_pages_root_v(a.objects[i].1) {
                    assert(a.objects[i].0 == root_a);
                    let img = lemma_image_of(a.objects, m_a, 0u32, root_a);
                    let w = id_index(a.objects, root_a);
                    assert(a.objects[w].0 == root_a && a.objects[i].0 == root_a);
                    if w != i {
                        assert(false);
                    }
                    assert(objs2[k].0 == nr_a);
                    assert(kids2[0] == nr_a);
                    assert(contains_id(kids2, objs2[k].0));
                }
            } else {
                assert(objs2[k] == copied_b[k - objs1.len()]);
                let i = choose|i: int|
                    0 <= i < n_b && !contains_id(seq![cat_b], b.objects[i].0)
                        && #[trigger] copied_b[k - objs1.len()] == (
                    (ObjId { num: (n_a + i + 1) as u32, gen: 0u16 }),
                    crate::remap::clean_v(b.objects[i].1, m_b, seq![cat_b]),
                    );
                lemma_clean_structure(b.objects[i].1, m_b, seq![cat_b]);
                if is_pages_root_v(b.objects[i].1) {
                    assert(b.objects[i].0 == root_b);
                    let img = lemma_image_of(b.objects, m_b, n_a as u32, root_b);
                    let w = id_index(b.objects, root_b);
                    assert(b.objects[w].0 == root_b && b.objects[i].0 == root_b);
                    if w != i {
                        assert(false);
                    }
                    assert(objs2[k].0 == nr_b);
                    assert(kids2[1] == nr_b);
                    assert(contains_id(kids2, objs2[k].0));
                }
            }
        }
        assert(!is_catalog_v(base_val)) by {
            if k < objs1.len() {
                assert(objs2[k] == copied_a[k]);
                let i = choose|i: int|
                    0 <= i < n_a && !contains_id(seq![cat_a], a.objects[i].0)
                        && #[trigger] copied_a[k] == (
                    (ObjId { num: (0 + i + 1) as u32, gen: 0u16 }),
                    crate::remap::clean_v(a.objects[i].1, m_a, seq![cat_a]),
                    );
                lemma_clean_structure(a.objects[i].1, m_a, seq![cat_a]);
                if is_catalog_v(a.objects[i].1) {
                    assert(a.objects[i].0 == cat_a);
                    assert(seq![cat_a][0] == cat_a);
                    assert(contains_id(seq![cat_a], a.objects[i].0));
                }
            } else {
                assert(objs2[k] == copied_b[k - objs1.len()]);
                let i = choose|i: int|
                    0 <= i < n_b && !contains_id(seq![cat_b], b.objects[i].0)
                        && #[trigger] copied_b[k - objs1.len()] == (
                    (ObjId { num: (n_a + i + 1) as u32, gen: 0u16 }),
                    crate::remap::clean_v(b.objects[i].1, m_b, seq![cat_b]),
                    );
                lemma_clean_structure(b.objects[i].1, m_b, seq![cat_b]);
                if is_catalog_v(b.objects[i].1) {
                    assert(b.objects[i].0 == cat_b);
                    assert(seq![cat_b][0] == cat_b);
                    assert(contains_id(seq![cat_b], b.objects[i].0));
                }
            }
        }
        if contains_id(kids2, objs2[k].0) {
            assert(parented[k].1 == set_parent_obj_v(base_val, pages_id));
            lemma_set_entry_structure(base_val, key_parent(), ObjV::Reference(pages_id));
            match base_val {
                ObjV::Dictionary(d) => {
                    lemma_dict_set_lookup(
                        d,
                        key_parent(),
                        ObjV::Reference(pages_id),
                        key_parent(),
                    );
                },
                _ => {
                },
            }
        } else {
            assert(parented[k].1 == base_val);
        }
    }
    lemma_node_props(kids2, crate::merge::merge_acc(seq![a, b], 2).3, pages_id);
    lemma_find_in_built(parented, pages_id, node, catalog_id, catalog_v(pages_id));
}

/// The copier's rewrite keeps keys in place and cleans each bound value.
pub proof fn lemma_clean_lookup(
    d: Seq<(Seq<u8>, ObjV)>,
    m: Seq<(ObjId, ObjId)>,
    excl: Seq<ObjId>,
    k: Seq<u8>,
)
    ensures
        dict_lookup(crate::remap::clean_entries(d, m, excl), k) == (match dict_lookup(d, k) {
            Some(v) => Some(crate::remap::clean_v(v, m, excl)),
            None => None,
        }),
    decreases d.len(),
{
    crate::remap::lemma_clean_entries(d, m, excl);
    if d.len() > 0 {
        let tail = d.subrange(1, d.len() as int);
        lemma_clean_lookup(tail, m, excl, k);
        let r = crate::remap::clean_entries(d, m, excl);
        assert(r[0] == (d[0].0, crate::remap::clean_v(d[0].1, m, excl)));
        assert(r.subrange(1, r.len() as int) =~= crate::remap::clean_entries(tail, m, excl)) by {
            crate::remap::lemma_clean_entries(tail, m, excl);
        }
    }
}

/// The structural reads the locator makes see through the copier's rewrite:
/// names and integers ride across, and a nulled reference reads as no value,
/// exactly as a missing one would.
pub proof fn lemma_clean_structure(o: ObjV, m: Seq<(ObjId, ObjId)>, excl: Seq<ObjId>)
    ensures
        is_page_v(crate::remap::clean_v(o, m, excl)) == is_page_v(o),
        is_pages_v(crate::remap::clean_v(o, m, excl)) == is_pages_v(o),
        is_catalog_v(crate::remap::clean_v(o, m, excl)) == is_catalog_v(o),
        is_pages_root_v(crate::remap::clean_v(o, m, excl)) == is_pages_root_v(o),
        count_of(crate::remap::clean_v(o, m, excl)) == count_of(o),
{
    match o {
        ObjV::Dictionary(d) => {
            lemma_clean_lookup(d, m, excl, key_type());
            lemma_clean_lookup(d, m, excl, key_parent());
            lemma_clean_lookup(d, m, excl, key_count());
        },
        _ => {
        },
    }
}

/// The copier's rewrite looks, to the walk, like the renaming by the table,
/// for an object whose kid references all point at kept identifiers.
pub proof fn lemma_clean_walk_like(
    o: ObjV,
    m: Seq<(ObjId, ObjId)>,
    excl: Seq<ObjId>,
    kept: Set<ObjId>,
)
    requires
        refs_within_seq(kids_of(o), kept),
        forall|x: ObjId|
            #[trigger] kept.contains(x) ==> crate::remap::map_has(m, x) && !contains_id(excl, x),
    ensures
        is_page_v(crate::remap::clean_v(o, m, excl)) == is_page_v(o),
        is_pages_v(crate::remap::clean_v(o, m, excl)) == is_pages_v(o),
        kids_of(crate::remap::clean_v(o, m, excl)).len() == kids_of(o).len(),
        forall|i: int|
            0 <= i < kids_of(o).len() ==> (match #[trigger] kids_of(o)[i] {
                ObjV::Reference(x) => kids_of(crate::remap::clean_v(o, m, excl))[i]
                    == ObjV::Reference(crate::remap::apply_map(m, x)),
                _ => !(#[trigger] kids_of(crate::remap::clean_v(o, m, excl))[i] is Reference),
            }),
{
    lemma_clean_structure(o, m, excl);
    let c = crate::remap::clean_v(o, m, excl);
    assert(kids_of(c) == crate::remap::clean_vs(kids_of(o), m, excl)) by {
        match o {
            ObjV::Dictionary(d) => {
                lemma_clean_lookup(d, m, excl, key_kids());
                match dict_lookup(d, key_kids()) {
                    Some(kv) => {
                        match kv {
                            ObjV::Array(_) => {
                            },
                            _ => {
                                assert(crate::remap::clean_vs(Seq::<ObjV>::empty(), m, excl)
                                    =~= Seq::<ObjV>::empty());
                            },
                        }
                    },
                    None => {
                        assert(crate::remap::clean_vs(Seq::<ObjV>::empty(), m, excl) =~= Seq::<
                            ObjV,
                        >::empty());
                    },
                }
            },
            _ => {
                assert(crate::remap::clean_vs(Seq::<ObjV>::empty(), m, excl) =~= Seq::<
                    ObjV,
                >::empty());
            },
        }
    }
    crate::remap::lemma_clean_vs(kids_of(o), m, excl);
    lemma_refs_within_seq_index(kids_of(o), kept);
    assert forall|i: int| 0 <= i < kids_of(o).len() implies (match #[trigger] kids_of(o)[i] {
        ObjV::Reference(x) => kids_of(c)[i] == ObjV::Reference(crate::remap::apply_map(m, x)),
        _ => !(#[trigger] kids_of(c)[i] is Reference),
    }) by {
        assert(kids_of(c)[i] == crate::remap::clean_v(kids_of(o)[i], m, excl));
        match kids_of(o)[i] {
            ObjV::Reference(x) => {
                assert(refs_within(kids_of(o)[i], kept));
                assert(kept.contains(x));
            },
            _ => {
            },
        }
    }
}

/// Every reference a cleaned object still carries points at the image of a
/// kept identifier: with the images all bound, nothing dangles — no demand
/// on the source at all.
pub proof fn lemma_clean_refs(o: ObjV, m: Seq<(ObjId, ObjId)>, excl: Seq<ObjId>, ok2: Set<ObjId>)
    requires
        forall|x: ObjId|
            crate::remap::map_has(m, x) && !contains_id(excl, x) ==> ok2.contains(
                #[trigger] crate::remap::apply_map(m, x),
            ),
    ensures
        refs_within(crate::remap::clean_v(o, m, excl), ok2),
    decreases o, 1nat,
{
    match o {
        ObjV::Array(s) => {
            lemma_clean_refs_seq(s, m, excl, ok2);
        },
        ObjV::Dictionary(d) => {
            lemma_clean_refs_entries(d, m, excl, ok2);
        },
        ObjV::Stream(d, _) => {
            lemma_clean_refs_entries(d, m, excl, ok2);
        },
        _ => {
        },
    }
}

pub proof fn lemma_clean_refs_seq(
    s: Seq<ObjV>,
    m: Seq<(ObjId, ObjId)>,
    excl: Seq<ObjId>,
    ok2: Set<ObjId>,
)
    requires
        forall|x: ObjId|
            crate::remap::map_has(m, x) && !contains_id(excl, x) ==> ok2.contains(
                #[trigger] crate::remap::apply_map(m, x),
            ),
    ensures
        refs_within_seq(crate::remap::clean_vs(s, m, excl), ok2),
    decreases s, 2nat,
{
    crate::remap::lemma_clean_vs(s, m, excl);
    if s.len() > 0 {
        let head = s.subrange(0, s.len() - 1);
        lemma_clean_refs_seq(head, m, excl, ok2);
        lemma_clean_refs(s[s.len() - 1], m, excl, ok2);
        let r = crate::remap::clean_vs(s, m, excl);
        assert(r.subrange(0, r.len() - 1) =~= crate::remap::clean_vs(head, m, excl));
        assert(r[r.len() - 1] == crate::remap::clean_v(s[s.len() - 1], m, excl));
    } else {
        assert(crate::remap::clean_vs(s, m, excl).len() == 0);
    }
}

pub proof fn lemma_clean_refs_entries(
    d: Seq<(Seq<u8>, ObjV)>,
    m: Seq<(ObjId, ObjId)>,
    excl: Seq<ObjId>,
    ok2: Set<ObjId>,
)
    requires
        forall|x: ObjId|
            crate::remap::map_has(m, x) && !contains_id(excl, x) ==> ok2.contains(
                #[trigger] crate::remap::apply_map(m, x),
            ),
    ensures
        refs_within_entries(crate::remap::clean_entries(d, m, excl), ok2),
    decreases d, 2nat,
{
    crate::remap::lemma_clean_entries(d, m, excl);
    if d.len() > 0 {
        let head = d.subrange(0, d.len() - 1);
        lemma_clean_refs_entries(head, m, excl, ok2);
        lemma_clean_refs(d[d.len() - 1].1, m, excl, ok2);
        let r = crate::remap::clean_entries(d, m, excl);
        assert(r.subrange(0, r.len() - 1) =~= crate::remap::clean_entries(head, m, excl));
        assert(r[r.len() - 1].1 == crate::remap::clean_v(d[d.len() - 1].1, m, excl));
    } else {
        assert(crate::remap::clean_entries(d, m, excl).len() == 0);
    }
}

/// Binding one entry of a dictionary whose values' references lie in `ok`,
/// to a value whose references lie in `ok`, keeps every reference in `ok`.
pub proof fn lemma_refs_after_set(
    d: Seq<(Seq<u8>, ObjV)>,
    k: Seq<u8>,
    v: ObjV,
    ok: Set<ObjId>,
)
    requires
        refs_within_entries(d, ok),
        refs_within(v, ok),
    ensures
        refs_within_entries(dict_set(d, k, v), ok),
{
    crate::object::lemma_dict_set_frame(d, k, v);
    lemma_refs_entries_index(d, ok);
    let out = dict_set(d, k, v);
    assert forall|j: int| 0 <= j < out.len() implies refs_within((#[trigger] out[j]).1, ok) by {
        if dict_lookup(d, k) is Some {
            let i = choose|i: int|
                0 <= i < d.len() && d[i].0 == k && dict_set(d, k, v) =~= d.update(i, (k, v));
            if j == i {
            } else {
                assert(out[j] == d[j]);
            }
        } else {
            if j < d.len() {
                assert(out[j] == d[j]);
            } else {
                assert(out[j] == (k, v));
            }
        }
    }
    lemma_refs_entries_from_index(out, ok);
}

/// The indexwise reading of `refs_within_entries`.
proof fn lemma_refs_entries_index(d: Seq<(Seq<u8>, ObjV)>, ok: Set<ObjId>)
    requires
        refs_within_entries(d, ok),
    ensures
        forall|j: int| 0 <= j < d.len() ==> refs_within((#[trigger] d[j]).1, ok),
    decreases d.len(),
{
    if d.len() > 0 {
        let head = d.subrange(0, d.len() - 1);
        lemma_refs_entries_index(head, ok);
        assert forall|j: int| 0 <= j < d.len() implies refs_within((#[trigger] d[j]).1, ok) by {
            if j < d.len() - 1 {
                assert(head[j] == d[j]);
            }
        }
    }
}

/// Two cleanings with different exclusions agree on an object whose
/// references all point at identifiers kept by both.
pub proof fn lemma_clean_agree(
    o: ObjV,
    m: Seq<(ObjId, ObjId)>,
    ea: Seq<ObjId>,
    eb: Seq<ObjId>,
    ok: Set<ObjId>,
)
    requires
        refs_within(o, ok),
        forall|x: ObjId|
            #[trigger] ok.contains(x) ==> crate::remap::map_has(m, x) && !contains_id(ea, x)
                && !contains_id(eb, x),
    ensures
        crate::remap::clean_v(o, m, ea) == crate::remap::clean_v(o, m, eb),
    decreases o, 1nat,
{
    match o {
        ObjV::Array(s) => {
            lemma_clean_agree_seq(s, m, ea, eb, ok);
        },
        ObjV::Dictionary(d) => {
            lemma_clean_agree_entries(d, m, ea, eb, ok);
        },
        ObjV::Stream(d, _) => {
            lemma_clean_agree_entries(d, m, ea, eb, ok);
        },
        _ => {
        },
    }
}

proof fn lemma_clean_agree_seq(
    s: Seq<ObjV>,
    m: Seq<(ObjId, ObjId)>,
    ea: Seq<ObjId>,
    eb: Seq<ObjId>,
    ok: Set<ObjId>,
)
    requires
        refs_within_seq(s, ok),
        forall|x: ObjId|
            #[trigger] ok.contains(x) ==> crate::remap::map_has(m, x) && !contains_id(ea, x)
                && !contains_id(eb, x),
    ensures
        crate::remap::clean_vs(s, m, ea) == crate::remap::clean_vs(s, m, eb),
    decreases s, 2nat,
{
    if s.len() > 0 {
        let head = s.subrange(0, s.len() - 1);
        lemma_clean_agree_seq(head, m, ea, eb, ok);
        lemma_clean_agree(s[s.len() - 1], m, ea, eb, ok);
    }
}

proof fn lemma_clean_agree_entries(
    d: Seq<(Seq<u8>, ObjV)>,
    m: Seq<(ObjId, ObjId)>,
    ea: Seq<ObjId>,
    eb: Seq<ObjId>,
    ok: Set<ObjId>,
)
    requires
        refs_within_entries(d, ok),
        forall|x: ObjId|
            #[trigger] ok.contains(x) ==> crate::remap::map_has(m, x) && !contains_id(ea, x)
                && !contains_id(eb, x),
    ensures
        crate::remap::clean_entries(d, m, ea) == crate::remap::clean_entries(d, m, eb),
    decreases d, 2nat,
{
    if d.len() > 0 {
        let head = d.subrange(0, d.len() - 1);
        lemma_clean_agree_entries(head, m, ea, eb, ok);
        lemma_clean_agree(d[d.len() - 1].1, m, ea, eb, ok);
    }
}

} // verus!
