use vstd::prelude::*;

use crate::builder::agrees;
use crate::builder::assemble;
use crate::builder::copied_objs;
use crate::builder::copy_objects;
use crate::builder::insert_catalog;
use crate::builder::insert_pages_node;
use crate::builder::lemma_copied_facts;
use crate::builder::mapping_from;
use crate::builder::set_parent;
use crate::builder::write_trailer;
use crate::codec::encode_store;
use crate::codec::encoded;
use crate::error::ErrV;
use crate::error::PdfError;
use crate::locate::count_of;
use crate::locate::find_catalog;
use crate::locate::find_catalog_v;
use crate::locate::find_pages_root;
use crate::locate::find_pages_root_v;
use crate::object::Obj;
use crate::object::ObjId;
use crate::object::ObjV;
use crate::remap::apply_map;
use crate::store::Store;
use crate::store::StoreV;
use crate::store::distinct_ids;
use crate::store::store_lookup;

verus! {

/// The views of a list of stores, in order.
pub open spec fn stores_v(s: Seq<Store>) -> Seq<StoreV> {
    Seq::new(s.len(), |i: int| s[i]@)
}

/// How many objects the first `k` sources hold together.
pub open spec fn lens_sum(sources: Seq<StoreV>, k: int) -> int
    decreases k,
{
    if k <= 0 {
        0
    } else {
        lens_sum(sources, k - 1) + sources[k - 1].objects.len()
    }
}

pub proof fn lemma_lens_sum_mono(sources: Seq<StoreV>, k: int, n: int)
    requires
        0 <= k <= n,
    ensures
        lens_sum(sources, k) <= lens_sum(sources, n),
        0 <= lens_sum(sources, k),
    decreases n,
{
    if n > 0 {
        if k <= n - 1 {
            lemma_lens_sum_mono(sources, k, n - 1);
        } else {
            lemma_lens_sum_mono(sources, n - 1, n - 1);
        }
    }
}

/// A running page total with the next subtree's trusted `Count` added; an
/// impossible overflow pins at the top rather than wrapping.
pub open spec fn count_add(a: i64, b: i64) -> i64 {
    if i64::MIN <= a + b <= i64::MAX {
        (a + b) as i64
    } else {
        i64::MAX
    }
}

fn count_add_exec(a: i64, b: i64) -> (r: i64)
    ensures
        r == count_add(a, b),
{
    match a.checked_add(b) {
        Some(t) => t,
        None => i64::MAX,
    }
}

/// The accumulation over the first `k` sources: every object of each source
/// but its discarded catalog is copied into one shared destination, the
/// identifiers accumulating across sources; each discovered pages root joins
/// the kid list, its `Count` taken on trust from the copied node; a source
/// with no discoverable root contributes zero pages silently. The result is
/// the accumulated objects, the counter, the sub-roots, and the page total.
pub open spec fn merge_acc(sources: Seq<StoreV>, k: int) -> (
    Seq<(ObjId, ObjV)>,
    u32,
    Seq<ObjId>,
    i64,
)
    decreases k,
{
    if k <= 0 {
        (Seq::empty(), 0u32, Seq::empty(), 0i64)
    } else {
        let (objs, maxid, kids, tot) = merge_acc(sources, k - 1);
        let src = sources[k - 1];
        let cat = find_catalog_v(src.objects)->Some_0;
        let m = mapping_from(src.objects, maxid);
        let objs2 = objs + copied_objs(src.objects, m, seq![cat]);
        let maxid2 = (maxid + src.objects.len()) as u32;
        match find_pages_root_v(src.objects) {
            Some(root) => {
                let nr = apply_map(m, root);
                let c = match store_lookup(objs2, nr) {
                    Some(o) => match count_of(o) {
                        Some(c) => c,
                        None => 0,
                    },
                    None => 0,
                };
                (objs2, maxid2, kids.push(nr), count_add(tot, c))
            },
            None => (objs2, maxid2, kids, tot),
        }
    }
}

/// What merging returns: the sources' objects accumulated in order under one
/// fresh root whose kids are their own roots, in source order. A source with
/// no catalog is malformed and refused.
pub open spec fn merge_spec(sources: Seq<StoreV>) -> Result<StoreV, ErrV> {
    if exists|k: int|
        0 <= k < sources.len() && find_catalog_v(#[trigger] sources[k].objects) is None {
        Err(ErrV::Codec)
    } else {
        let (objs, maxid, kids, tot) = merge_acc(sources, sources.len() as int);
        Ok(
            assemble(
                StoreV { objects: objs, max_id: maxid, trailer: Seq::empty() },
                kids,
                tot,
            ),
        )
    }
}

/// Merges the documents into one store, as `merge_spec` names it.
#[verifier::rlimit(100)]
pub fn merge_stores(documents: &Vec<Store>) -> (r: Result<Store, PdfError>)
    requires
        forall|i: int| 0 <= i < documents@.len() ==> (#[trigger] documents@[i])@.wf(),
        lens_sum(stores_v(documents@), documents@.len() as int) + 4 <= u32::MAX,
    ensures
        agrees(r, merge_spec(stores_v(documents@))),
        r matches Ok(o) ==> o@.max_id as int == lens_sum(
            stores_v(documents@),
            documents@.len() as int,
        ) + 2,
{
    let ghost srcv = stores_v(documents@);
    let n = documents.len();
    let mut merged = Store::new_store();
    let mut kids: Vec<ObjId> = Vec::new();
    let mut total: i64 = 0;
    let mut i: usize = 0;
    while i < n
        invariant
            i <= n,
            n == documents.len(),
            forall|k: int| 0 <= k < i ==> find_catalog_v(#[trigger] srcv[k].objects) is Some,
            (merged@.objects, merged@.max_id, kids@, total) == merge_acc(srcv, i as int),
            merged@.max_id == lens_sum(srcv, i as int),
            merged@.trailer == Seq::<(Seq<u8>, ObjV)>::empty(),
            distinct_ids(merged@.objects),
            forall|k: int|
                0 <= k < merged@.objects.len() ==> 1 <= (#[trigger] merged@.objects[k]).0.num
                    <= merged@.max_id,
        decreases n - i,
    {
        let src = &documents[i];
        proof {
            assert(srcv[i as int] == src@);
        }
        let cat = match find_catalog(src) {
            Some(c) => c,
            None => {
                assert(find_catalog_v(srcv[i as int].objects) is None);
                return Err(PdfError::Codec);
            },
        };
        proof {
            lemma_lens_sum_mono(srcv, i as int + 1, n as int);
            assert(lens_sum(srcv, i as int + 1) == lens_sum(srcv, i as int)
                + srcv[i as int].objects.len());
        }
        let mut excl: Vec<ObjId> = Vec::new();
        excl.push(cat);
        proof {
            assert(excl@ =~= seq![cat]);
        }
        let ghost base = merged@.max_id;
        let ghost objs0 = merged@.objects;
        let map = copy_objects(src, &mut merged, &excl);
        proof {
            assert(map.entries@ =~= mapping_from(src@.objects, base));
            lemma_copied_facts(src@.objects, map.entries@, excl@, base, src@.objects.len() as int);
            assert(src@.objects.subrange(0, src@.objects.len() as int) =~= src@.objects);
            let chunk = copied_objs(src@.objects, map.entries@, excl@);
            assert forall|a: int, b: int|
                0 <= a < b < merged@.objects.len() implies merged@.objects[a].0
                != merged@.objects[b].0 by {
                if a < objs0.len() && b >= objs0.len() {
                    assert(merged@.objects[a] == objs0[a]);
                    assert(merged@.objects[b] == chunk[b - objs0.len()]);
                    assert(objs0[a].0.num <= base);
                    assert(chunk[b - objs0.len()].0.num >= base + 1);
                } else if b < objs0.len() {
                    assert(merged@.objects[a] == objs0[a]);
                    assert(merged@.objects[b] == objs0[b]);
                } else {
                    assert(merged@.objects[a] == chunk[a - objs0.len()]);
                    assert(merged@.objects[b] == chunk[b - objs0.len()]);
                }
            }
        }
        match find_pages_root(src) {
            Some(root) => {
                let nr = map.apply(root);
                let c = match merged.get(nr) {
                    Some(o) => {
                        match o {
                            Obj::Dictionary(d) => {
                                let kc = crate::names::k_count();
                                match d.get(kc.as_slice()) {
                                    Some(v) => match v {
                                        Obj::Integer(cc) => *cc,
                                        _ => 0i64,
                                    },
                                    None => 0i64,
                                }
                            },
                            _ => 0i64,
                        }
                    },
                    None => 0i64,
                };
                kids.push(nr);
                total = count_add_exec(total, c);
            },
            None => {
            },
        }
        proof {
            assert((merged@.objects, merged@.max_id, kids@, total) == merge_acc(
                srcv,
                i as int + 1,
            ));
        }
        i = i + 1;
    }
    proof {
        if exists|k: int| 0 <= k < srcv.len() && find_catalog_v(#[trigger] srcv[k].objects)
            is None {
            let k = choose|k: int|
                0 <= k < srcv.len() && find_catalog_v(#[trigger] srcv[k].objects) is None;
            assert(false);
        }
    }
    let count = total;
    let pages_id = ObjId { num: merged.max_id + 1, gen: 0 };
    set_parent(&mut merged, &kids, pages_id);
    let pid = insert_pages_node(&mut merged, &kids, count);
    assert(pid == pages_id);
    let cid = insert_catalog(&mut merged, pid);
    write_trailer(&mut merged, cid);
    proof {
        let (objs, maxid, kidsv, tot) = merge_acc(srcv, srcv.len() as int);
        assert(merged@ =~= assemble(
            StoreV { objects: objs, max_id: maxid, trailer: Seq::empty() },
            kidsv,
            tot,
        ));
    }
    Ok(merged)
}

/// Merges the documents, in request order, and encodes the result; the page
/// order of the output is the concatenation of the sources' own page orders.
pub fn merge_documents(documents: Vec<Store>) -> (r: Result<Vec<u8>, PdfError>)
    requires
        forall|i: int| 0 <= i < documents@.len() ==> (#[trigger] documents@[i])@.wf(),
    ensures
        lens_sum(stores_v(documents@), documents@.len() as int) + 4 > u32::MAX ==> (r matches Err(
            e,
        ) && e@ == ErrV::Io),
        lens_sum(stores_v(documents@), documents@.len() as int) + 4 <= u32::MAX ==> (match merge_spec(
            stores_v(documents@),
        ) {
            Ok(st) => ((encoded(st) is Some ==> (r matches Ok(rb) && rb@ == encoded(st)->Some_0))
                && (encoded(st) is None ==> (r matches Err(e) && e@ == ErrV::Io))),
            Err(ev) => (r matches Err(e) && e@ == ev),
        }),
{
    let ghost srcv = stores_v(documents@);
    let n = documents.len();
    let cap: u64 = (u32::MAX - 4) as u64;
    let mut sum: u64 = 0;
    let mut too_big = false;
    let mut i: usize = 0;
    while i < n
        invariant
            i <= n,
            n == documents.len(),
            !too_big ==> sum == lens_sum(srcv, i as int) && sum <= (u32::MAX - 4) as u64,
            too_big ==> lens_sum(srcv, i as int) > (u32::MAX - 4) as int,
        decreases n - i,
    {
        proof {
            assert(srcv[i as int] == documents@[i as int]@);
            crate::store::lemma_pairs_v(documents@[i as int].objects@);
        }
        let len = documents[i].objects.len() as u64;
        if !too_big {
            if len > cap {
                too_big = true;
            } else if sum + len > cap {
                too_big = true;
            } else {
                sum = sum + len;
            }
        }
        i = i + 1;
    }
    if too_big {
        return Err(PdfError::Io(crate::codec::resource_error()));
    }
    let out = match merge_stores(&documents) {
        Ok(o) => o,
        Err(e) => {
            return Err(e);
        },
    };
    match encode_store(&out) {
        Ok(b) => Ok(b),
        Err(e) => Err(PdfError::Io(e)),
    }
}

} // verus!