use vstd::prelude::*;

use crate::builder::agrees;
use crate::builder::copy_objects;
use crate::builder::flatten_store;
use crate::builder::insert_catalog;
use crate::builder::insert_pages_node;
use crate::builder::mapping_from;
use crate::builder::renumberable;
use crate::builder::set_parent;
use crate::builder::write_trailer;
use crate::codec::decode_store;
use crate::codec::decoded;
use crate::codec::encode_store;
use crate::codec::encoded;
use crate::delete::contains_u32;
use crate::delete::contains_u32_exec;
use crate::error::ErrV;
use crate::error::PdfError;
use crate::extract::check_renumberable;
use crate::locate::find_catalog;
use crate::locate::find_catalog_v;
use crate::locate::find_pages_root;
use crate::locate::find_pages_root_v;
use crate::locate::enumerate_pages;
use crate::locate::pages_of;
use crate::object::ObjId;
use crate::remap::apply_map;
use crate::store::Store;
use crate::store::StoreV;

verus! {

/// The first violation in a would-be permutation, scanning from position `i`:
/// a number outside `1..=total`, or one already seen to its left.
pub open spec fn first_order_fault(order: Seq<u32>, total: nat, i: int) -> Option<ErrV>
    decreases order.len() - i,
{
    if i < 0 || i >= order.len() {
        None
    } else if order[i] < 1 || order[i] > total {
        Some(ErrV::PageOutOfRange { page: order[i], total: total as u32 })
    } else if contains_u32(order.subrange(0, i), order[i]) {
        Some(ErrV::DuplicatePage(order[i]))
    } else {
        first_order_fault(order, total, i + 1)
    }
}

/// What reordering returns: the same pages under a new numbering. The order
/// must name every page exactly once; a wrong length, an out-of-range number
/// and a repeat are each refused, the length first, then the first offender.
pub open spec fn reorder_spec(src: StoreV, order: Seq<u32>) -> Result<StoreV, ErrV> {
    if find_catalog_v(src.objects) is None || find_pages_root_v(src.objects) is None {
        Err(ErrV::Codec)
    } else {
        let cat = find_catalog_v(src.objects)->Some_0;
        let root = find_pages_root_v(src.objects)->Some_0;
        let pages = pages_of(src);
        let total = pages.len();
        if order.len() != total {
            Err(ErrV::WrongPageCount { expected: total as usize, got: order.len() as usize })
        } else {
            match first_order_fault(order, total, 0) {
                Some(ev) => Err(ev),
                None => {
                    let m = mapping_from(src.objects, 0);
                    let kept = Seq::new(
                        order.len(),
                        |i: int| apply_map(m, pages[order[i] - 1]),
                    );
                    Ok(flatten_store(src, seq![cat, root], kept, total as i64))
                },
            }
        }
    }
}

/// Rebuilds the store with its pages renumbered, as `reorder_spec` names it.
pub fn reorder_store(src: &Store, order: &[u32]) -> (r: Result<Store, PdfError>)
    requires
        src@.wf(),
        renumberable(src@),
    ensures
        agrees(r, reorder_spec(src@, order@)),
{
    let cat = match find_catalog(src) {
        Some(c) => c,
        None => {
            return Err(PdfError::Codec);
        },
    };
    let root = match find_pages_root(src) {
        Some(c) => c,
        None => {
            return Err(PdfError::Codec);
        },
    };
    let pages = enumerate_pages(src, root);
    let ghost pagesv = pages_of(src@);
    proof {
        assert(pages@ == pagesv);
    }
    let total = pages.len();
    let ghost orderv = order@;
    let n = order.len();
    if n != total {
        return Err(PdfError::WrongPageCount { expected: total, got: n });
    }
    let mut i: usize = 0;
    while i < n
        invariant
            i <= n,
            n == order.len(),
            first_order_fault(orderv, total as nat, 0) == first_order_fault(
                orderv,
                total as nat,
                i as int,
            ),
            forall|j: int| 0 <= j < i ==> 1 <= #[trigger] orderv[j] <= total,
        decreases n - i,
    {
        let p = order[i];
        if p < 1 || p as usize > total {
            return Err(PdfError::PageOutOfRange { page: p, total: total as u32 });
        }
        let seen = contains_u32_exec(&order[0..i], p);
        proof {
            assert(order@.subrange(0, i as int) == orderv.subrange(0, i as int));
        }
        if seen {
            return Err(PdfError::DuplicatePage(p));
        }
        i = i + 1;
    }
    let mut out = Store::new_store();
    let mut excl: Vec<ObjId> = Vec::new();
    excl.push(cat);
    excl.push(root);
    proof {
        assert(excl@ =~= seq![cat, root]);
    }
    let map = copy_objects(src, &mut out, &excl);
    proof {
        assert(map.entries@ =~= mapping_from(src@.objects, 0));
    }
    let mut kept: Vec<ObjId> = Vec::new();
    let ghost keptv = Seq::new(orderv.len(), |i: int| apply_map(map.entries@, pagesv[orderv[i] - 1]));
    let mut i: usize = 0;
    while i < n
        invariant
            i <= n,
            n == order.len(),
            kept@.len() == i,
            forall|j: int| 0 <= j < i ==> kept@[j] == keptv[j],
            forall|j: int| 0 <= j < n ==> 1 <= #[trigger] orderv[j] <= total,
        decreases n - i,
    {
        let p = order[i];
        assert(1 <= p && p as usize <= total);
        let new_id = map.apply(pages[p as usize - 1]);
        kept.push(new_id);
        i = i + 1;
    }
    proof {
        assert(kept@ =~= keptv);
        let s = src@.objects;
        crate::builder::lemma_copied_facts(s, map.entries@, excl@, 0u32, s.len() as int);
        assert(s.subrange(0, s.len() as int) =~= s);
        assert(Seq::<(ObjId, crate::object::ObjV)>::empty() + crate::builder::copied_objs(
            s,
            map.entries@,
            excl@,
        ) =~= crate::builder::copied_objs(s, map.entries@, excl@));
        assert(crate::store::distinct_ids(out@.objects));
    }
    let count = total as i64;
    let pages_id = ObjId { num: out.max_id + 1, gen: 0 };
    set_parent(&mut out, &kept, pages_id);
    let pid = insert_pages_node(&mut out, &kept, count);
    assert(pid == pages_id);
    let cid = insert_catalog(&mut out, pid);
    write_trailer(&mut out, cid);
    proof {
        assert(out@ =~= flatten_store(src@, seq![cat, root], keptv, total as i64));
    }
    Ok(out)
}

/// Decodes, renumbers the pages, and encodes the result.
pub fn reorder_pages(data: &[u8], order: &[u32]) -> (r: Result<Vec<u8>, PdfError>)
    ensures
        decoded(data@) is None ==> (r matches Err(e) && e@ == ErrV::Lopdf),
        decoded(data@) is Some && renumberable(decoded(data@)->Some_0) ==> (match reorder_spec(
            decoded(data@)->Some_0,
            order@,
        ) {
            Ok(st) => ((encoded(st) is Some ==> (r matches Ok(rb) && rb@ == encoded(st)->Some_0))
                && (encoded(st) is None ==> (r matches Err(e) && e@ == ErrV::Io))),
            Err(ev) => (r matches Err(e) && e@ == ev),
        }),
        decoded(data@) is Some && !renumberable(decoded(data@)->Some_0) ==> (r matches Err(e)
            && e@ == ErrV::Io),
{
    let src = match decode_store(data) {
        Ok(s) => s,
        Err(e) => {
            return Err(PdfError::Lopdf(e));
        },
    };
    if !check_renumberable(&src) {
        return Err(PdfError::Io(crate::codec::resource_error()));
    }
    let out = match reorder_store(&src, order) {
        Ok(o) => o,
        Err(e) => {
            return Err(e);
        },
    };
    match encode_store(&out) {
        Ok(b) => Ok(b),
        Err(e) => Err(PdfError::Io(e)),
    }
}

} // verus!
