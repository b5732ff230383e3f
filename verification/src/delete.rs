use vstd::prelude::*;

use crate::builder::agrees;
use crate::builder::copy_objects;
use crate::builder::flatten_store;
use crate::builder::insert_catalog;
use crate::builder::insert_pages_node;
use crate::builder::mapping_from;
use crate::builder::renumberable;
use crate::builder::set_parent;
use crate::builder::write_trailer;
use crate::codec::decode_store;
use crate::codec::decoded;
use crate::codec::encode_store;
use crate::codec::encoded;
use crate::error::ErrV;
use crate::error::PdfError;
use crate::extract::check_renumberable;
use crate::extract::first_bad_page;
use crate::extract::lemma_first_bad_page_skip;
use crate::locate::find_catalog;
use crate::locate::find_catalog_v;
use crate::locate::find_pages_root;
use crate::locate::find_pages_root_v;
use crate::locate::enumerate_pages;
use crate::locate::pages_of;
use crate::object::ObjId;
use crate::remap::apply_map;
use crate::store::Store;
use crate::store::StoreV;

verus! {

pub open spec fn contains_u32(s: Seq<u32>, x: u32) -> bool {
    exists|i: int| 0 <= i < s.len() && s[i] == x
}

pub fn contains_u32_exec(s: &[u32], x: u32) -> (r: bool)
    ensures
        r == contains_u32(s@, x),
{
    let n = s.len();
    let mut i: usize = 0;
    while i < n
        invariant
            i <= n,
            forall|j: int| 0 <= j < i ==> s@[j] != x,
        decreases n - i,
    {
        if s[i] == x {
            assert(s@[i as int] == x);
            return true;
        }
        i = i + 1;
    }
    false
}

/// The identifiers, already remapped, of the first `j` pages that are kept:
/// pages whose number is not listed, in ascending original order.
pub open spec fn kept_new_ids(
    pages: Seq<ObjId>,
    nums: Seq<u32>,
    m: Seq<(ObjId, ObjId)>,
    j: nat,
) -> Seq<ObjId>
    decreases j,
{
    if j == 0 {
        Seq::empty()
    } else {
        kept_new_ids(pages, nums, m, (j - 1) as nat) + (if contains_u32(nums, j as u32) {
            Seq::empty()
        } else {
            seq![apply_map(m, pages[j - 1])]
        })
    }
}

/// The identifiers of the first `j` pages that are to be deleted: only the
/// page dictionaries themselves; their resources remain, unreferenced.
pub open spec fn deleted_ids(pages: Seq<ObjId>, nums: Seq<u32>, j: nat) -> Seq<ObjId>
    decreases j,
{
    if j == 0 {
        Seq::empty()
    } else {
        deleted_ids(pages, nums, (j - 1) as nat) + (if contains_u32(nums, j as u32) {
            seq![pages[j - 1]]
        } else {
            Seq::empty()
        })
    }
}

/// What deletion returns: the kept pages in ascending original order, the
/// deleted page objects excluded from the copy. Every listed number must be
/// in `1..=total`, and deleting every page is refused.
pub open spec fn delete_spec(src: StoreV, nums: Seq<u32>) -> Result<StoreV, ErrV> {
    if find_catalog_v(src.objects) is None || find_pages_root_v(src.objects) is None {
        Err(ErrV::Codec)
    } else {
        let cat = find_catalog_v(src.objects)->Some_0;
        let root = find_pages_root_v(src.objects)->Some_0;
        let pages = pages_of(src);
        let total = pages.len();
        match first_bad_page(nums, total) {
            Some(p) => Err(ErrV::PageOutOfRange { page: p, total: total as u32 }),
            None => {
                let m = mapping_from(src.objects, 0);
                let kept = kept_new_ids(pages, nums, m, total);
                if kept.len() == 0 {
                    Err(ErrV::WouldDeleteAll)
                } else {
                    let excl = seq![cat, root] + deleted_ids(pages, nums, total);
                    Ok(flatten_store(src, excl, kept, kept.len() as i64))
                }
            },
        }
    }
}

/// Rebuilds the store without the listed pages, as `delete_spec` names it.
pub fn delete_store(src: &Store, page_numbers: &[u32]) -> (r: Result<Store, PdfError>)
    requires
        src@.wf(),
        renumberable(src@),
    ensures
        agrees(r, delete_spec(src@, page_numbers@)),
{
    let cat = match find_catalog(src) {
        Some(c) => c,
        None => {
            return Err(PdfError::Codec);
        },
    };
    let root = match find_pages_root(src) {
        Some(c) => c,
        None => {
            return Err(PdfError::Codec);
        },
    };
    let pages = enumerate_pages(src, root);
    let ghost pagesv = pages_of(src@);
    proof {
        assert(pages@ == pagesv);
    }
    let total = pages.len();
    let ghost numsv = page_numbers@;
    let n = page_numbers.len();
    let mut i: usize = 0;
    proof {
        assert(numsv.subrange(0, n as int) =~= numsv);
    }
    while i < n
        invariant
            i <= n,
            first_bad_page(numsv, total as nat) == first_bad_page(
                numsv.subrange(i as int, n as int),
                total as nat,
            ),
        decreases n - i,
    {
        let p = page_numbers[i];
        if p < 1 || p as usize > total {
            assert(numsv.subrange(i as int, n as int)[0] == numsv[i as int]);
            return Err(PdfError::PageOutOfRange { page: p, total: total as u32 });
        }
        proof {
            lemma_first_bad_page_skip(numsv, i as int, total as nat);
        }
        i = i + 1;
    }
    proof {
        assert(numsv.subrange(n as int, n as int) =~= Seq::<u32>::empty());
        assert(first_bad_page(numsv, total as nat) is None);
    }
    let mut deleted: Vec<ObjId> = Vec::new();
    let mut k0: usize = 0;
    while k0 < total
        invariant
            k0 <= total,
            deleted@ == deleted_ids(pagesv, numsv, k0 as nat),
        decreases total - k0,
    {
        let ghost before = deleted@;
        if contains_u32_exec(page_numbers, (k0 + 1) as u32) {
            deleted.push(pages[k0]);
            proof {
                assert(deleted@ =~= before + seq![pagesv[k0 as int]]);
            }
        } else {
            proof {
                assert(before + Seq::<ObjId>::empty() =~= before);
            }
        }
        k0 = k0 + 1;
    }
    let mut out = Store::new_store();
    let mut excl: Vec<ObjId> = Vec::new();
    excl.push(cat);
    excl.push(root);
    let mut di: usize = 0;
    let dn = deleted.len();
    while di < dn
        invariant
            di <= dn,
            dn == deleted.len(),
            excl@ == seq![cat, root] + deleted@.subrange(0, di as int),
        decreases dn - di,
    {
        let ghost before = excl@;
        excl.push(deleted[di]);
        proof {
            assert(excl@ =~= seq![cat, root] + deleted@.subrange(0, di as int + 1));
        }
        di = di + 1;
    }
    proof {
        assert(deleted@.subrange(0, dn as int) =~= deleted@);
        assert(excl@ == seq![cat, root] + deleted_ids(pagesv, numsv, total as nat));
    }
    let map = copy_objects(src, &mut out, &excl);
    proof {
        assert(map.entries@ =~= mapping_from(src@.objects, 0));
    }
    let mut kept: Vec<ObjId> = Vec::new();
    let mut k0: usize = 0;
    while k0 < total
        invariant
            k0 <= total,
            kept@ == kept_new_ids(pagesv, numsv, map.entries@, k0 as nat),
        decreases total - k0,
    {
        let ghost before = kept@;
        if !contains_u32_exec(page_numbers, (k0 + 1) as u32) {
            let new_id = map.apply(pages[k0]);
            kept.push(new_id);
            proof {
                assert(kept@ =~= before + seq![apply_map(map.entries@, pagesv[k0 as int])]);
            }
        } else {
            proof {
                assert(before + Seq::<ObjId>::empty() =~= before);
            }
        }
        k0 = k0 + 1;
    }
    let ghost keptv = kept_new_ids(pagesv, numsv, map.entries@, total as nat);
    if kept.len() == 0 {
        return Err(PdfError::WouldDeleteAll);
    }
    proof {
        let s = src@.objects;
        crate::builder::lemma_copied_facts(s, map.entries@, excl@, 0u32, s.len() as int);
        assert(s.subrange(0, s.len() as int) =~= s);
        assert(Seq::<(ObjId, crate::object::ObjV)>::empty() + crate::builder::copied_objs(
            s,
            map.entries@,
            excl@,
        ) =~= crate::builder::copied_objs(s, map.entries@, excl@));
        assert(crate::store::distinct_ids(out@.objects));
    }
    let count = kept.len() as i64;
    let pages_id = ObjId { num: out.max_id + 1, gen: 0 };
    set_parent(&mut out, &kept, pages_id);
    let pid = insert_pages_node(&mut out, &kept, count);
    assert(pid == pages_id);
    let cid = insert_catalog(&mut out, pid);
    write_trailer(&mut out, cid);
    proof {
        assert(out@ =~= flatten_store(
            src@,
            seq![cat, root] + deleted_ids(pagesv, numsv, total as nat),
            keptv,
            keptv.len() as i64,
        ));
    }
    Ok(out)
}

/// Decodes, deletes the listed pages, and encodes the result.
pub fn delete_pages(data: &[u8], page_numbers: &[u32]) -> (r: Result<Vec<u8>, PdfError>)
    ensures
        decoded(data@) is None ==> (r matches Err(e) && e@ == ErrV::Lopdf),
        decoded(data@) is Some && renumberable(decoded(data@)->Some_0) ==> (match delete_spec(
            decoded(data@)->Some_0,
            page_numbers@,
        ) {
            Ok(st) => ((encoded(st) is Some ==> (r matches Ok(rb) && rb@ == encoded(st)->Some_0))
                && (encoded(st) is None ==> (r matches Err(e) && e@ == ErrV::Io))),
            Err(ev) => (r matches Err(e) && e@ == ev),
        }),
        decoded(data@) is Some && !renumberable(decoded(data@)->Some_0) ==> (r matches Err(e)
            && e@ == ErrV::Io),
{
    let src = match decode_store(data) {
        Ok(s) => s,
        Err(e) => {
            return Err(PdfError::Lopdf(e));
        },
    };
    if !check_renumberable(&src) {
        return Err(PdfError::Io(crate::codec::resource_error()));
    }
    let out = match delete_store(&src, page_numbers) {
        Ok(o) => o,
        Err(e) => {
            return Err(e);
        },
    };
    match encode_store(&out) {
        Ok(b) => Ok(b),
        Err(e) => Err(PdfError::Io(e)),
    }
}

} // verus!
