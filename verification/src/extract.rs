use vstd::prelude::*;

use crate::builder::agrees;
use crate::builder::copy_objects;
use crate::builder::flatten_store;
use crate::builder::insert_catalog;
use crate::builder::insert_pages_node;
use crate::builder::mapping_from;
use crate::builder::renumberable;
use crate::builder::set_parent;
use crate::builder::write_trailer;
use crate::codec::decode_store;
use crate::codec::decoded;
use crate::codec::encode_store;
use crate::codec::encoded;
use crate::error::ErrV;
use crate::error::PdfError;
use crate::locate::find_catalog;
use crate::locate::find_catalog_v;
use crate::locate::find_pages_root;
use crate::locate::find_pages_root_v;
use crate::locate::enumerate_pages;
use crate::locate::pages_of;
use crate::object::ObjId;
use crate::remap::apply_map;
use crate::store::Store;
use crate::store::StoreV;

verus! {

/// The first page number outside `1..=total`, scanning left to right.
pub open spec fn first_bad_page(nums: Seq<u32>, total: nat) -> Option<u32>
    decreases nums.len(),
{
    if nums.len() == 0 {
        None
    } else if nums[0] < 1 || nums[0] > total {
        Some(nums[0])
    } else {
        first_bad_page(nums.subrange(1, nums.len() as int), total)
    }
}

pub proof fn lemma_first_bad_page_skip(nums: Seq<u32>, i: int, total: nat)
    requires
        0 <= i < nums.len(),
        1 <= nums[i] <= total,
    ensures
        first_bad_page(nums.subrange(i, nums.len() as int), total) == first_bad_page(
            nums.subrange(i + 1, nums.len() as int),
            total,
        ),
{
    let t = nums.subrange(i, nums.len() as int);
    assert(t.subrange(1, t.len() as int) =~= nums.subrange(i + 1, nums.len() as int));
}

/// What extraction returns: the store is rebuilt around the requested pages,
/// in the requested order (the caller's order is kept, so extraction doubles
/// as a one-call reorder-and-subset). A store without catalog or page-tree
/// root is malformed; a number outside `1..=total` is the first error.
pub open spec fn extract_spec(src: StoreV, nums: Seq<u32>) -> Result<StoreV, ErrV> {
    if find_catalog_v(src.objects) is None || find_pages_root_v(src.objects) is None {
        Err(ErrV::Codec)
    } else {
        let cat = find_catalog_v(src.objects)->Some_0;
        let root = find_pages_root_v(src.objects)->Some_0;
        let pages = pages_of(src);
        let total = pages.len();
        match first_bad_page(nums, total) {
            Some(p) => Err(ErrV::PageOutOfRange { page: p, total: total as u32 }),
            None => {
                let m = mapping_from(src.objects, 0);
                let kept = Seq::new(
                    nums.len(),
                    |i: int| apply_map(m, pages[nums[i] - 1]),
                );
                Ok(flatten_store(src, seq![cat, root], kept, nums.len() as i64))
            },
        }
    }
}

/// Rebuilds the store around the requested pages, as `extract_spec` names it.
pub fn extract_store(src: &Store, page_numbers: &[u32]) -> (r: Result<Store, PdfError>)
    requires
        src@.wf(),
        renumberable(src@),
    ensures
        agrees(r, extract_spec(src@, page_numbers@)),
{
    let cat = match find_catalog(src) {
        Some(c) => c,
        None => {
            return Err(PdfError::Codec);
        },
    };
    let root = match find_pages_root(src) {
        Some(c) => c,
        None => {
            return Err(PdfError::Codec);
        },
    };
    let pages = enumerate_pages(src, root);
    let ghost pagesv = pages_of(src@);
    proof {
        assert(pages@ == pagesv);
    }
    let total = pages.len();
    let ghost numsv = page_numbers@;
    let n = page_numbers.len();
    let mut i: usize = 0;
    proof {
        assert(numsv.subrange(0, n as int) =~= numsv);
    }
    while i < n
        invariant
            i <= n,
            first_bad_page(numsv, total as nat) == first_bad_page(
                numsv.subrange(i as int, n as int),
                total as nat,
            ),
            forall|j: int| 0 <= j < i ==> 1 <= #[trigger] numsv[j] <= total,
        decreases n - i,
    {
        let p = page_numbers[i];
        if p < 1 || p as usize > total {
            assert(numsv.subrange(i as int, n as int)[0] == numsv[i as int]);
            return Err(PdfError::PageOutOfRange { page: p, total: total as u32 });
        }
        proof {
            lemma_first_bad_page_skip(numsv, i as int, total as nat);
        }
        i = i + 1;
    }
    proof {
        assert(numsv.subrange(n as int, n as int) =~= Seq::<u32>::empty());
        assert(first_bad_page(numsv, total as nat) is None);
    }
    let mut out = Store::new_store();
    let mut excl: Vec<ObjId> = Vec::new();
    excl.push(cat);
    excl.push(root);
    proof {
        assert(excl@ =~= seq![cat, root]);
    }
    let map = copy_objects(src, &mut out, &excl);
    proof {
        assert(map.entries@ =~= mapping_from(src@.objects, 0));
    }
    let mut kept: Vec<ObjId> = Vec::new();
    let ghost keptv = Seq::new(numsv.len(), |i: int| apply_map(map.entries@, pagesv[numsv[i] - 1]));
    let mut i: usize = 0;
    while i < n
        invariant
            i <= n,
            n == page_numbers.len(),
            kept@.len() == i,
            forall|j: int| 0 <= j < i ==> kept@[j] == keptv[j],
            forall|j: int| 0 <= j < n ==> 1 <= #[trigger] numsv[j] <= total,
        decreases n - i,
    {
        let p = page_numbers[i];
        assert(1 <= p && p as usize <= total);
        let new_id = map.apply(pages[p as usize - 1]);
        kept.push(new_id);
        i = i + 1;
    }
    proof {
        assert(kept@ =~= keptv);
        let s = src@.objects;
        crate::builder::lemma_copied_facts(s, map.entries@, excl@, 0u32, s.len() as int);
        assert(s.subrange(0, s.len() as int) =~= s);
        assert(Seq::<(ObjId, crate::object::ObjV)>::empty() + crate::builder::copied_objs(
            s,
            map.entries@,
            excl@,
        ) =~= crate::builder::copied_objs(s, map.entries@, excl@));
        assert(crate::store::distinct_ids(out@.objects));
    }
    let count = kept.len() as i64;
    let pages_id = ObjId { num: out.max_id + 1, gen: 0 };
    set_parent(&mut out, &kept, pages_id);
    let pid = insert_pages_node(&mut out, &kept, count);
    assert(pid == pages_id);
    let cid = insert_catalog(&mut out, pid);
    write_trailer(&mut out, cid);
    proof {
        assert(out@ =~= flatten_store(src@, seq![cat, root], keptv, numsv.len() as i64));
    }
    Ok(out)
}

/// Decodes, extracts the requested pages, and encodes the result.
pub fn extract_pages(data: &[u8], page_numbers: &[u32]) -> (r: Result<Vec<u8>, PdfError>)
    ensures
        decoded(data@) is None ==> (r matches Err(e) && e@ == ErrV::Lopdf),
        decoded(data@) is Some && renumberable(decoded(data@)->Some_0) ==> (match extract_spec(
            decoded(data@)->Some_0,
            page_numbers@,
        ) {
            Ok(st) => ((encoded(st) is Some ==> (r matches Ok(rb) && rb@ == encoded(st)->Some_0))
                && (encoded(st) is None ==> (r matches Err(e) && e@ == ErrV::Io))),
            Err(ev) => (r matches Err(e) && e@ == ev),
        }),
        decoded(data@) is Some && !renumberable(decoded(data@)->Some_0) ==> (r matches Err(e)
            && e@ == ErrV::Io),
{
    let src = match decode_store(data) {
        Ok(s) => s,
        Err(e) => {
            return Err(PdfError::Lopdf(e));
        },
    };
    if !check_renumberable(&src) {
        return Err(PdfError::Io(crate::codec::resource_error()));
    }
    let out = match extract_store(&src, page_numbers) {
        Ok(o) => o,
        Err(e) => {
            return Err(e);
        },
    };
    match encode_store(&out) {
        Ok(b) => Ok(b),
        Err(e) => Err(PdfError::Io(e)),
    }
}

/// Can this store be renumbered here (see `renumberable`)?
pub fn check_renumberable(s: &Store) -> (r: bool)
    ensures
        r == renumberable(s@),
{
    proof {
        crate::store::lemma_pairs_v(s.objects@);
    }
    let n = s.objects.len();
    n <= (u32::MAX as usize) - 4
}

/// What one piece contributes for this parser: as the general grammar, but a
/// range whose bounds do not read as numbers is `InvalidRange` here.
pub open spec fn piece_vx(part: Seq<char>) -> Result<Seq<u32>, ErrV> {
    if part.len() == 0 {
        Ok(Seq::empty())
    } else {
        let h = crate::string_util::first_idx(part, 0, '-');
        if h < part.len() {
            match crate::ranges::page_number_v(part.subrange(0, h)) {
                None => Err(ErrV::InvalidRange(part)),
                Some(a) => match crate::ranges::page_number_v(
                    part.subrange(h + 1, part.len() as int),
                ) {
                    None => Err(ErrV::InvalidRange(part)),
                    Some(b) => if a > b {
                        Err(ErrV::InvalidRange(part))
                    } else {
                        Ok(crate::ranges::range_seq(a, b))
                    },
                },
            }
        } else {
            match crate::ranges::page_number_v(part) {
                None => Err(ErrV::InvalidPageNumber(part)),
                Some(n) => Ok(seq![n]),
            }
        }
    }
}

/// Every piece of the input from position `p` on, for this parser.
pub open spec fn ranges_from_x(s: Seq<char>, p: int) -> Result<Seq<u32>, ErrV>
    decreases s.len() + 1 - p,
    via ranges_from_x_decreases
{
    if p > s.len() || p < 0 {
        Ok(Seq::empty())
    } else {
        let q = crate::string_util::first_idx(s, p, ',');
        let part = crate::string_util::trimmed(s.subrange(p, q));
        match piece_vx(part) {
            Err(e) => Err(e),
            Ok(head) => match ranges_from_x(s, q + 1) {
                Err(e) => Err(e),
                Ok(rest) => Ok(head + rest),
            },
        }
    }
}

#[via_fn]
proof fn ranges_from_x_decreases(s: Seq<char>, p: int) {
    if 0 <= p <= s.len() {
        crate::string_util::lemma_first_idx_bounds(s, p, ',');
    }
}

/// The whole grammar under this parser's error choices.
pub open spec fn page_ranges_vx(s: Seq<char>) -> Result<Seq<u32>, ErrV> {
    match ranges_from_x(s, 0) {
        Err(e) => Err(e),
        Ok(pages) => if pages.len() == 0 {
            Err(ErrV::NoPages)
        } else {
            Ok(crate::ranges::dedup_first(pages))
        },
    }
}

/// Parses a textual list of pages and ranges, as `page_ranges_vx` names it:
/// `1, 3, 5-7, 10` yields `[1, 3, 5, 6, 7, 10]`.
#[verifier::loop_isolation(true)]
pub fn parse_page_ranges(input: &str) -> (r: Result<Vec<u32>, PdfError>)
    ensures
        match page_ranges_vx(input@) {
            Ok(v) => r matches Ok(out) && out@ == v,
            Err(ev) => r matches Err(e) && e@ == ev,
        },
{
    let ghost sv = input@;
    let n = input.unicode_len();
    let mut pages: Vec<u32> = Vec::new();
    let mut p: usize = 0;
    loop
        invariant_except_break
            sv == input@,
            p <= n,
            n == sv.len(),
            ranges_from_x(sv, 0) == (match ranges_from_x(sv, p as int) {
                Err(e) => Err::<Seq<u32>, ErrV>(e),
                Ok(rest) => Ok(pages@ + rest),
            }),
        ensures
            ranges_from_x(sv, 0) == Ok::<Seq<u32>, ErrV>(pages@),
        decreases n - p,
    {
        let q = crate::string_util::find_char(input, p, ',');
        let piece = input.substring_char(p, q);
        let part = crate::string_util::trim_str(piece);
        let ghost partv = crate::string_util::trimmed(sv.subrange(p as int, q as int));
        let ghost pages0 = pages@;
        let ghost mut headv: Seq<u32> = Seq::empty();
        proof {
            assert(part@ == partv);
        }
        let m = part.unicode_len();
        if m > 0 {
            let h = crate::string_util::find_char(part, 0, '-');
            if h < m {
                let a_str = part.substring_char(0, h);
                let b_str = part.substring_char(h + 1, m);
                proof {
                    assert(a_str@ == partv.subrange(0, h as int));
                    assert(b_str@ == partv.subrange(h as int + 1, partv.len() as int));
                }
                let a = match crate::string_util::parse_u32_str(crate::string_util::trim_str(
                    a_str,
                )) {
                    Some(v) => v,
                    None => {
                        assert(piece_vx(partv) == Err::<Seq<u32>, ErrV>(
                            ErrV::InvalidRange(partv),
                        ));
                        return Err(PdfError::InvalidRange(part.to_owned()));
                    },
                };
                let b = match crate::string_util::parse_u32_str(crate::string_util::trim_str(
                    b_str,
                )) {
                    Some(v) => v,
                    None => {
                        assert(piece_vx(partv) == Err::<Seq<u32>, ErrV>(
                            ErrV::InvalidRange(partv),
                        ));
                        return Err(PdfError::InvalidRange(part.to_owned()));
                    },
                };
                if a > b {
                    assert(piece_vx(partv) == Err::<Seq<u32>, ErrV>(ErrV::InvalidRange(partv)));
                    return Err(PdfError::InvalidRange(part.to_owned()));
                }
                let ghost before = pages@;
                let mut w = a;
                while w < b
                    invariant
                        a <= w <= b,
                        pages@ == before + crate::ranges::range_seq(a, b).subrange(0, w - a),
                    decreases b - w,
                {
                    pages.push(w);
                    proof {
                        assert(pages@ =~= before + crate::ranges::range_seq(a, b).subrange(
                            0,
                            w - a + 1,
                        ));
                    }
                    w = w + 1;
                }
                pages.push(b);
                proof {
                    assert(crate::ranges::range_seq(a, b).subrange(0, (b - a + 1) as int)
                        =~= crate::ranges::range_seq(a, b));
                    assert(pages@ =~= before + crate::ranges::range_seq(a, b));
                    headv = crate::ranges::range_seq(a, b);
                    assert(piece_vx(partv) == Ok::<Seq<u32>, ErrV>(headv));
                }
            } else {
                let v = match crate::ranges::parse_page_number(part, part) {
                    Ok(v) => v,
                    Err(e) => {
                        assert(piece_vx(partv) == Err::<Seq<u32>, ErrV>(
                            ErrV::InvalidPageNumber(partv),
                        ));
                        return Err(e);
                    },
                };
                let ghost before = pages@;
                pages.push(v);
                proof {
                    assert(pages@ =~= before + seq![v]);
                    headv = seq![v];
                    assert(piece_vx(partv) == Ok::<Seq<u32>, ErrV>(headv));
                }
            }
        } else {
            proof {
                assert(pages@ + Seq::<u32>::empty() =~= pages@);
                assert(piece_vx(partv) == Ok::<Seq<u32>, ErrV>(headv));
            }
        }
        proof {
            assert(pages@ == pages0 + headv);
            assert(ranges_from_x(sv, p as int) == (match piece_vx(partv) {
                Err(e) => Err::<Seq<u32>, ErrV>(e),
                Ok(head) => match ranges_from_x(sv, q as int + 1) {
                    Err(e) => Err::<Seq<u32>, ErrV>(e),
                    Ok(rest) => Ok(head + rest),
                },
            }));
            if ranges_from_x(sv, q as int + 1) is Ok {
                let rest = ranges_from_x(sv, q as int + 1)->Ok_0;
                assert(pages0 + (headv + rest) =~= pages@ + rest);
            }
        }
        if q == n {
            proof {
                assert(ranges_from_x(sv, q as int + 1) == Ok::<Seq<u32>, ErrV>(Seq::empty()));
                assert(pages@ + Seq::<u32>::empty() =~= pages@);
                assert(ranges_from_x(sv, 0) == Ok::<Seq<u32>, ErrV>(pages@));
            }
            break;
        }
        p = q + 1;
    }
    if pages.len() == 0 {
        return Err(PdfError::NoPages);
    }
    let mut out: Vec<u32> = Vec::new();
    let np = pages.len();
    let mut i: usize = 0;
    while i < np
        invariant
            i <= np,
            np == pages.len(),
            out@ == crate::ranges::dedup_first(pages@.subrange(0, i as int)),
        decreases np - i,
    {
        proof {
            assert(pages@.subrange(0, i as int + 1).subrange(0, i as int) =~= pages@.subrange(
                0,
                i as int,
            ));
            assert(pages@.subrange(0, i as int + 1)[i as int] == pages@[i as int]);
            crate::ranges::lemma_dedup_members(pages@.subrange(0, i as int), pages@[i as int]);
        }
        let ghost before = out@;
        if !crate::delete::contains_u32_exec(out.as_slice(), pages[i]) {
            out.push(pages[i]);
            proof {
                assert(out@ =~= before + seq![pages@[i as int]]);
            }
        } else {
            proof {
                assert(before + Seq::<u32>::empty() =~= before);
            }
        }
        i = i + 1;
    }
    proof {
        assert(pages@.subrange(0, np as int) =~= pages@);
    }
    Ok(out)
}

} // verus!
