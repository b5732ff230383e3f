use vstd::prelude::*;

use crate::builder::agrees;
use crate::builder::copy_objects;
use crate::builder::flatten_store;
use crate::builder::insert_catalog;
use crate::builder::insert_pages_node;
use crate::builder::mapping_from;
use crate::builder::renumberable;
use crate::builder::set_entry_one;
use crate::builder::set_entry_obj_v;
use crate::builder::set_parent;
use crate::builder::write_trailer;
use crate::codec::decode_store;
use crate::codec::decoded;
use crate::codec::encode_store;
use crate::codec::encoded;
use crate::error::ErrV;
use crate::error::PdfError;
use crate::extract::check_renumberable;
use crate::locate::count_of;
use crate::locate::find_catalog;
use crate::locate::find_catalog_v;
use crate::locate::find_pages_root;
use crate::locate::find_pages_root_v;
use crate::locate::enumerate_pages;
use crate::locate::pages_of;
use crate::names::k_rotate;
use crate::names::key_rotate;
use crate::object::Obj;
use crate::object::ObjId;
use crate::object::ObjV;
use crate::object::dict_lookup;
use crate::remap::apply_map;
use crate::store::Store;
use crate::store::StoreV;
use crate::store::store_lookup;

verus! {

/// The rotation the page currently carries: its own `Rotate` entry, read
/// directly with no walk up the ancestor chain; absent or non-integer reads
/// as zero.
pub open spec fn rot_of(o: ObjV) -> i64 {
    match o {
        ObjV::Dictionary(d) => match dict_lookup(d, key_rotate()) {
            Some(ObjV::Integer(r)) => r,
            _ => 0,
        },
        _ => 0,
    }
}

/// A rotation added to a current one: non-negative remainder, so the result
/// always lies in `[0, 360)`.
pub open spec fn rot_add(current: int, angle: int) -> int {
    (current + angle) % 360
}

/// Rotating by `a` and then by `b` lands where one rotation by
/// `(a + b) % 360` lands, and every result lies in `[0, 360)`.
pub proof fn lemma_rotate_twice(c: int, a: int, b: int)
    ensures
        rot_add(rot_add(c, a), b) == rot_add(c, rot_add(a, b)),
        0 <= rot_add(c, a) < 360,
        rot_add(c, rot_add(a, b)) == rot_add(c, (a + b) % 360),
{
    broadcast use vstd::arithmetic::div_mod::lemma_add_mod_noop;
    broadcast use vstd::arithmetic::div_mod::lemma_mod_bound;
    broadcast use vstd::arithmetic::div_mod::lemma_mod_twice;

    assert(((c + a) % 360 + b) % 360 == ((c + a) + b) % 360) by {
        vstd::arithmetic::div_mod::lemma_add_mod_noop(c + a, b, 360);
        vstd::arithmetic::div_mod::lemma_mod_twice(c + a, 360);
    }
    assert((c + (a + b) % 360) % 360 == (c + (a + b)) % 360) by {
        vstd::arithmetic::div_mod::lemma_add_mod_noop_right(c, a + b, 360);
        vstd::arithmetic::div_mod::lemma_mod_twice(a + b, 360);
    }
    vstd::arithmetic::div_mod::lemma_mod_bound(c + a, 360);
}

/// The store with one rotation applied to the page bound to `id`.
pub open spec fn rotate_one(s: Seq<(ObjId, ObjV)>, id: ObjId, angle: i64) -> Seq<(ObjId, ObjV)> {
    Seq::new(
        s.len(),
        |j: int|
            if s[j].0 == id {
                (
                    s[j].0,
                    set_entry_obj_v(
                        s[j].1,
                        key_rotate(),
                        ObjV::Integer(rot_add(rot_of(s[j].1) as int, angle as int) as i64),
                    ),
                )
            } else {
                s[j]
            },
    )
}

/// The store with every listed rotation applied in turn; later entries for
/// the same page accumulate on the earlier ones.
pub open spec fn apply_rotations(
    s: Seq<(ObjId, ObjV)>,
    pages: Seq<ObjId>,
    rots: Seq<(u32, i64)>,
) -> Seq<(ObjId, ObjV)>
    decreases rots.len(),
{
    if rots.len() == 0 {
        s
    } else {
        rotate_one(
            apply_rotations(s, pages, rots.subrange(0, rots.len() - 1)),
            pages[rots[rots.len() - 1].0 - 1],
            rots[rots.len() - 1].1,
        )
    }
}

/// The first rotation naming a page outside `1..=total`.
pub open spec fn first_bad_rotation(rots: Seq<(u32, i64)>, total: nat) -> Option<u32>
    decreases rots.len(),
{
    if rots.len() == 0 {
        None
    } else if rots[0].0 < 1 || rots[0].0 > total {
        Some(rots[0].0)
    } else {
        first_bad_rotation(rots.subrange(1, rots.len() as int), total)
    }
}

proof fn lemma_first_bad_rotation_skip(rots: Seq<(u32, i64)>, i: int, total: nat)
    requires
        0 <= i < rots.len(),
        1 <= rots[i].0 <= total,
    ensures
        first_bad_rotation(rots.subrange(i, rots.len() as int), total) == first_bad_rotation(
            rots.subrange(i + 1, rots.len() as int),
            total,
        ),
{
    let t = rots.subrange(i, rots.len() as int);
    assert(t.subrange(1, t.len() as int) =~= rots.subrange(i + 1, rots.len() as int));
}

/// What rotation returns: each listed page's `Rotate` is advanced in the
/// source's objects, and the mutated tree is wrapped whole under a fresh
/// root whose `Count` is read off the mutated root, the old catalog alone
/// discarded.
pub open spec fn rotate_spec(src: StoreV, rots: Seq<(u32, i64)>) -> Result<StoreV, ErrV> {
    if find_catalog_v(src.objects) is None || find_pages_root_v(src.objects) is None {
        Err(ErrV::Codec)
    } else {
        let cat = find_catalog_v(src.objects)->Some_0;
        let root = find_pages_root_v(src.objects)->Some_0;
        let pages = pages_of(src);
        let total = pages.len();
        match first_bad_rotation(rots, total) {
            Some(p) => Err(ErrV::PageOutOfRange { page: p, total: total as u32 }),
            None => {
                let mutated = StoreV {
                    objects: apply_rotations(src.objects, pages, rots),
                    max_id: src.max_id,
                    trailer: src.trailer,
                };
                let m = mapping_from(mutated.objects, 0);
                let new_root = apply_map(m, root);
                let count = match store_lookup(mutated.objects, root) {
                    Some(o) => match count_of(o) {
                        Some(c) => c,
                        None => 0,
                    },
                    None => 0,
                };
                Ok(flatten_store(mutated, seq![cat], seq![new_root], count))
            },
        }
    }
}

/// The page's current rotation, as `rot_of` names it.
fn rotate_value(o: &Obj) -> (r: i64)
    ensures
        r == rot_of(o@),
{
    match o {
        Obj::Dictionary(d) => {
            let kr = k_rotate();
            match d.get(kr.as_slice()) {
                Some(v) => match v {
                    Obj::Integer(r) => *r,
                    _ => 0,
                },
                None => 0,
            }
        },
        _ => 0,
    }
}


/// The non-negative remainder of a rotation value by a full turn.
#[verifier::rlimit(100)]
fn euclid360(c: i64) -> (r: i64)
    ensures
        r == (c as int) % 360,
{
    let t = c % 360;
    proof {
        vstd::arithmetic::div_mod::lemma_fundamental_div_mod(c as int, 360);
        vstd::arithmetic::div_mod::lemma_mod_bound(c as int, 360);
    }
    if t < 0 {
        t + 360
    } else {
        t
    }
}

/// Advances `Rotate` on the object bound to `page_id` by `angle`, as
/// `rotate_one` names it.
fn apply_rotation_step(src: &mut Store, page_id: ObjId, angle: i64)
    requires
        crate::store::distinct_ids(old(src)@.objects),
        angle == 90 || angle == 180 || angle == 270,
    ensures
        final(src)@.objects == rotate_one(old(src)@.objects, page_id, angle),
        final(src)@.max_id == old(src)@.max_id,
        final(src)@.trailer == old(src)@.trailer,
{
    let ghost before = src@.objects;
    let current = match src.get(page_id) {
        Some(o) => rotate_value(o),
        None => 0,
    };
    let cur = euclid360(current);
    proof {
        vstd::arithmetic::div_mod::lemma_mod_bound(current as int, 360);
    }
    let newr = euclid360(cur + angle);
    proof {
        assert(newr as int == rot_add(current as int, angle as int)) by {
            vstd::arithmetic::div_mod::lemma_add_mod_noop(current as int, angle as int, 360);
            vstd::arithmetic::div_mod::lemma_small_mod(angle as nat, 360nat);
        };
    }
    let kr = k_rotate();
    src.set_entry_at(page_id, kr.as_slice(), Obj::Integer(newr));
    proof {
        if crate::store::has_id(before, page_id) {
            assert(current == rot_of(store_lookup(before, page_id)->Some_0));
        }
        assert forall|j: int|
            0 <= j < before.len() && before[j].0 == page_id implies before[j].1 == store_lookup(
            before,
            page_id,
        )->Some_0 by {
            assert(crate::store::has_id(before, page_id));
            let w = crate::store::id_index(before, page_id);
            assert(0 <= w < before.len() && before[w].0 == page_id);
            assert(w == j);
        }
        assert(src@.objects =~= rotate_one(before, page_id, angle));
    }
}

/// Applies every listed rotation in turn, as `apply_rotations` names it.
fn apply_rotations_exec(src: &mut Store, pages: &Vec<ObjId>, rotations: &[(u32, i64)])
    requires
        crate::store::distinct_ids(old(src)@.objects),
        forall|j: int|
            0 <= j < rotations@.len() ==> 1 <= (#[trigger] rotations@[j]).0 <= pages@.len(),
        forall|j: int|
            0 <= j < rotations@.len() ==> (#[trigger] rotations@[j]).1 == 90 || rotations@[j].1
                == 180 || rotations@[j].1 == 270,
    ensures
        final(src)@.objects == apply_rotations(old(src)@.objects, pages@, rotations@),
        final(src)@.objects.len() == old(src)@.objects.len(),
        crate::store::distinct_ids(final(src)@.objects),
        final(src)@.max_id == old(src)@.max_id,
        final(src)@.trailer == old(src)@.trailer,
{
    let ghost src0 = src@;
    let ghost rotsv = rotations@;
    let n = rotations.len();
    let mut i: usize = 0;
    proof {
        assert(rotsv.subrange(0, 0) =~= Seq::<(u32, i64)>::empty());
    }
    while i < n
        invariant
            i <= n,
            n == rotations.len(),
            src@.objects == apply_rotations(src0.objects, pages@, rotsv.subrange(0, i as int)),
            src@.objects.len() == src0.objects.len(),
            crate::store::distinct_ids(src@.objects),
            src@.max_id == src0.max_id,
            src@.trailer == src0.trailer,
        decreases n - i,
    {
        let p = rotations[i].0;
        let angle = rotations[i].1;
        assert(1 <= p && p as usize <= pages.len());
        let page_id = pages[p as usize - 1];
        apply_rotation_step(src, page_id, angle);
        proof {
            assert(rotsv.subrange(0, i as int + 1).subrange(0, i as int) =~= rotsv.subrange(
                0,
                i as int,
            ));
            assert(rotsv.subrange(0, i as int + 1)[i as int] == rotsv[i as int]);
        }
        i = i + 1;
    }
    proof {
        assert(rotsv.subrange(0, n as int) =~= rotsv);
    }
}

/// Rotates the listed pages and rebuilds the store, as `rotate_spec` names
/// it. This is the one operation that writes into the decoded source before
/// rebuilding, which is why it takes the store by value.
#[verifier::rlimit(100)]
pub fn rotate_store(mut src: Store, rotations: &[(u32, i64)]) -> (r: Result<Store, PdfError>)
    requires
        src@.wf(),
        renumberable(src@),
        forall|i: int|
            0 <= i < rotations@.len() ==> (#[trigger] rotations@[i]).1 == 90
                || rotations@[i].1 == 180 || rotations@[i].1 == 270,
    ensures
        agrees(r, rotate_spec(src@, rotations@)),
        r matches Ok(o) ==> o@.max_id as int <= src@.objects.len() + 2,
{
    let ghost src0 = src@;
    let cat = match find_catalog(&src) {
        Some(c) => c,
        None => {
            return Err(PdfError::Codec);
        },
    };
    let root = match find_pages_root(&src) {
        Some(c) => c,
        None => {
            return Err(PdfError::Codec);
        },
    };
    let pages = enumerate_pages(&src, root);
    let ghost pagesv = pages_of(src@);
    proof {
        assert(pages@ == pagesv);
    }
    let total = pages.len();
    let ghost rotsv = rotations@;
    let n = rotations.len();
    let mut i: usize = 0;
    proof {
        assert(rotsv.subrange(0, n as int) =~= rotsv);
    }
    while i < n
        invariant
            i <= n,
            n == rotations.len(),
            first_bad_rotation(rotsv, total as nat) == first_bad_rotation(
                rotsv.subrange(i as int, n as int),
                total as nat,
            ),
            forall|j: int| 0 <= j < i ==> 1 <= (#[trigger] rotsv[j]).0 <= total,
        decreases n - i,
    {
        let p = rotations[i].0;
        if p < 1 || p as usize > total {
            assert(rotsv.subrange(i as int, n as int)[0] == rotsv[i as int]);
            return Err(PdfError::PageOutOfRange { page: p, total: total as u32 });
        }
        proof {
            lemma_first_bad_rotation_skip(rotsv, i as int, total as nat);
        }
        i = i + 1;
    }
    proof {
        assert(rotsv.subrange(n as int, n as int) =~= Seq::<(u32, i64)>::empty());
        assert(first_bad_rotation(rotsv, total as nat) is None);
    }
    apply_rotations_exec(&mut src, &pages, rotations);
    let ghost mutated = src@;
    let count = match src.get(root) {
        Some(o) => {
            match o {
                Obj::Dictionary(d) => {
                    let kc = crate::names::k_count();
                    match d.get(kc.as_slice()) {
                        Some(v) => match v {
                            Obj::Integer(c) => *c,
                            _ => 0i64,
                        },
                        None => 0i64,
                    }
                },
                _ => 0i64,
            }
        },
        None => 0i64,
    };
    let mut out = Store::new_store();
    let mut excl: Vec<ObjId> = Vec::new();
    excl.push(cat);
    proof {
        assert(excl@ =~= seq![cat]);
    }
    let map = copy_objects(&src, &mut out, &excl);
    proof {
        assert(map.entries@ =~= mapping_from(mutated.objects, 0));
    }
    let new_root = map.apply(root);
    let mut kids: Vec<ObjId> = Vec::new();
    kids.push(new_root);
    proof {
        assert(kids@ =~= seq![apply_map(map.entries@, root)]);
        let s = mutated.objects;
        crate::builder::lemma_copied_facts(s, map.entries@, excl@, 0u32, s.len() as int);
        assert(s.subrange(0, s.len() as int) =~= s);
        assert(Seq::<(ObjId, ObjV)>::empty() + crate::builder::copied_objs(s, map.entries@, excl@)
            =~= crate::builder::copied_objs(s, map.entries@, excl@));
        assert(crate::store::distinct_ids(out@.objects));
    }
    let pages_id = ObjId { num: out.max_id + 1, gen: 0 };
    set_parent(&mut out, &kids, pages_id);
    let pid = insert_pages_node(&mut out, &kids, count);
    assert(pid == pages_id);
    let cid = insert_catalog(&mut out, pid);
    write_trailer(&mut out, cid);
    proof {
        assert(out@ =~= flatten_store(
            mutated,
            seq![cat],
            seq![apply_map(mapping_from(mutated.objects, 0), root)],
            count,
        ));
    }
    Ok(out)
}

/// Decodes, rotates the listed pages, and encodes the result.
pub fn rotate_pages(data: &[u8], rotations: &[(u32, i64)]) -> (r: Result<Vec<u8>, PdfError>)
    requires
        forall|i: int|
            0 <= i < rotations@.len() ==> (#[trigger] rotations@[i]).1 == 90
                || rotations@[i].1 == 180 || rotations@[i].1 == 270,
    ensures
        decoded(data@) is None ==> (r matches Err(e) && e@ == ErrV::Lopdf),
        decoded(data@) is Some && renumberable(decoded(data@)->Some_0) ==> (match rotate_spec(
            decoded(data@)->Some_0,
            rotations@,
        ) {
            Ok(st) => ((encoded(st) is Some ==> (r matches Ok(rb) && rb@ == encoded(st)->Some_0))
                && (encoded(st) is None ==> (r matches Err(e) && e@ == ErrV::Io))),
            Err(ev) => (r matches Err(e) && e@ == ev),
        }),
        decoded(data@) is Some && !renumberable(decoded(data@)->Some_0) ==> (r matches Err(e)
            && e@ == ErrV::Io),
{
    let src = match decode_store(data) {
        Ok(s) => s,
        Err(e) => {
            return Err(PdfError::Lopdf(e));
        },
    };
    if !check_renumberable(&src) {
        return Err(PdfError::Io(crate::codec::resource_error()));
    }
    let out = match rotate_store(src, rotations) {
        Ok(o) => o,
        Err(e) => {
            return Err(e);
        },
    };
    match encode_store(&out) {
        Ok(b) => Ok(b),
        Err(e) => Err(PdfError::Io(e)),
    }
}

/// What one `page:angle` piece contributes: nothing when blank; the page
/// must read as a number, the angle as one of the three quarter turns.
pub open spec fn rotation_piece_v(part: Seq<char>) -> Result<Seq<(u32, i64)>, ErrV> {
    if part.len() == 0 {
        Ok(Seq::empty())
    } else {
        let h = crate::string_util::first_idx(part, 0, ':');
        let angle_txt = if h < part.len() {
            part.subrange(h + 1, part.len() as int)
        } else {
            Seq::<char>::empty()
        };
        match crate::ranges::page_number_v(part.subrange(0, h)) {
            None => Err(ErrV::InvalidPageNumber(part)),
            Some(pg) => match crate::ranges::page_number_v(angle_txt) {
                None => Err(ErrV::InvalidRange(part)),
                Some(av) => if av == 90 || av == 180 || av == 270 {
                    Ok(seq![(pg, av as i64)])
                } else {
                    Err(ErrV::InvalidRange(part))
                },
            },
        }
    }
}

/// Every piece of the input from position `p` on.
pub open spec fn rotations_from(s: Seq<char>, p: int) -> Result<Seq<(u32, i64)>, ErrV>
    decreases s.len() + 1 - p,
    via rotations_from_decreases
{
    if p > s.len() || p < 0 {
        Ok(Seq::empty())
    } else {
        let q = crate::string_util::first_idx(s, p, ',');
        let part = crate::string_util::trimmed(s.subrange(p, q));
        match rotation_piece_v(part) {
            Err(e) => Err(e),
            Ok(head) => match rotations_from(s, q + 1) {
                Err(e) => Err(e),
                Ok(rest) => Ok(head + rest),
            },
        }
    }
}

#[via_fn]
proof fn rotations_from_decreases(s: Seq<char>, p: int) {
    if 0 <= p <= s.len() {
        crate::string_util::lemma_first_idx_bounds(s, p, ',');
    }
}

/// Parses `1:90,3:180` into page and angle pairs, as `rotations_from` names
/// it; blank pieces are skipped and an empty list is no error here.
#[verifier::loop_isolation(true)]
pub fn parse_rotations(input: &str) -> (r: Result<Vec<(u32, i64)>, PdfError>)
    ensures
        match rotations_from(input@, 0) {
            Ok(v) => r matches Ok(out) && out@ == v,
            Err(ev) => r matches Err(e) && e@ == ev,
        },
        r matches Ok(out) ==> forall|i: int|
            0 <= i < out@.len() ==> (#[trigger] out@[i]).1 == 90 || out@[i].1 == 180
                || out@[i].1 == 270,
{
    let ghost sv = input@;
    let n = input.unicode_len();
    let mut out: Vec<(u32, i64)> = Vec::new();
    let mut p: usize = 0;
    loop
        invariant_except_break
            sv == input@,
            p <= n,
            n == sv.len(),
            rotations_from(sv, 0) == (match rotations_from(sv, p as int) {
                Err(e) => Err::<Seq<(u32, i64)>, ErrV>(e),
                Ok(rest) => Ok(out@ + rest),
            }),
            forall|i: int|
                0 <= i < out@.len() ==> (#[trigger] out@[i]).1 == 90 || out@[i].1 == 180
                    || out@[i].1 == 270,
        ensures
            rotations_from(sv, 0) == Ok::<Seq<(u32, i64)>, ErrV>(out@),
            forall|i: int|
                0 <= i < out@.len() ==> (#[trigger] out@[i]).1 == 90 || out@[i].1 == 180
                    || out@[i].1 == 270,
        decreases n - p,
    {
        let q = crate::string_util::find_char(input, p, ',');
        let piece = input.substring_char(p, q);
        let part = crate::string_util::trim_str(piece);
        let ghost partv = crate::string_util::trimmed(sv.subrange(p as int, q as int));
        let ghost out0 = out@;
        let ghost mut headv: Seq<(u32, i64)> = Seq::empty();
        proof {
            assert(part@ == partv);
        }
        let m = part.unicode_len();
        if m > 0 {
            let h = crate::string_util::find_char(part, 0, ':');
            let page_str = part.substring_char(0, h);
            let pg = match crate::ranges::parse_page_number(page_str, part) {
                Ok(v) => v,
                Err(e) => {
                    assert(rotation_piece_v(partv) == Err::<Seq<(u32, i64)>, ErrV>(
                        ErrV::InvalidPageNumber(partv),
                    ));
                    return Err(e);
                },
            };
            let angle_str = if h < m {
                part.substring_char(h + 1, m)
            } else {
                part.substring_char(m, m)
            };
            proof {
                if h < m {
                    assert(angle_str@ == partv.subrange(h as int + 1, partv.len() as int));
                } else {
                    assert(angle_str@ =~= Seq::<char>::empty());
                    assert(crate::string_util::trimmed(angle_str@) =~= Seq::<char>::empty());
                }
            }
            let av = match crate::string_util::parse_u32_str(crate::string_util::trim_str(
                angle_str,
            )) {
                Some(v) => v,
                None => {
                    assert(rotation_piece_v(partv) == Err::<Seq<(u32, i64)>, ErrV>(
                        ErrV::InvalidRange(partv),
                    ));
                    return Err(PdfError::InvalidRange(part.to_owned()));
                },
            };
            if !(av == 90 || av == 180 || av == 270) {
                assert(rotation_piece_v(partv) == Err::<Seq<(u32, i64)>, ErrV>(
                    ErrV::InvalidRange(partv),
                ));
                return Err(PdfError::InvalidRange(part.to_owned()));
            }
            out.push((pg, av as i64));
            proof {
                headv = seq![(pg, av as i64)];
                assert(out@ =~= out0 + headv);
                assert(rotation_piece_v(partv) == Ok::<Seq<(u32, i64)>, ErrV>(headv));
            }
        } else {
            proof {
                assert(out@ + Seq::<(u32, i64)>::empty() =~= out@);
                assert(rotation_piece_v(partv) == Ok::<Seq<(u32, i64)>, ErrV>(headv));
            }
        }
        proof {
            assert(out@ == out0 + headv);
            assert(rotations_from(sv, p as int) == (match rotation_piece_v(partv) {
                Err(e) => Err::<Seq<(u32, i64)>, ErrV>(e),
                Ok(head) => match rotations_from(sv, q as int + 1) {
                    Err(e) => Err::<Seq<(u32, i64)>, ErrV>(e),
                    Ok(rest) => Ok(head + rest),
                },
            }));
            if rotations_from(sv, q as int + 1) is Ok {
                let rest = rotations_from(sv, q as int + 1)->Ok_0;
                assert(out0 + (headv + rest) =~= out@ + rest);
            }
        }
        if q == n {
            proof {
                assert(rotations_from(sv, q as int + 1) == Ok::<Seq<(u32, i64)>, ErrV>(
                    Seq::empty(),
                ));
                assert(out@ + Seq::<(u32, i64)>::empty() =~= out@);
                assert(rotations_from(sv, 0) == Ok::<Seq<(u32, i64)>, ErrV>(out@));
            }
            break;
        }
        p = q + 1;
    }
    Ok(out)
}

} // verus!
