use vstd::prelude::*;

use crate::error::ErrV;
use crate::error::PdfError;
use crate::string_util::find_char;
use crate::string_util::first_idx;
use crate::string_util::parse_u32_str;
use crate::string_util::parse_u32_v;
use crate::string_util::trim_str;
use crate::string_util::trimmed;

verus! {

/// Does a buffer begin with the five-byte signature of a PDF file?
pub fn is_valid_pdf(data: &[u8]) -> (r: bool)
    ensures
        r == (data@.len() >= 5 && data@.subrange(0, 5) == seq![37u8, 80u8, 68u8, 70u8, 45u8]),
{
    if data.len() < 5 {
        return false;
    }
    let ok = data[0] == 37 && data[1] == 80 && data[2] == 68 && data[3] == 70 && data[4] == 45;
    proof {
        if ok {
            assert(data@.subrange(0, 5) =~= seq![37u8, 80u8, 68u8, 70u8, 45u8]);
        } else {
            assert(data@.subrange(0, 5)[0] == data@[0]);
            assert(data@.subrange(0, 5)[1] == data@[1]);
            assert(data@.subrange(0, 5)[2] == data@[2]);
            assert(data@.subrange(0, 5)[3] == data@[3]);
            assert(data@.subrange(0, 5)[4] == data@[4]);
        }
    }
    ok
}

/// A page number read from a piece of text: surrounding whitespace is
/// dropped, an optional leading plus sign is accepted, and the value must
/// fit; anything else is `InvalidPageNumber` carrying the context text.
pub open spec fn page_number_v(s: Seq<char>) -> Option<u32> {
    parse_u32_v(trimmed(s))
}

pub fn parse_page_number(s: &str, context: &str) -> (r: Result<u32, PdfError>)
    ensures
        match page_number_v(s@) {
            Some(n) => r matches Ok(v) && v == n,
            None => r matches Err(e) && e@ == ErrV::InvalidPageNumber(context@),
        },
{
    let t = trim_str(s);
    match parse_u32_str(t) {
        Some(n) => Ok(n),
        None => Err(PdfError::InvalidPageNumber(context.to_owned())),
    }
}

/// The numbers `a..=b`, in order.
pub open spec fn range_seq(a: u32, b: u32) -> Seq<u32> {
    Seq::new(if a <= b { (b - a + 1) as nat } else { 0 }, |k: int| (a + k) as u32)
}

/// What one comma-separated piece contributes: nothing when blank, a range
/// when it holds a dash, one number otherwise. The first faulty piece is the
/// error: unreadable numbers are `InvalidPageNumber`, an inverted range is
/// `InvalidRange`, each carrying the piece's text.
pub open spec fn piece_v(part: Seq<char>) -> Result<Seq<u32>, ErrV> {
    if part.len() == 0 {
        Ok(Seq::empty())
    } else {
        let h = first_idx(part, 0, '-');
        if h < part.len() {
            match page_number_v(part.subrange(0, h)) {
                None => Err(ErrV::InvalidPageNumber(part)),
                Some(a) => match page_number_v(part.subrange(h + 1, part.len() as int)) {
                    None => Err(ErrV::InvalidPageNumber(part)),
                    Some(b) => if a > b {
                        Err(ErrV::InvalidRange(part))
                    } else {
                        Ok(range_seq(a, b))
                    },
                },
            }
        } else {
            match page_number_v(part) {
                None => Err(ErrV::InvalidPageNumber(part)),
                Some(n) => Ok(seq![n]),
            }
        }
    }
}

/// Every piece of the input from position `p` on, pieces separated by
/// commas, their contributions concatenated in order.
pub open spec fn ranges_from(s: Seq<char>, p: int) -> Result<Seq<u32>, ErrV>
    decreases s.len() + 1 - p,
    via ranges_from_decreases
{
    if p > s.len() || p < 0 {
        Ok(Seq::empty())
    } else {
        let q = first_idx(s, p, ',');
        let part = trimmed(s.subrange(p, q));
        match piece_v(part) {
            Err(e) => Err(e),
            Ok(head) => match ranges_from(s, q + 1) {
                Err(e) => Err(e),
                Ok(rest) => Ok(head + rest),
            },
        }
    }
}

#[via_fn]
proof fn ranges_from_decreases(s: Seq<char>, p: int) {
    if 0 <= p <= s.len() {
        crate::string_util::lemma_first_idx_bounds(s, p, ',');
    }
}

/// The numbers with every repeat dropped, first occurrences kept in order.
pub open spec fn dedup_first(s: Seq<u32>) -> Seq<u32>
    decreases s.len(),
{
    if s.len() == 0 {
        Seq::empty()
    } else {
        dedup_first(s.subrange(0, s.len() - 1)) + (if crate::delete::contains_u32(
            s.subrange(0, s.len() - 1),
            s[s.len() - 1],
        ) {
            Seq::empty()
        } else {
            seq![s[s.len() - 1]]
        })
    }
}

pub proof fn lemma_dedup_members(s: Seq<u32>, x: u32)
    ensures
        crate::delete::contains_u32(dedup_first(s), x) == crate::delete::contains_u32(s, x),
    decreases s.len(),
{
    if s.len() > 0 {
        let head = s.subrange(0, s.len() - 1);
        let last = s[s.len() - 1];
        lemma_dedup_members(head, x);
        let d = dedup_first(s);
        let dh = dedup_first(head);
        if crate::delete::contains_u32(head, last) {
            assert(d =~= dh);
        } else {
            assert(d =~= dh.push(last));
        }
        if crate::delete::contains_u32(s, x) {
            let w = choose|i: int| 0 <= i < s.len() && s[i] == x;
            if w < s.len() - 1 {
                assert(head[w] == x);
                assert(crate::delete::contains_u32(head, x));
                let u = choose|i: int| 0 <= i < dh.len() && dh[i] == x;
                assert(d[u] == x);
                assert(crate::delete::contains_u32(d, x));
            } else {
                if crate::delete::contains_u32(head, x) {
                    let u = choose|i: int| 0 <= i < dh.len() && dh[i] == x;
                    assert(d[u] == x);
                    assert(crate::delete::contains_u32(d, x));
                } else {
                    assert(d[d.len() - 1] == x);
                    assert(crate::delete::contains_u32(d, x));
                }
            }
        }
        if crate::delete::contains_u32(d, x) {
            let w = choose|i: int| 0 <= i < d.len() && d[i] == x;
            if w < dh.len() {
                assert(dh[w] == x);
                assert(crate::delete::contains_u32(dh, x));
                assert(crate::delete::contains_u32(head, x));
                let u = choose|i: int| 0 <= i < head.len() && head[i] == x;
                assert(s[u] == x);
                assert(crate::delete::contains_u32(s, x));
            } else {
                assert(d[w] == last);
                assert(s[s.len() - 1] == x);
                assert(crate::delete::contains_u32(s, x));
            }
        }
    }
}

/// What the whole grammar `RANGE ("," RANGE)*` yields: the pieces'
/// contributions in order, deduplicated keeping first occurrences; an input
/// that contributes nothing at all is `NoPages`.
pub open spec fn page_ranges_v(s: Seq<char>) -> Result<Seq<u32>, ErrV> {
    match ranges_from(s, 0) {
        Err(e) => Err(e),
        Ok(pages) => if pages.len() == 0 {
            Err(ErrV::NoPages)
        } else {
            Ok(dedup_first(pages))
        },
    }
}

/// Parses a textual list of pages and ranges, as `page_ranges_v` names it:
/// `1, 3, 5-7` yields `[1, 3, 5, 6, 7]`, ordered as given, without repeats.
#[verifier::loop_isolation(true)]
pub fn parse_page_ranges(input: &str) -> (r: Result<Vec<u32>, PdfError>)
    ensures
        match page_ranges_v(input@) {
            Ok(v) => r matches Ok(out) && out@ == v,
            Err(ev) => r matches Err(e) && e@ == ev,
        },
{
    let ghost sv = input@;
    let n = input.unicode_len();
    let mut pages: Vec<u32> = Vec::new();
    let mut p: usize = 0;
    loop
        invariant_except_break
            sv == input@,
            p <= n,
            n == sv.len(),
            ranges_from(sv, 0) == (match ranges_from(sv, p as int) {
                Err(e) => Err::<Seq<u32>, ErrV>(e),
                Ok(rest) => Ok(pages@ + rest),
            }),
        ensures
            ranges_from(sv, 0) == Ok::<Seq<u32>, ErrV>(pages@),
        decreases n - p,
    {
        let q = find_char(input, p, ',');
        let piece = input.substring_char(p, q);
        let part = trim_str(piece);
        let ghost partv = trimmed(sv.subrange(p as int, q as int));
        let ghost pages0 = pages@;
        let ghost mut headv: Seq<u32> = Seq::empty();
        proof {
            assert(part@ == partv);
        }
        let m = part.unicode_len();
        if m > 0 {
            let h = find_char(part, 0, '-');
            if h < m {
                let a_str = part.substring_char(0, h);
                let b_str = part.substring_char(h + 1, m);
                proof {
                    assert(a_str@ == partv.subrange(0, h as int));
                    assert(b_str@ == partv.subrange(h as int + 1, partv.len() as int));
                }
                let a = match parse_page_number(a_str, part) {
                    Ok(v) => v,
                    Err(e) => {
                        assert(piece_v(partv) == Err::<Seq<u32>, ErrV>(
                            ErrV::InvalidPageNumber(partv),
                        ));
                        return Err(e);
                    },
                };
                let b = match parse_page_number(b_str, part) {
                    Ok(v) => v,
                    Err(e) => {
                        assert(piece_v(partv) == Err::<Seq<u32>, ErrV>(
                            ErrV::InvalidPageNumber(partv),
                        ));
                        return Err(e);
                    },
                };
                if a > b {
                    assert(piece_v(partv) == Err::<Seq<u32>, ErrV>(ErrV::InvalidRange(partv)));
                    return Err(PdfError::InvalidRange(part.to_owned()));
                }
                let ghost before = pages@;
                let mut w = a;
                while w < b
                    invariant
                        a <= w <= b,
                        pages@ == before + range_seq(a, b).subrange(0, w - a),
                    decreases b - w,
                {
                    pages.push(w);
                    proof {
                        assert(pages@ =~= before + range_seq(a, b).subrange(0, w - a + 1));
                    }
                    w = w + 1;
                }
                pages.push(b);
                proof {
                    assert(range_seq(a, b).subrange(0, (b - a + 1) as int) =~= range_seq(a, b));
                    assert(pages@ =~= before + range_seq(a, b));
                    headv = range_seq(a, b);
                    assert(piece_v(partv) == Ok::<Seq<u32>, ErrV>(headv));
                }
            } else {
                let v = match parse_page_number(part, part) {
                    Ok(v) => v,
                    Err(e) => {
                        assert(piece_v(partv) == Err::<Seq<u32>, ErrV>(
                            ErrV::InvalidPageNumber(partv),
                        ));
                        return Err(e);
                    },
                };
                let ghost before = pages@;
                pages.push(v);
                proof {
                    assert(pages@ =~= before + seq![v]);
                    headv = seq![v];
                    assert(piece_v(partv) == Ok::<Seq<u32>, ErrV>(headv));
                }
            }
        } else {
            proof {
                assert(pages@ + Seq::<u32>::empty() =~= pages@);
                assert(piece_v(partv) == Ok::<Seq<u32>, ErrV>(headv));
            }
        }
        proof {
            assert(pages@ == pages0 + headv);
            assert(ranges_from(sv, p as int) == (match piece_v(partv) {
                Err(e) => Err::<Seq<u32>, ErrV>(e),
                Ok(head) => match ranges_from(sv, q as int + 1) {
                    Err(e) => Err::<Seq<u32>, ErrV>(e),
                    Ok(rest) => Ok(head + rest),
                },
            }));
            if ranges_from(sv, q as int + 1) is Ok {
                let rest = ranges_from(sv, q as int + 1)->Ok_0;
                assert(pages0 + (headv + rest) =~= pages@ + rest);
            }
        }
        if q == n {
            proof {
                assert(ranges_from(sv, q as int + 1) == Ok::<Seq<u32>, ErrV>(Seq::empty()));
                assert(pages@ + Seq::<u32>::empty() =~= pages@);
                assert(ranges_from(sv, 0) == Ok::<Seq<u32>, ErrV>(pages@));
            }
            break;
        }
        p = q + 1;
    }
    if pages.len() == 0 {
        return Err(PdfError::NoPages);
    }
    let mut out: Vec<u32> = Vec::new();
    let np = pages.len();
    let mut i: usize = 0;
    while i < np
        invariant
            i <= np,
            np == pages.len(),
            out@ == dedup_first(pages@.subrange(0, i as int)),
        decreases np - i,
    {
        proof {
            assert(pages@.subrange(0, i as int + 1).subrange(0, i as int) =~= pages@.subrange(
                0,
                i as int,
            ));
            assert(pages@.subrange(0, i as int + 1)[i as int] == pages@[i as int]);
            lemma_dedup_members(pages@.subrange(0, i as int), pages@[i as int]);
        }
        let ghost before = out@;
        if !crate::delete::contains_u32_exec(out.as_slice(), pages[i]) {
            out.push(pages[i]);
            proof {
                assert(out@ =~= before + seq![pages@[i as int]]);
            }
        } else {
            proof {
                assert(before + Seq::<u32>::empty() =~= before);
            }
        }
        i = i + 1;
    }
    proof {
        assert(pages@.subrange(0, np as int) =~= pages@);
    }
    Ok(out)
}

} // verus!
