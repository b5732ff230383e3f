use vstd::prelude::*;

verus! {

/// First position at or after `from` holding `c`, or the length.
pub open spec fn first_idx(s: Seq<char>, from: int, c: char) -> int
    decreases s.len() - from,
{
    if from < 0 || from >= s.len() {
        s.len() as int
    } else if s[from] == c {
        from
    } else {
        first_idx(s, from + 1, c)
    }
}

pub proof fn lemma_first_idx_bounds(s: Seq<char>, from: int, c: char)
    requires
        0 <= from <= s.len(),
    ensures
        from <= first_idx(s, from, c) <= s.len(),
        first_idx(s, from, c) < s.len() ==> s[first_idx(s, from, c)] == c,
    decreases s.len() - from,
{
    if from < s.len() && s[from] != c {
        lemma_first_idx_bounds(s, from + 1, c);
    }
}

/// First position at or after `from` holding `c`, as `first_idx` names it.
pub fn find_char(s: &str, from: usize, c: char) -> (r: usize)
    requires
        from <= s@.len(),
    ensures
        r == first_idx(s@, from as int, c),
        from <= r <= s@.len(),
        r < s@.len() ==> s@[r as int] == c,
{
    let ghost sv = s@;
    let n = s.unicode_len();
    let mut i: usize = from;
    while i < n
        invariant
            from <= i <= n,
            n == sv.len(),
            first_idx(sv, from as int, c) == first_idx(sv, i as int, c),
        decreases n - i,
    {
        let ch = s.get_char(i);
        if ch == c {
            return i;
        }
        i = i + 1;
    }
    proof {
        lemma_first_idx_bounds(sv, from as int, c);
    }
    n
}

/// Is the character one of the blanks the grammar skips over? The set is
/// the one `str::trim` strips: every character with the White_Space
/// property.
pub open spec fn is_ws(c: char) -> bool {
    c == ' ' || c == '\t' || c == '\n' || c == '\r' || c == '\u{b}' || c == '\u{c}'
        || c == '\u{85}' || c == '\u{a0}' || c == '\u{1680}' || ('\u{2000}' <= c && c
        <= '\u{200a}') || c == '\u{2028}' || c == '\u{2029}' || c == '\u{202f}' || c
        == '\u{205f}' || c == '\u{3000}'
}

pub fn is_ws_exec(c: char) -> (r: bool)
    ensures
        r == is_ws(c),
{
    c == ' ' || c == '\t' || c == '\n' || c == '\r' || c == '\u{b}' || c == '\u{c}'
        || c == '\u{85}' || c == '\u{a0}' || c == '\u{1680}' || ('\u{2000}' <= c && c
        <= '\u{200a}') || c == '\u{2028}' || c == '\u{2029}' || c == '\u{202f}' || c
        == '\u{205f}' || c == '\u{3000}'
}

/// First non-blank position at or after `i`.
pub open spec fn ltrim_from(s: Seq<char>, i: int) -> int
    decreases s.len() - i,
{
    if i < 0 || i >= s.len() {
        s.len() as int
    } else if is_ws(s[i]) {
        ltrim_from(s, i + 1)
    } else {
        i
    }
}

/// End of the last non-blank run before `j`.
pub open spec fn rtrim_to(s: Seq<char>, j: int) -> int
    decreases j,
{
    if j <= 0 || j > s.len() {
        0
    } else if is_ws(s[j - 1]) {
        rtrim_to(s, j - 1)
    } else {
        j
    }
}

/// The text with leading and trailing blanks dropped.
pub open spec fn trimmed(s: Seq<char>) -> Seq<char> {
    let i = ltrim_from(s, 0);
    let j = rtrim_to(s, s.len() as int);
    if i <= j {
        s.subrange(i, j)
    } else {
        Seq::empty()
    }
}

proof fn lemma_ltrim_bounds(s: Seq<char>, i: int)
    requires
        0 <= i <= s.len(),
    ensures
        i <= ltrim_from(s, i) <= s.len(),
        ltrim_from(s, i) < s.len() ==> !is_ws(s[ltrim_from(s, i)]),
    decreases s.len() - i,
{
    if i < s.len() && is_ws(s[i]) {
        lemma_ltrim_bounds(s, i + 1);
    }
}

proof fn lemma_rtrim_bounds(s: Seq<char>, j: int)
    requires
        0 <= j <= s.len(),
    ensures
        0 <= rtrim_to(s, j) <= j,
        rtrim_to(s, j) > 0 ==> !is_ws(s[rtrim_to(s, j) - 1]),
    decreases j,
{
    if 0 < j && is_ws(s[j - 1]) {
        lemma_rtrim_bounds(s, j - 1);
    }
}

/// The text without surrounding blanks, as `trimmed` names it.
#[verifier::loop_isolation(true)]
pub fn trim_str<'a>(s: &'a str) -> (r: &'a str)
    ensures
        r@ == trimmed(s@),
{
    let ghost sv = s@;
    let n = s.unicode_len();
    let mut i: usize = 0;
    while i < n
        invariant_except_break
            sv == s@,
            i <= n,
            n == sv.len(),
            ltrim_from(sv, 0) == ltrim_from(sv, i as int),
        ensures
            i <= n,
            i as int == ltrim_from(sv, 0),
        decreases n - i,
    {
        let ch = s.get_char(i);
        if !is_ws_exec(ch) {
            assert(ltrim_from(sv, i as int) == i);
            break;
        }
        i = i + 1;
    }
    if i == n {
        proof {
            lemma_rtrim_bounds(sv, n as int);
            lemma_ltrim_bounds(sv, 0);
            if ltrim_from(sv, 0) <= rtrim_to(sv, n as int) {
                assert(rtrim_to(sv, n as int) == n as int);
                assert(sv.subrange(n as int, n as int) =~= Seq::<char>::empty());
            }
        }
        let r = s.substring_char(n, n);
        proof {
            assert(r@ =~= trimmed(sv));
        }
        return r;
    }
    proof {
        lemma_ltrim_bounds(sv, 0);
    }
    let mut j: usize = n;
    loop
        invariant_except_break
            sv == s@,
            i < j <= n,
            n == sv.len(),
            i as int == ltrim_from(sv, 0),
            !is_ws(sv[i as int]),
            rtrim_to(sv, n as int) == rtrim_to(sv, j as int),
        ensures
            i < j <= n,
            j as int == rtrim_to(sv, n as int),
        decreases j,
    {
        let ch = s.get_char(j - 1);
        if !is_ws_exec(ch) {
            assert(rtrim_to(sv, j as int) == j);
            break;
        }
        if j - 1 == i {
            assert(false);
        }
        j = j - 1;
    }
    let r = s.substring_char(i, j);
    proof {
        assert(r@ =~= trimmed(sv));
    }
    r
}

pub open spec fn is_digit_c(c: char) -> bool {
    48 <= c as u32 <= 57
}

pub open spec fn digit_val(c: char) -> int {
    c as u32 - 48
}

/// The value of a run of decimal digits, most significant first.
pub open spec fn numeral_val(d: Seq<char>) -> int
    decreases d.len(),
{
    if d.len() == 0 {
        0
    } else {
        numeral_val(d.subrange(0, d.len() - 1)) * 10 + digit_val(d[d.len() - 1])
    }
}

pub open spec fn all_digits(d: Seq<char>) -> bool {
    forall|i: int| 0 <= i < d.len() ==> is_digit_c(#[trigger] d[i])
}

proof fn lemma_numeral_nonneg(d: Seq<char>)
    requires
        all_digits(d),
    ensures
        numeral_val(d) >= 0,
    decreases d.len(),
{
    if d.len() > 0 {
        let head = d.subrange(0, d.len() - 1);
        assert(all_digits(head));
        lemma_numeral_nonneg(head);
    }
}

pub proof fn lemma_numeral_prefix(d: Seq<char>, i: int)
    requires
        all_digits(d),
        0 <= i <= d.len(),
    ensures
        0 <= numeral_val(d.subrange(0, i)) <= numeral_val(d),
    decreases d.len() - i,
{
    assert(all_digits(d.subrange(0, i)));
    lemma_numeral_nonneg(d.subrange(0, i));
    if i < d.len() {
        lemma_numeral_prefix(d, i + 1);
        assert(d.subrange(0, i + 1).subrange(0, i) =~= d.subrange(0, i));
        assert(numeral_val(d.subrange(0, i + 1)) == numeral_val(d.subrange(0, i)) * 10
            + digit_val(d[i]));
    } else {
        assert(d.subrange(0, i) =~= d);
    }
}

/// What `str::parse` makes of the text as a `u32`: an optional leading plus
/// sign, then at least one digit, the value no more than the type holds.
pub open spec fn parse_u32_v(s: Seq<char>) -> Option<u32> {
    let d = if s.len() > 0 && s[0] == '+' {
        s.subrange(1, s.len() as int)
    } else {
        s
    };
    if d.len() > 0 && all_digits(d) && numeral_val(d) <= u32::MAX {
        Some(numeral_val(d) as u32)
    } else {
        None
    }
}

/// Reads a `u32` from the text, as `parse_u32_v` names it.
pub fn parse_u32_str(s: &str) -> (r: Option<u32>)
    ensures
        r == parse_u32_v(s@),
{
    let ghost sv = s@;
    let n = s.unicode_len();
    if n == 0 {
        return None;
    }
    let c0 = s.get_char(0);
    let start: usize = if c0 == '+' {
        1
    } else {
        0
    };
    let ghost d = if sv[0] == '+' {
        sv.subrange(1, sv.len() as int)
    } else {
        sv
    };
    proof {
        assert(d.len() == n - start);
        assert(forall|k: int| 0 <= k < d.len() ==> d[k] == sv[k + start]);
    }
    if start == n {
        return None;
    }
    let mut i: usize = start;
    while i < n
        invariant
            start <= i <= n,
            n == sv.len(),
            forall|k: int| start <= k < i ==> is_digit_c(#[trigger] sv[k]),
        decreases n - i,
    {
        let ch = s.get_char(i);
        let cv = ch as u32;
        if cv < 48 || cv > 57 {
            assert(!is_digit_c(d[i - start as int]));
            return None;
        }
        i = i + 1;
    }
    proof {
        assert(all_digits(d));
    }
    let mut acc: u64 = 0;
    let mut i: usize = start;
    while i < n
        invariant
            start <= i <= n,
            n == sv.len(),
            all_digits(d),
            acc == numeral_val(d.subrange(0, i - start as int)),
            acc <= u32::MAX,
        decreases n - i,
    {
        let ch = s.get_char(i);
        let cv = ch as u32;
        assert(is_digit_c(sv[i as int]));
        let acc2 = acc * 10 + ((cv - 48) as u64);
        proof {
            assert(d.subrange(0, i + 1 - start as int).subrange(0, i - start as int)
                =~= d.subrange(0, i - start as int));
            assert(d.subrange(0, i + 1 - start as int)[i - start as int] == sv[i as int]);
            assert(acc2 == numeral_val(d.subrange(0, i + 1 - start as int)));
        }
        if acc2 > u32::MAX as u64 {
            proof {
                lemma_numeral_prefix(d, i + 1 - start as int);
            }
            return None;
        }
        acc = acc2;
        i = i + 1;
    }
    proof {
        assert(d.subrange(0, n - start as int) =~= d);
    }
    Some(acc as u32)
}

} // verus!
