//! The scanner's mathematical model: a single left-to-right pass that finds
//! the next opening delimiter, then that wrapper's closing delimiter, and
//! splits the input into literal and placeholder segments.

use vstd::prelude::*;
use vstd::string::StrSliceExecFns;

use crate::catalog::Wrapper;
use crate::catalog::prefix_of;
use crate::catalog::suffix_of;
use crate::elements::Element;
use crate::elements::ElemModel;
use crate::elements::Item;
use crate::elements::Policy;
use crate::elements::UnterminatedWrapper;
use crate::elements::lemma_reconstruction_concat;
use crate::elements::lemma_reconstruction_one;
use crate::elements::lemma_views_of_push;
use crate::elements::reconstruction;
use crate::elements::views_of;

verus! {

/// Whether the characters of `p` occur in `s` starting exactly at `i`.
pub open spec fn pattern_matches(s: Seq<char>, i: int, p: Seq<char>) -> bool {
    &&& 0 <= i
    &&& i + p.len() <= s.len()
    &&& s.subrange(i, i + p.len() as int) == p
}

/// Whether `w`'s prefix matches at `i` with room in the rest of the input
/// for an inner region (possibly empty) and a complete suffix.
pub open spec fn wrapper_fits(s: Seq<char>, i: int, w: Wrapper) -> bool {
    &&& pattern_matches(s, i, prefix_of(w))
    &&& i + prefix_of(w).len() + suffix_of(w).len() <= s.len()
}

/// The first wrapper in priority order whose prefix matches at `i` and
/// whose complete form still fits in the remaining input.
pub open spec fn opening_with_room(s: Seq<char>, i: int) -> Option<Wrapper> {
    if wrapper_fits(s, i, Wrapper::DoubleCurly) {
        Some(Wrapper::DoubleCurly)
    } else if wrapper_fits(s, i, Wrapper::CurlyPercent) {
        Some(Wrapper::CurlyPercent)
    } else if wrapper_fits(s, i, Wrapper::CurlyHash) {
        Some(Wrapper::CurlyHash)
    } else if wrapper_fits(s, i, Wrapper::DollarCurly) {
        Some(Wrapper::DollarCurly)
    } else if wrapper_fits(s, i, Wrapper::Curly) {
        Some(Wrapper::Curly)
    } else {
        None
    }
}

/// The first wrapper in priority order whose prefix matches at `i`, with no
/// regard to room: such a wrapper still opens, and is then necessarily
/// unterminated.
pub open spec fn opening_prefix_only(s: Seq<char>, i: int) -> Option<Wrapper> {
    if pattern_matches(s, i, prefix_of(Wrapper::DoubleCurly)) {
        Some(Wrapper::DoubleCurly)
    } else if pattern_matches(s, i, prefix_of(Wrapper::CurlyPercent)) {
        Some(Wrapper::CurlyPercent)
    } else if pattern_matches(s, i, prefix_of(Wrapper::CurlyHash)) {
        Some(Wrapper::CurlyHash)
    } else if pattern_matches(s, i, prefix_of(Wrapper::DollarCurly)) {
        Some(Wrapper::DollarCurly)
    } else if pattern_matches(s, i, prefix_of(Wrapper::Curly)) {
        Some(Wrapper::Curly)
    } else {
        None
    }
}

/// The wrapper, if any, that opens at position `i`: the highest-priority
/// one that fully fits, or else the highest-priority one whose prefix
/// matches (a wrapper too close to the end of the input to ever close).
pub open spec fn opening_at(s: Seq<char>, i: int) -> Option<Wrapper> {
    if opening_with_room(s, i) is Some {
        opening_with_room(s, i)
    } else {
        opening_prefix_only(s, i)
    }
}

/// The least position at or after `i` where a wrapper opens, with that
/// wrapper, or `None` if the rest of the input is all literal text.
pub open spec fn next_open(s: Seq<char>, i: int) -> Option<(int, Wrapper)>
    decreases s.len() - i,
{
    if i >= s.len() {
        None
    } else {
        match opening_at(s, i) {
            Some(w) => Some((i, w)),
            None => next_open(s, i + 1),
        }
    }
}

/// The least position at or after `i` where `w`'s suffix matches, or `None`
/// if it never does.
pub open spec fn find_suffix(s: Seq<char>, w: Wrapper, i: int) -> Option<int>
    decreases s.len() - i,
{
    if i < 0 || i + suffix_of(w).len() > s.len() {
        None
    } else if pattern_matches(s, i, suffix_of(w)) {
        Some(i)
    } else {
        find_suffix(s, w, i + 1)
    }
}

/// Every wrapper's prefix and suffix hold one or two characters.
pub proof fn lemma_delimiter_lens(w: Wrapper)
    ensures
        1 <= prefix_of(w).len() <= 2,
        1 <= suffix_of(w).len() <= 2,
{
}

/// What a found opening position guarantees: it lies at or after the start
/// of the search, within the input, and the chosen wrapper's prefix matches
/// there.
pub proof fn lemma_next_open_props(s: Seq<char>, i: int)
    ensures
        next_open(s, i) matches Some(jw) ==> {
            &&& i <= jw.0 < s.len()
            &&& opening_at(s, jw.0) == Some(jw.1)
            &&& pattern_matches(s, jw.0, prefix_of(jw.1))
        },
    decreases s.len() - i,
{
    if i >= s.len() {
    } else if opening_at(s, i) is Some {
    } else {
        lemma_next_open_props(s, i + 1);
    }
}

/// What a found suffix position guarantees: it lies at or after the start
/// of the search and the suffix matches there (so it also fits the input).
pub proof fn lemma_find_suffix_props(s: Seq<char>, w: Wrapper, i: int)
    ensures
        find_suffix(s, w, i) matches Some(m) ==> {
            &&& i <= m
            &&& pattern_matches(s, m, suffix_of(w))
        },
    decreases s.len() - i,
{
    if i < 0 || i + suffix_of(w).len() > s.len() {
    } else if pattern_matches(s, i, suffix_of(w)) {
    } else {
        lemma_find_suffix_props(s, w, i + 1);
    }
}

/// The scan of `s` from position `i` on: the segments it produces, and,
/// where the input ends inside an open wrapper, that wrapper and the
/// position where its prefix began. In that case the segments are the
/// lenient reading (the whole unterminated region as one literal run);
/// a strict scan fails instead.
pub open spec fn scan_from(s: Seq<char>, i: int) -> (Seq<ElemModel>, Option<(Wrapper, int)>)
    decreases s.len() - i,
{
    match next_open(s, i) {
        None => {
            if i < s.len() {
                (seq![ElemModel::Text(s.subrange(i, s.len() as int))], None)
            } else {
                (Seq::<ElemModel>::empty(), None)
            }
        },
        Some(jw) => {
            let j = jw.0;
            let w = jw.1;
            let pending: Seq<ElemModel> = if i < j {
                seq![ElemModel::Text(s.subrange(i, j))]
            } else {
                Seq::<ElemModel>::empty()
            };
            let istart = j + prefix_of(w).len() as int;
            match find_suffix(s, w, istart) {
                Some(m) => {
                    proof {
                        lemma_next_open_props(s, i);
                        lemma_find_suffix_props(s, w, istart);
                        lemma_delimiter_lens(w);
                    }
                    let rest = scan_from(s, m + suffix_of(w).len() as int);
                    (
                        pending + seq![ElemModel::Wrapped(w, s.subrange(istart, m))] + rest.0,
                        rest.1,
                    )
                },
                None => {
                    (pending + seq![ElemModel::Text(s.subrange(j, s.len() as int))], Some((w, j)))
                },
            }
        },
    }
}

/// The round-trip identity from position `i` on: the segments that the scan
/// produces reconstruct exactly the rest of the input, whether or not the
/// input ends inside an open wrapper.
pub proof fn lemma_scan_from_round_trip(s: Seq<char>, i: int)
    requires
        0 <= i <= s.len(),
    ensures
        reconstruction(scan_from(s, i).0) == s.subrange(i, s.len() as int),
    decreases s.len() - i,
{
    lemma_next_open_props(s, i);
    match next_open(s, i) {
        None => {
            if i < s.len() {
                lemma_reconstruction_one(ElemModel::Text(s.subrange(i, s.len() as int)));
            } else {
                assert(s.subrange(i, s.len() as int) =~= Seq::<char>::empty());
            }
        },
        Some(jw) => {
            let j = jw.0;
            let w = jw.1;
            lemma_delimiter_lens(w);
            let pending: Seq<ElemModel> = if i < j {
                seq![ElemModel::Text(s.subrange(i, j))]
            } else {
                Seq::<ElemModel>::empty()
            };
            let istart = j + prefix_of(w).len() as int;
            assert(reconstruction(pending) =~= s.subrange(i, j)) by {
                if i < j {
                    lemma_reconstruction_one(ElemModel::Text(s.subrange(i, j)));
                } else {
                    assert(s.subrange(i, j) =~= Seq::<char>::empty());
                }
            }
            lemma_find_suffix_props(s, w, istart);
            match find_suffix(s, w, istart) {
                Some(m) => {
                    let slen = suffix_of(w).len() as int;
                    let wrapped = seq![ElemModel::Wrapped(w, s.subrange(istart, m))];
                    lemma_scan_from_round_trip(s, m + slen);
                    lemma_reconstruction_concat(pending + wrapped, scan_from(s, m + slen).0);
                    lemma_reconstruction_concat(pending, wrapped);
                    lemma_reconstruction_one(ElemModel::Wrapped(w, s.subrange(istart, m)));
                    assert(prefix_of(w) =~= s.subrange(j, istart));
                    assert(suffix_of(w) =~= s.subrange(m, m + slen));
                    assert(scan_from(s, i).0 == (pending + wrapped) + scan_from(s, m + slen).0);
                    assert(reconstruction(scan_from(s, i).0) =~= s.subrange(i, s.len() as int));
                },
                None => {
                    let tail = seq![ElemModel::Text(s.subrange(j, s.len() as int))];
                    lemma_reconstruction_concat(pending, tail);
                    lemma_reconstruction_one(ElemModel::Text(s.subrange(j, s.len() as int)));
                    assert(reconstruction(scan_from(s, i).0) =~= s.subrange(i, s.len() as int));
                },
            }
        },
    }
}

/// The segments that a scan of `s` produces under the lenient policy.
pub open spec fn scan_elems(s: Seq<char>) -> Seq<ElemModel> {
    scan_from(s, 0).0
}

/// The unterminated wrapper that a scan of `s` runs into, if any: the
/// wrapper and the position where its prefix began.
pub open spec fn scan_issue(s: Seq<char>) -> Option<(Wrapper, int)> {
    scan_from(s, 0).1
}

/// Searching on from a position where no wrapper opens finds the same next
/// opening.
proof fn lemma_next_open_step(s: Seq<char>, t: int, j: int, w: Wrapper)
    requires
        0 <= t <= j < s.len(),
        forall|k: int| t <= k < j ==> opening_at(s, k) is None,
        opening_at(s, j) == Some(w),
    ensures
        next_open(s, t) == Some((j, w)),
    decreases j - t,
{
    if t < j {
        lemma_next_open_step(s, t + 1, j, w);
    }
}

/// Where no wrapper opens anywhere in the rest of the input, there is no
/// next opening.
proof fn lemma_next_open_none(s: Seq<char>, t: int)
    requires
        0 <= t <= s.len(),
        forall|k: int| t <= k < s.len() ==> opening_at(s, k) is None,
    ensures
        next_open(s, t) is None,
    decreases s.len() - t,
{
    if t < s.len() {
        lemma_next_open_none(s, t + 1);
    }
}

/// A position where the suffix matches, with no match anywhere before it,
/// is exactly what the suffix search returns.
proof fn lemma_find_suffix_found(s: Seq<char>, w: Wrapper, from: int, m: int)
    requires
        0 <= from <= m,
        forall|u: int| from <= u < m ==> !pattern_matches(s, u, suffix_of(w)),
        pattern_matches(s, m, suffix_of(w)),
    ensures
        find_suffix(s, w, from) == Some(m),
    decreases m - from,
{
    if from < m {
        lemma_find_suffix_found(s, w, from + 1, m);
    }
}

/// Where the suffix matches nowhere before a point past which it can no
/// longer fit, the suffix search fails.
proof fn lemma_find_suffix_not_found(s: Seq<char>, w: Wrapper, from: int, k: int)
    requires
        0 <= from <= k,
        forall|u: int| from <= u < k ==> !pattern_matches(s, u, suffix_of(w)),
        k + suffix_of(w).len() > s.len(),
    ensures
        find_suffix(s, w, from) is None,
    decreases k - from,
{
    if from + suffix_of(w).len() <= s.len() {
        lemma_find_suffix_not_found(s, w, from + 1, k);
    }
}

/// Whether the characters of `pat` occur in `s` starting exactly at `i`.
fn matches_at(s: &str, n: usize, i: usize, pat: &str) -> (r: bool)
    requires
        n == s@.len(),
        i <= n,
    ensures
        r == pattern_matches(s@, i as int, pat@),
{
    let m = pat.unicode_len();
    if m > n - i {
        return false;
    }
    let mut k: usize = 0;
    while k < m
        invariant
            n == s@.len(),
            m == pat@.len(),
            i + m <= n,
            k <= m,
            forall|q: int| 0 <= q < k ==> s@[i + q] == pat@[q],
        decreases m - k,
    {
        let cs = s.get_char(i + k);
        let cp = pat.get_char(k);
        if cs != cp {
            proof {
                assert(!pattern_matches(s@, i as int, pat@)) by {
                    if pattern_matches(s@, i as int, pat@) {
                        assert(s@.subrange(i as int, i + m as int)[k as int] == pat@[k as int]);
                    }
                }
            }
            return false;
        }
        k += 1;
    }
    proof {
        assert(s@.subrange(i as int, i + m as int) =~= pat@);
    }
    true
}

/// Whether `w`'s prefix matches at `i` with room left for its suffix.
fn fits_at(s: &str, n: usize, i: usize, w: &Wrapper) -> (r: bool)
    requires
        n == s@.len(),
        i <= n,
    ensures
        r == wrapper_fits(s@, i as int, *w),
{
    let p = w.get_prefix();
    let q = w.get_suffix();
    let pl = p.unicode_len();
    let ql = q.unicode_len();
    if n - i < pl + ql {
        false
    } else {
        matches_at(s, n, i, p)
    }
}

/// Whether `w`'s prefix matches at `i`, with no regard to room.
fn prefix_at(s: &str, n: usize, i: usize, w: &Wrapper) -> (r: bool)
    requires
        n == s@.len(),
        i <= n,
    ensures
        r == pattern_matches(s@, i as int, prefix_of(*w)),
{
    let p = w.get_prefix();
    matches_at(s, n, i, p)
}

/// The wrapper, if any, that opens at position `i`, chosen as `opening_at`
/// describes: candidates in priority order, those that fully fit first.
fn opening_at_exec(s: &str, n: usize, i: usize) -> (r: Option<Wrapper>)
    requires
        n == s@.len(),
        i <= n,
    ensures
        r == opening_at(s@, i as int),
{
    if fits_at(s, n, i, &Wrapper::DoubleCurly) {
        Some(Wrapper::DoubleCurly)
    } else if fits_at(s, n, i, &Wrapper::CurlyPercent) {
        Some(Wrapper::CurlyPercent)
    } else if fits_at(s, n, i, &Wrapper::CurlyHash) {
        Some(Wrapper::CurlyHash)
    } else if fits_at(s, n, i, &Wrapper::DollarCurly) {
        Some(Wrapper::DollarCurly)
    } else if fits_at(s, n, i, &Wrapper::Curly) {
        Some(Wrapper::Curly)
    } else if prefix_at(s, n, i, &Wrapper::DoubleCurly) {
        Some(Wrapper::DoubleCurly)
    } else if prefix_at(s, n, i, &Wrapper::CurlyPercent) {
        Some(Wrapper::CurlyPercent)
    } else if prefix_at(s, n, i, &Wrapper::CurlyHash) {
        Some(Wrapper::CurlyHash)
    } else if prefix_at(s, n, i, &Wrapper::DollarCurly) {
        Some(Wrapper::DollarCurly)
    } else if prefix_at(s, n, i, &Wrapper::Curly) {
        Some(Wrapper::Curly)
    } else {
        None
    }
}

/// The least position at or after `istart` where `w`'s suffix matches, or
/// `None` if the suffix occurs nowhere in the rest of the input.
fn find_suffix_exec(s: &str, n: usize, w: &Wrapper, istart: usize) -> (r: Option<usize>)
    requires
        n == s@.len(),
        istart <= n,
    ensures
        match r {
            Some(m) => istart <= m <= n && find_suffix(s@, *w, istart as int) == Some(m as int),
            None => find_suffix(s@, *w, istart as int) is None,
        },
{
    let q = w.get_suffix();
    let ql = q.unicode_len();
    proof {
        lemma_delimiter_lens(*w);
    }
    let mut k: usize = istart;
    while n - k >= ql
        invariant
            n == s@.len(),
            q@ == suffix_of(*w),
            ql == suffix_of(*w).len(),
            istart <= k <= n,
            forall|u: int| istart <= u < k ==> !pattern_matches(s@, u, suffix_of(*w)),
        decreases n - k,
    {
        if matches_at(s, n, k, q) {
            proof {
                lemma_find_suffix_found(s@, *w, istart as int, k as int);
            }
            return Some(k);
        }
        k += 1;
    }
    proof {
        lemma_find_suffix_not_found(s@, *w, istart as int, k as int);
    }
    None
}

/// Scans `s` left to right into its literal and placeholder segments.
///
/// Under the lenient policy the scan never fails: an unterminated wrapper
/// at the end of the input is reclassified as literal text. Under the
/// strict policy that condition is the one error, and the scan fails if
/// and only if the input ends inside an open wrapper.
pub fn scan<'e>(s: &'e str, policy: Policy) -> (r: Result<Vec<Element<'e>>, UnterminatedWrapper>)
    ensures
        policy is Lenient ==> r is Ok,
        policy is Strict ==> (r is Ok <==> scan_issue(s@) is None),
        r matches Ok(v) ==> views_of(v@) == scan_elems(s@),
        r matches Err(e) ==> {
            &&& policy is Strict
            &&& scan_issue(s@) matches Some(wo) && e.wrapper == wo.0 && e.offset as int == wo.1
        },
{
    let n = s.unicode_len();
    let mut elems: Vec<Element<'e>> = Vec::new();
    let mut t: usize = 0;
    let mut i: usize = 0;
    proof {
        assert(views_of(elems@) =~= Seq::<ElemModel>::empty());
        assert(Seq::<ElemModel>::empty() + scan_from(s@, 0).0 =~= scan_from(s@, 0).0);
    }
    while i < n
        invariant
            n == s@.len(),
            t <= i <= n,
            forall|k: int| t <= k < i ==> opening_at(s@, k) is None,
            views_of(elems@) + scan_from(s@, t as int).0 == scan_elems(s@),
            scan_from(s@, t as int).1 == scan_issue(s@),
        decreases n - i,
    {
        match opening_at_exec(s, n, i) {
            None => {
                i += 1;
            },
            Some(w) => {
                proof {
                    lemma_next_open_step(s@, t as int, i as int, w);
                    assert(pattern_matches(s@, i as int, prefix_of(w)));
                    lemma_delimiter_lens(w);
                }
                let ghost pre = elems@;
                let ghost pending: Seq<ElemModel> = if t < i {
                    seq![ElemModel::Text(s@.subrange(t as int, i as int))]
                } else {
                    Seq::<ElemModel>::empty()
                };
                if t < i {
                    let run = s.substring_char(t, i);
                    elems.push(Element::Text(run));
                    proof {
                        lemma_views_of_push(pre, Element::Text(run));
                    }
                }
                proof {
                    assert(views_of(elems@) =~= views_of(pre) + pending);
                }
                let pl = w.get_prefix().unicode_len();
                let ql = w.get_suffix().unicode_len();
                let istart = i + pl;
                match find_suffix_exec(s, n, &w, istart) {
                    Some(m) => {
                        proof {
                            lemma_find_suffix_props(s@, w, istart as int);
                        }
                        let inner = s.substring_char(istart, m);
                        let ghost mid = elems@;
                        let item = Item::new(w, inner);
                        let ghost wv = ElemModel::Wrapped(item.wrapper, inner@);
                        elems.push(Element::Wrapped(item));
                        proof {
                            lemma_views_of_push(mid, Element::Wrapped(item));
                            let rest = scan_from(s@, m + ql as int);
                            assert(scan_from(s@, t as int).0 == (pending + seq![wv]) + rest.0);
                            assert(scan_from(s@, t as int).1 == rest.1);
                            assert(views_of(elems@) =~= views_of(pre) + (pending + seq![wv]));
                            assert(views_of(elems@) + rest.0 =~= (views_of(pre) + ((pending
                                + seq![wv]) + rest.0)));
                            assert(views_of(pre) + scan_from(s@, t as int).0 =~= views_of(elems@)
                                + rest.0);
                        }
                        i = m + ql;
                        t = i;
                    },
                    None => {
                        proof {
                            let ghost tail = ElemModel::Text(
                                s@.subrange(i as int, s@.len() as int),
                            );
                            assert(scan_from(s@, t as int).0 == pending + seq![tail]);
                            assert(scan_from(s@, t as int).1 == Some((w, i as int)));
                        }
                        match policy {
                            Policy::Strict => {
                                return Err(UnterminatedWrapper { wrapper: w, offset: i });
                            },
                            Policy::Lenient => {
                                let ghost mid = elems@;
                                let run = s.substring_char(i, n);
                                elems.push(Element::Text(run));
                                proof {
                                    lemma_views_of_push(mid, Element::Text(run));
                                    assert(views_of(elems@) =~= views_of(pre) + (pending + seq![
                                        ElemModel::Text(s@.subrange(i as int, s@.len() as int)),
                                    ]));
                                    assert(views_of(elems@) =~= views_of(pre) + scan_from(
                                        s@,
                                        t as int,
                                    ).0);
                                }
                                return Ok(elems);
                            },
                        }
                    },
                }
            },
        }
    }
    proof {
        lemma_next_open_none(s@, t as int);
    }
    if t < n {
        let ghost pre = elems@;
        let run = s.substring_char(t, n);
        elems.push(Element::Text(run));
        proof {
            lemma_views_of_push(pre, Element::Text(run));
            assert(views_of(elems@) =~= views_of(pre) + scan_from(s@, t as int).0);
        }
    } else {
        proof {
            assert(views_of(elems@) + scan_from(s@, t as int).0 =~= views_of(elems@));
        }
    }
    Ok(elems)
}

/// Scans `s` under the strict policy: the segments of the input, or the
/// `UnterminatedWrapper` error where the input ends inside an open wrapper.
pub fn parse<'e>(s: &'e str) -> (r: Result<Vec<Element<'e>>, UnterminatedWrapper>)
    ensures
        r is Ok <==> scan_issue(s@) is None,
        r matches Ok(v) ==> views_of(v@) == scan_elems(s@),
        r matches Err(e) ==> (scan_issue(s@) matches Some(wo) && e.wrapper == wo.0 && e.offset
            as int == wo.1),
{
    scan(s, Policy::Strict)
}

/// Round-trip identity: concatenating, for each segment of a lenient scan,
/// the literal text verbatim or the placeholder as prefix, interior text
/// and suffix, reproduces the scanned input character for character.
pub proof fn lemma_scan_round_trip(s: Seq<char>)
    ensures
        reconstruction(scan_elems(s)) == s,
{
    lemma_scan_from_round_trip(s, 0);
    assert(s.subrange(0, s.len() as int) =~= s);
}

} // verus!
