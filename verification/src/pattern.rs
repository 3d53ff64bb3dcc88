//! Byte patterns with wildcards and the skip-table search for them.

use crate::error::ProcessError;
use crate::text::{exact, lemma_render_reads_back, parse_spec, render_pattern};
use vstd::prelude::*;

verus! {

/// An ordered sequence of byte specifiers: `Some(b)` demands the byte `b`,
/// `None` is the wildcard and accepts any byte.
#[derive(Debug)]
pub struct Pattern {
    pub specs: Vec<Option<u8>>,
}

impl View for Pattern {
    type V = Seq<Option<u8>>;

    open spec fn view(&self) -> Seq<Option<u8>> {
        self.specs@
    }
}

/// Whether one specifier accepts one byte.
pub open spec fn accepts(spec: Option<u8>, b: u8) -> bool {
    spec is None || spec == Some(b)
}

/// Whether the pattern lies in `data` at offset `o`: the window is inside the
/// data and every specifier accepts the byte under it.
pub open spec fn matches_at(pat: Seq<Option<u8>>, data: Seq<u8>, o: int) -> bool {
    &&& 0 <= o
    &&& o + pat.len() <= data.len()
    &&& forall|i: int| 0 <= i < pat.len() ==> accepts(#[trigger] pat[i], data[o + i])
}

/// The plain left-to-right scan that starts at offset `i`: try each offset in
/// turn, report a match and go on behind it. This is what a search reports
/// from `i` on; an empty pattern matches nowhere.
pub open spec fn scan_from(pat: Seq<Option<u8>>, data: Seq<u8>, i: int) -> Seq<int>
    decreases data.len() - i,
{
    if pat.len() == 0 || i < 0 || i + pat.len() > data.len() {
        Seq::empty()
    } else if matches_at(pat, data, i) {
        seq![i] + scan_from(pat, data, i + pat.len())
    } else {
        scan_from(pat, data, i + 1)
    }
}

/// The first element alone, where there is one.
pub open spec fn first_only(s: Seq<int>) -> Seq<int> {
    if s.len() > 0 {
        seq![s[0]]
    } else {
        s
    }
}

/// The offsets that a search of `data` for `pat` reports.
pub open spec fn search_spec(pat: Seq<Option<u8>>, data: Seq<u8>, find_first: bool) -> Seq<int> {
    if find_first {
        first_only(scan_from(pat, data, 0))
    } else {
        scan_from(pat, data, 0)
    }
}

/// Whether the machine integers `r` are the mathematical integers `e`, each moved by `base`.
pub open spec fn reports(r: Seq<usize>, e: Seq<int>, base: int) -> bool {
    &&& r.len() == e.len()
    &&& forall|k: int| 0 <= k < r.len() ==> #[trigger] r[k] as int == base + e[k]
}

/// The index of the last wildcard of a pattern, 0 where it has none.
pub open spec fn last_wildcard(pat: Seq<Option<u8>>) -> int
    decreases pat.len(),
{
    if pat.len() == 0 {
        0
    } else if pat.last() is None {
        pat.len() - 1
    } else {
        last_wildcard(pat.drop_last())
    }
}

/// The index that a window is next aligned on when the byte `b` follows it:
/// the last index from 1 on whose specifier accepts `b`, 0 where there is none.
/// With a wildcard in the pattern this is the last specifier behind the last
/// wildcard that demands `b`, or else the last wildcard itself.
pub open spec fn anchor_index(pat: Seq<Option<u8>>, b: u8) -> int
    decreases pat.len(),
{
    if pat.len() <= 1 {
        0
    } else if accepts(pat.last(), b) {
        pat.len() - 1
    } else {
        anchor_index(pat.drop_last(), b)
    }
}

/// The skip distance for the byte `b` that follows a window: the pattern's
/// length less the index of the last specifier behind the last wildcard that
/// demands `b`, or less the index of the last wildcard where none does.
pub open spec fn skip_distance(pat: Seq<Option<u8>>, b: u8) -> int {
    pat.len() - anchor_index(pat, b)
}

/// Behind the last wildcard every specifier demands a byte, and the last
/// wildcard is a wildcard unless its index is 0.
pub proof fn lemma_last_wildcard(pat: Seq<Option<u8>>)
    ensures
        0 <= last_wildcard(pat),
        pat.len() > 0 ==> last_wildcard(pat) < pat.len(),
        last_wildcard(pat) > 0 ==> pat[last_wildcard(pat)] is None,
        forall|j: int| last_wildcard(pat) < j < pat.len() ==> (#[trigger] pat[j]) is Some,
    decreases pat.len(),
{
    if pat.len() > 0 && pat.last() is Some {
        lemma_last_wildcard(pat.drop_last());
        assert forall|j: int| last_wildcard(pat) < j < pat.len() implies (#[trigger] pat[j]) is Some by {
            if j < pat.len() - 1 {
                assert(pat[j] == pat.drop_last()[j]);
            }
        }
    }
}

/// The anchor is an index of the pattern, and no specifier behind it accepts the byte.
pub proof fn lemma_anchor_index(pat: Seq<Option<u8>>, b: u8)
    ensures
        0 <= anchor_index(pat, b),
        pat.len() > 0 ==> anchor_index(pat, b) < pat.len(),
        forall|k: int| anchor_index(pat, b) < k < pat.len() ==> !accepts(#[trigger] pat[k], b),
    decreases pat.len(),
{
    if pat.len() > 1 && !accepts(pat.last(), b) {
        lemma_anchor_index(pat.drop_last(), b);
        assert forall|k: int| anchor_index(pat, b) < k < pat.len() implies !accepts(
            #[trigger] pat[k],
            b,
        ) by {
            if k < pat.len() - 1 {
                assert(pat[k] == pat.drop_last()[k]);
            }
        }
    }
}

/// The skip distances by the last wildcard: for a byte that a specifier
/// behind the last wildcard demands, the anchor is the last such specifier;
/// for every other byte it is the last wildcard.
pub proof fn lemma_anchor_by_last_wildcard(pat: Seq<Option<u8>>, b: u8, j: int)
    ensures
        (forall|k: int| last_wildcard(pat) < k < pat.len() ==> #[trigger] pat[k] != Some(b))
            ==> anchor_index(pat, b) == last_wildcard(pat),
        last_wildcard(pat) < j < pat.len() && pat[j] == Some(b) && (forall|k: int|
            j < k < pat.len() ==> #[trigger] pat[k] != Some(b)) ==> anchor_index(pat, b) == j,
    decreases pat.len(),
{
    lemma_last_wildcard(pat);
    if pat.len() > 1 {
        let init = pat.drop_last();
        let end = pat.len() - 1;
        if pat.last() is None {
        } else if pat.last() == Some(b) {
            assert(pat[end] == Some(b));
        } else {
            lemma_anchor_by_last_wildcard(init, b, j);
            if forall|k: int| last_wildcard(pat) < k < pat.len() ==> #[trigger] pat[k] != Some(b) {
                assert forall|k: int| last_wildcard(init) < k < init.len() implies #[trigger] init[k]
                    != Some(b) by {
                    assert(init[k] == pat[k]);
                }
            }
            if last_wildcard(pat) < j < pat.len() && pat[j] == Some(b) && (forall|k: int|
                j < k < pat.len() ==> #[trigger] pat[k] != Some(b)) {
                assert(j < end);
                assert(init[j] == pat[j]);
                assert forall|k: int| j < k < init.len() implies #[trigger] init[k] != Some(b) by {
                    assert(init[k] == pat[k]);
                }
            }
        }
    }
}

/// Offsets without a match can be passed over: the scan from `i` reports what
/// the scan from `j` reports.
pub proof fn lemma_scan_skip(pat: Seq<Option<u8>>, data: Seq<u8>, i: int, j: int)
    requires
        0 <= i <= j,
        forall|k: int| i <= k < j ==> !matches_at(pat, data, k),
    ensures
        scan_from(pat, data, i) == scan_from(pat, data, j),
    decreases j - i,
{
    if i < j {
        if pat.len() == 0 || i + pat.len() > data.len() {
            assert(scan_from(pat, data, j) == Seq::<int>::empty());
        } else {
            assert(!matches_at(pat, data, i));
            lemma_scan_skip(pat, data, i + 1, j);
        }
    }
}

/// A mismatching window followed by the byte `data[i + pat.len()]` can move
/// on by that byte's skip distance without passing a match.
pub proof fn lemma_skip_is_safe(pat: Seq<Option<u8>>, data: Seq<u8>, i: int)
    requires
        0 <= i,
        i + pat.len() < data.len(),
        !matches_at(pat, data, i),
    ensures
        1 <= skip_distance(pat, data[i + pat.len()]) <= pat.len(),
        scan_from(pat, data, i) == scan_from(
            pat,
            data,
            i + skip_distance(pat, data[i + pat.len()]),
        ),
{
    let m = pat.len() as int;
    let b = data[i + m];
    let s = skip_distance(pat, b);
    lemma_anchor_index(pat, b);
    if m == 0 {
        assert(matches_at(pat, data, i));
    }
    assert forall|k: int| i <= k < i + s implies !matches_at(pat, data, k) by {
        if k > i {
            let q = i + m - k;
            assert(anchor_index(pat, b) < q < m);
            assert(!accepts(pat[q], b));
            assert(data[k + q] == b);
        }
    }
    lemma_scan_skip(pat, data, i, i + s);
}

impl Pattern {
    /// The pattern that demands exactly the given bytes.
    pub fn from_bytes(bytes: &[u8]) -> (p: Pattern)
        ensures
            p@ == bytes@.map_values(|b: u8| Some(b)),
    {
        let mut specs: Vec<Option<u8>> = Vec::new();
        let mut i: usize = 0;
        while i < bytes.len()
            invariant
                i <= bytes.len(),
                specs@ == bytes@.take(i as int).map_values(|b: u8| Some(b)),
            decreases bytes.len() - i,
        {
            specs.push(Some(bytes[i]));
            i += 1;
            assert(specs@ =~= bytes@.take(i as int).map_values(|b: u8| Some(b)));
        }
        assert(bytes@.take(i as int) =~= bytes@);
        Pattern { specs }
    }

    /// The number of specifiers.
    pub fn len(&self) -> (n: usize)
        ensures
            n == self@.len(),
    {
        self.specs.len()
    }

    /// The index of the last wildcard, 0 where the pattern has none.
    pub fn last_wildcard(&self) -> (w: usize)
        ensures
            w == last_wildcard(self@),
    {
        let mut i: usize = self.specs.len();
        assert(self@.take(i as int) =~= self@);
        while i > 0
            invariant
                i <= self.specs.len(),
                last_wildcard(self@) == last_wildcard(self@.take(i as int)),
            decreases i,
        {
            if self.specs[i - 1].is_none() {
                return i - 1;
            }
            assert(self@.take(i as int).drop_last() =~= self@.take(i - 1));
            i -= 1;
        }
        0
    }

    /// The 256 skip distances of the pattern, one for each byte value.
    pub fn skip_table(&self) -> (table: Vec<usize>)
        requires
            self@.len() > 0,
        ensures
            table@.len() == 256,
            forall|b: u8| #[trigger] table@[b as int] == skip_distance(self@, b),
    {
        let m = self.specs.len();
        let w = self.last_wildcard();
        proof {
            lemma_last_wildcard(self@);
        }
        let mut table: Vec<usize> = Vec::new();
        let mut v: usize = 0;
        while v < 256
            invariant
                v <= 256,
                table@.len() == v,
                w < m,
                forall|k: int| 0 <= k < v ==> #[trigger] table@[k] == m - w,
            decreases 256 - v,
        {
            table.push(m - w);
            v += 1;
        }
        let mut i: usize = w + 1;
        proof {
            assert forall|b: u8| anchor_index(self@.take(i as int), b) == w by {
                let head = self@.take(i as int);
                if w > 0 {
                    assert(head.last() == self@[w as int]);
                }
            }
        }
        while i < m
            invariant
                w < i <= m,
                m == self@.len(),
                table@.len() == 256,
                forall|j: int| w < j < m ==> (#[trigger] self@[j]) is Some,
                forall|b: u8| #[trigger] table@[b as int] == m - anchor_index(self@.take(i as int), b),
            decreases m - i,
        {
            let ghost before = table@;
            match self.specs[i] {
                Some(b) => {
                    table[b as usize] = m - i;
                },
                None => {},
            }
            proof {
                let head = self@.take(i + 1);
                assert(head.drop_last() =~= self@.take(i as int));
                assert(head.last() == self@[i as int]);
                assert forall|b: u8| #[trigger] table@[b as int] == m - anchor_index(head, b) by {
                    assert(before[b as int] == m - anchor_index(self@.take(i as int), b));
                }
            }
            i += 1;
        }
        assert(self@.take(m as int) =~= self@);
        table
    }
}

/// Tells whether one specifier accepts one byte.
pub fn accepts_byte(spec: Option<u8>, b: u8) -> (r: bool)
    ensures
        r == accepts(spec, b),
{
    match spec {
        Some(demanded) => demanded == b,
        None => true,
    }
}

/// Searches `data` for `pattern` with the skip table and returns the offsets
/// of the matches in rising order, each match found behind the one before it;
/// with `find_first` the first of them alone.
pub fn search(pattern: &Pattern, data: &[u8], find_first: bool) -> (offsets: Vec<usize>)
    ensures
        reports(offsets@, search_spec(pattern@, data@, find_first), 0),
        forall|k: int| 0 <= k < offsets@.len() ==> matches_at(pattern@, data@, #[trigger] offsets@[k] as int),
{
    proof {
        lemma_search_reports_matches(pattern@, data@, find_first);
    }
    let mut result: Vec<usize> = Vec::new();
    let m = pattern.len();
    let n = data.len();
    if m == 0 || n < m {
        return result;
    }
    let table = pattern.skip_table();
    let ghost mut found: Seq<int> = Seq::empty();
    let mut i: usize = 0;
    while i <= n - m
        invariant
            m == pattern@.len(),
            n == data@.len(),
            0 < m <= n,
            i <= n,
            table@.len() == 256,
            forall|b: u8| #[trigger] table@[b as int] == skip_distance(pattern@, b),
            reports(result@, found, 0),
            find_first ==> found.len() == 0,
            scan_from(pattern@, data@, 0) == found + scan_from(pattern@, data@, i as int),
        ensures
            reports(result@, found, 0),
            find_first ==> found.len() == 0,
            scan_from(pattern@, data@, 0) == found,
        decreases n - i,
    {
        let mut j: usize = 0;
        while j < m && accepts_byte(pattern.specs[j], data[i + j])
            invariant
                m == pattern@.len(),
                n == data@.len(),
                i + m <= n,
                j <= m,
                forall|k: int| 0 <= k < j ==> accepts(#[trigger] pattern@[k], data@[i + k]),
            ensures
                j <= m,
                j == m <==> matches_at(pattern@, data@, i as int),
            decreases m - j,
        {
            j += 1;
        }
        if j == m {
            result.push(i);
            if find_first {
                assert(search_spec(pattern@, data@, true) =~= seq![i as int]);
                return result;
            }
            proof {
                let ghost grown = found.push(i as int);
                assert(grown + scan_from(pattern@, data@, i + m) =~= found + scan_from(
                    pattern@,
                    data@,
                    i as int,
                ));
                found = grown;
            }
            i += m;
        } else {
            if i + m >= n {
                proof {
                    assert(scan_from(pattern@, data@, i + 1) == Seq::<int>::empty());
                    assert(found + Seq::<int>::empty() =~= found);
                }
                break;
            }
            let next = data[i + m];
            proof {
                lemma_skip_is_safe(pattern@, data@, i as int);
                assert(table@[next as int] == skip_distance(pattern@, next));
            }
            i += table[next as usize];
        }
    }
    proof {
        if i > n - m {
            assert(scan_from(pattern@, data@, i as int) == Seq::<int>::empty());
            assert(found + Seq::<int>::empty() =~= found);
        }
    }
    result
}

/// The address that offsets are counted from: the given base, or 0 without one.
pub open spec fn base_of(base: Option<usize>) -> int {
    match base {
        Some(b) => b as int,
        None => 0,
    }
}

/// Every offset of the plain scan from `i` is at or behind `i` and is a
/// match, and each lies behind the whole match before it.
pub proof fn lemma_scan_reports_matches(pat: Seq<Option<u8>>, data: Seq<u8>, i: int)
    ensures
        forall|k: int|
            0 <= k < scan_from(pat, data, i).len() ==> i <= #[trigger] scan_from(pat, data, i)[k]
                && matches_at(pat, data, scan_from(pat, data, i)[k]),
        forall|k: int|
            0 < k < scan_from(pat, data, i).len() ==> scan_from(pat, data, i)[k - 1] + pat.len()
                <= #[trigger] scan_from(pat, data, i)[k],
    decreases data.len() - i,
{
    let found = scan_from(pat, data, i);
    if pat.len() == 0 || i < 0 || i + pat.len() > data.len() {
        assert(found.len() == 0);
    } else if matches_at(pat, data, i) {
        let rest = scan_from(pat, data, i + pat.len());
        lemma_scan_reports_matches(pat, data, i + pat.len());
        assert(found =~= seq![i] + rest);
        assert(found.len() == rest.len() + 1);
        assert(found[0] == i);
        assert forall|k: int| 0 <= k < found.len() implies i <= #[trigger] found[k] && matches_at(
            pat,
            data,
            found[k],
        ) by {
            if k > 0 {
                assert(found[k] == rest[k - 1]);
            }
        }
        assert forall|k: int| 0 < k < found.len() implies found[k - 1] + pat.len()
            <= #[trigger] found[k] by {
            assert(found[k] == rest[k - 1]);
            if k > 1 {
                assert(found[k - 1] == rest[k - 2]);
            }
        }
    } else {
        lemma_scan_reports_matches(pat, data, i + 1);
        assert(found == scan_from(pat, data, i + 1));
    }
}

/// Every offset that a search reports is a match: each specifier of the
/// pattern is the wildcard or demands the byte that lies under it.
pub proof fn lemma_search_reports_matches(pat: Seq<Option<u8>>, data: Seq<u8>, find_first: bool)
    ensures
        forall|k: int|
            0 <= k < search_spec(pat, data, find_first).len() ==> matches_at(
                pat,
                data,
                #[trigger] search_spec(pat, data, find_first)[k],
            ),
        forall|k: int, i: int|
            0 <= k < search_spec(pat, data, find_first).len() && 0 <= i < pat.len() ==> pat[i] is None
                || pat[i] == Some(#[trigger] data[search_spec(pat, data, find_first)[k] + i]),
{
    lemma_scan_reports_matches(pat, data, 0);
    let found = search_spec(pat, data, find_first);
    assert forall|k: int, i: int| 0 <= k < found.len() && 0 <= i < pat.len() implies pat[i] is None
        || pat[i] == Some(#[trigger] data[found[k] + i]) by {
        assert(matches_at(pat, data, found[k]));
        assert(accepts(pat[i], data[found[k] + i]));
    }
}

/// A search for the first match reports at most one offset: the first of
/// those that the full search reports, where that reports any.
pub proof fn lemma_find_first_is_head(pat: Seq<Option<u8>>, data: Seq<u8>)
    ensures
        search_spec(pat, data, true).len() <= 1,
        search_spec(pat, data, false).len() == 0 ==> search_spec(pat, data, true).len() == 0,
        search_spec(pat, data, false).len() > 0 ==> search_spec(pat, data, true) == seq![
            search_spec(pat, data, false)[0],
        ],
{
}

/// The sequence with `by` added to each element.
pub open spec fn shifted(s: Seq<int>, by: int) -> Seq<int> {
    Seq::new(s.len(), |k: int| s[k] + by)
}

/// Every offset from `i` up to, but not including, `j` at which the pattern
/// lies, in rising order. An empty pattern lies nowhere.
pub open spec fn occurrences_in(pat: Seq<Option<u8>>, data: Seq<u8>, i: int, j: int) -> Seq<int>
    decreases j - i,
{
    if pat.len() == 0 || i < 0 || i >= j {
        Seq::empty()
    } else if matches_at(pat, data, i) {
        seq![i] + occurrences_in(pat, data, i + 1, j)
    } else {
        occurrences_in(pat, data, i + 1, j)
    }
}

/// Every offset at which the pattern lies in `data`, in rising order: what
/// a scan that tries each offset in turn reports.
pub open spec fn occurrences(pat: Seq<Option<u8>>, data: Seq<u8>) -> Seq<int> {
    occurrences_in(pat, data, 0, data.len() as int)
}

/// Whether no two places from `i` on at which the pattern lies share a byte.
pub open spec fn occurrences_apart(pat: Seq<Option<u8>>, data: Seq<u8>, i: int) -> bool {
    forall|a: int, b: int|
        i <= a < b && #[trigger] matches_at(pat, data, a) && #[trigger] matches_at(pat, data, b)
            ==> a + pat.len() <= b
}

/// Offsets without a match add nothing to the occurrences.
pub proof fn lemma_occurrences_none(pat: Seq<Option<u8>>, data: Seq<u8>, i: int, j: int)
    requires
        forall|k: int| i <= k < j ==> !matches_at(pat, data, k),
    ensures
        occurrences_in(pat, data, i, j) == Seq::<int>::empty(),
    decreases j - i,
{
    if pat.len() == 0 || i < 0 || i >= j {
    } else {
        assert(!matches_at(pat, data, i));
        lemma_occurrences_none(pat, data, i + 1, j);
    }
}

/// The occurrences in a range are those in its first part, then those in the rest.
pub proof fn lemma_occurrences_split(pat: Seq<Option<u8>>, data: Seq<u8>, i: int, k: int, j: int)
    requires
        0 <= i <= k <= j,
    ensures
        occurrences_in(pat, data, i, j) == occurrences_in(pat, data, i, k) + occurrences_in(
            pat,
            data,
            k,
            j,
        ),
    decreases k - i,
{
    let whole = occurrences_in(pat, data, i, j);
    let head = occurrences_in(pat, data, i, k);
    let tail = occurrences_in(pat, data, k, j);
    if pat.len() == 0 {
        assert(whole =~= head + tail);
    } else if i == k {
        assert(head =~= Seq::<int>::empty());
        assert(whole =~= head + tail);
    } else {
        lemma_occurrences_split(pat, data, i + 1, k, j);
        let next = occurrences_in(pat, data, i + 1, k);
        if matches_at(pat, data, i) {
            assert(whole =~= (seq![i] + next) + tail);
        } else {
            assert(whole =~= next + tail);
        }
    }
}

/// The pattern lies at an offset of a window of the data iff it lies at
/// that place in the data and ends inside the window.
pub proof fn lemma_match_in_window(
    pat: Seq<Option<u8>>,
    data: Seq<u8>,
    lo: int,
    end: int,
    h: int,
)
    requires
        0 <= lo <= end <= data.len(),
        0 <= h,
    ensures
        matches_at(pat, data.subrange(lo, end), h) <==> matches_at(pat, data, lo + h) && lo + h
            + pat.len() <= end,
{
    let window = data.subrange(lo, end);
    if matches_at(pat, window, h) {
        assert forall|i: int| 0 <= i < pat.len() implies accepts(
            #[trigger] pat[i],
            data[lo + h + i],
        ) by {
            assert(accepts(pat[i], window[h + i]));
        }
    }
    if matches_at(pat, data, lo + h) && lo + h + pat.len() <= end {
        assert forall|i: int| 0 <= i < pat.len() implies accepts(#[trigger] pat[i], window[h + i]) by {
            assert(accepts(pat[i], data[lo + h + i]));
        }
    }
}

/// The occurrences in a window of the data, counted from the data's
/// beginning, are the occurrences in the data at those places, as far as the
/// pattern ends inside the window at each of them.
pub proof fn lemma_occurrences_in_window(
    pat: Seq<Option<u8>>,
    data: Seq<u8>,
    lo: int,
    end: int,
    a: int,
    b: int,
)
    requires
        0 <= lo <= end <= data.len(),
        0 <= a,
        b <= a || b + pat.len() <= end - lo + 1,
    ensures
        shifted(occurrences_in(pat, data.subrange(lo, end), a, b), lo) == occurrences_in(
            pat,
            data,
            lo + a,
            lo + b,
        ),
    decreases b - a,
{
    let window = data.subrange(lo, end);
    let inside = occurrences_in(pat, window, a, b);
    let outside = occurrences_in(pat, data, lo + a, lo + b);
    if pat.len() == 0 || a >= b {
        assert(shifted(inside, lo) =~= outside);
    } else {
        lemma_match_in_window(pat, data, lo, end, a);
        lemma_occurrences_in_window(pat, data, lo, end, a + 1, b);
        let next = occurrences_in(pat, window, a + 1, b);
        if matches_at(pat, window, a) {
            assert(shifted(seq![a] + next, lo) =~= seq![lo + a] + shifted(next, lo));
        }
    }
}

/// Where no two occurrences of the pattern share a byte, the plain scan
/// from `i` reports every occurrence from `i` on.
pub proof fn lemma_scan_is_every_occurrence(pat: Seq<Option<u8>>, data: Seq<u8>, i: int)
    requires
        0 <= i,
        occurrences_apart(pat, data, i),
    ensures
        scan_from(pat, data, i) == occurrences_in(pat, data, i, data.len() as int),
    decreases data.len() - i,
{
    let n = data.len() as int;
    if pat.len() == 0 {
    } else if i + pat.len() > n {
        lemma_occurrences_none(pat, data, i, n);
    } else if matches_at(pat, data, i) {
        assert forall|k: int| i + 1 <= k < i + pat.len() implies !matches_at(pat, data, k) by {
            if matches_at(pat, data, k) {
                assert(i + pat.len() <= k);
            }
        }
        lemma_occurrences_none(pat, data, i + 1, i + pat.len());
        lemma_occurrences_split(pat, data, i + 1, i + pat.len(), n);
        assert(Seq::<int>::empty() + occurrences_in(pat, data, i + pat.len(), n)
            =~= occurrences_in(pat, data, i + pat.len(), n));
        lemma_scan_is_every_occurrence(pat, data, i + pat.len());
    } else {
        lemma_scan_is_every_occurrence(pat, data, i + 1);
    }
}

/// A search reports what a scan that tries every offset in turn reports,
/// where no two occurrences of the pattern share a byte. (Where two do, the
/// search goes on behind each match and passes over the second.)
pub proof fn lemma_search_is_naive_scan(pat: Seq<Option<u8>>, data: Seq<u8>)
    requires
        occurrences_apart(pat, data, 0),
    ensures
        search_spec(pat, data, false) == occurrences(pat, data),
        search_spec(pat, data, true) == first_only(occurrences(pat, data)),
{
    lemma_scan_is_every_occurrence(pat, data, 0);
}

/// Searches `data` for a textual pattern. The tokens of the pattern are
/// separated by white space; each is two hex digits or the wildcard `??`.
/// The matches are reported as addresses: offsets into `data` counted from
/// `base`. A pattern without tokens matches nowhere.
pub fn pattern_search(pattern: String, data: &[u8], find_first: bool, base: Option<usize>) -> (r:
    Result<Vec<usize>, ProcessError>)
    requires
        base is Some ==> base->0 + data@.len() <= usize::MAX,
    ensures
        match parse_spec(pattern@) {
            Ok(specs) => r is Ok && reports(
                r->Ok_0@,
                search_spec(specs, data@, find_first),
                base_of(base),
            ) && forall|k: int|
                0 <= k < r->Ok_0@.len() ==> matches_at(
                    specs,
                    data@,
                    #[trigger] r->Ok_0@[k] - base_of(base),
                ),
            Err(e) => r is Err && r->Err_0 == e,
        },
{
    let parsed = Pattern::parse(pattern.as_str());
    match parsed {
        Err(e) => Err(e),
        Ok(compiled) => {
            let offsets = search(&compiled, data, find_first);
            match base {
                None => Ok(offsets),
                Some(origin) => {
                    let mut addresses: Vec<usize> = Vec::new();
                    let mut k: usize = 0;
                    while k < offsets.len()
                        invariant
                            k <= offsets@.len(),
                            origin + data@.len() <= usize::MAX,
                            addresses@.len() == k,
                            forall|q: int|
                                0 <= q < offsets@.len() ==> matches_at(
                                    compiled@,
                                    data@,
                                    #[trigger] offsets@[q] as int,
                                ),
                            forall|q: int|
                                0 <= q < k ==> #[trigger] addresses@[q] == origin + offsets@[q],
                        decreases offsets@.len() - k,
                    {
                        assert(matches_at(compiled@, data@, offsets@[k as int] as int));
                        addresses.push(origin + offsets[k]);
                        k += 1;
                    }
                    Ok(addresses)
                },
            }
        },
    }
}

/// Searches `data` for a run of bytes without wildcards: the bytes are
/// written as a textual pattern, and that is searched for.
pub fn pattern_search2(pattern: &[u8], data: &[u8], find_first: bool, base: Option<usize>) -> (r:
    Result<Vec<usize>, ProcessError>)
    requires
        base is Some ==> base->0 + data@.len() <= usize::MAX,
    ensures
        r is Ok,
        reports(r->Ok_0@, search_spec(exact(pattern@), data@, find_first), base_of(base)),
        forall|k: int|
            0 <= k < r->Ok_0@.len() ==> matches_at(
                exact(pattern@),
                data@,
                #[trigger] r->Ok_0@[k] - base_of(base),
            ),
{
    let text = render_pattern(pattern);
    proof {
        lemma_render_reads_back(pattern@);
    }
    pattern_search(text, data, find_first, base)
}

} // verus!
