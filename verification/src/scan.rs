//! Scanning an address range page by page. The scan is a state machine: it
//! names the next page to read, takes the bytes that were read (or the news
//! that the read failed) and keeps the end of each page, so that a match that
//! lies across two pages is found.

use crate::error::ProcessError;
use crate::pattern::{
    first_only, lemma_match_in_window, lemma_occurrences_in_window, lemma_occurrences_none,
    lemma_occurrences_split, lemma_scan_is_every_occurrence, lemma_search_reports_matches,
    matches_at, occurrences, occurrences_apart, occurrences_in, reports, scan_from, search,
    search_spec, shifted, Pattern,
};
use crate::text::{exact, lemma_render_reads_back, parse_spec, render_pattern};
use vstd::prelude::*;

verus! {

/// The number of bytes kept from one page for the next: one less than the
/// pattern's length.
pub open spec fn keep_len(m: int) -> int {
    if m > 0 {
        m - 1
    } else {
        0
    }
}

/// The trailing bytes of a window that are carried into the next page.
pub open spec fn tail_of(window: Seq<u8>, m: int) -> Seq<u8> {
    if window.len() <= keep_len(m) {
        window
    } else {
        window.skip(window.len() - keep_len(m))
    }
}

/// The mathematical state of a paginated scan.
pub struct ScanState {
    /// The first address of the range.
    pub start: int,
    /// The number of bytes in the range.
    pub size: int,
    /// The number of bytes in a page, but for the last one.
    pub page_size: int,
    /// The pattern searched for.
    pub pattern: Seq<Option<u8>>,
    /// Whether the scan ends with the first match.
    pub find_first: bool,
    /// The number of bytes of the range that lie in pages already handled.
    pub offset: int,
    /// The bytes just before `start + offset` that were kept from the pages before.
    pub carry: Seq<u8>,
    /// The addresses of the matches found so far.
    pub found: Seq<int>,
    /// Whether the scan has ended on a first match.
    pub done: bool,
}

impl ScanState {
    /// The state before the first page.
    pub open spec fn fresh(
        start: int,
        size: int,
        page_size: int,
        pattern: Seq<Option<u8>>,
        find_first: bool,
    ) -> ScanState {
        ScanState {
            start,
            size,
            page_size,
            pattern,
            find_first,
            offset: 0,
            carry: Seq::empty(),
            found: Seq::empty(),
            done: false,
        }
    }

    /// What holds of every state of a scan.
    pub open spec fn wf(self) -> bool {
        &&& 0 <= self.start
        &&& 0 <= self.size
        &&& 0 < self.page_size
        &&& self.start + self.size <= usize::MAX
        &&& 0 <= self.offset <= self.size
        &&& self.carry.len() <= self.offset
        &&& self.carry.len() <= keep_len(self.pattern.len() as int)
        &&& (self.done ==> self.find_first && self.found.len() == 1)
        &&& (self.find_first && !self.done ==> self.found.len() == 0)
        &&& forall|k: int|
            0 <= k < self.found.len() ==> self.start <= #[trigger] self.found[k] < self.start
                + self.offset
    }

    /// The page to read next, as its address and its number of bytes: a whole
    /// page, or what is left of the range. `None` once the scan is over.
    pub open spec fn next_read(self) -> Option<(int, int)> {
        if self.next_count() == 0 {
            None
        } else {
            Some((self.start + self.offset, self.next_count()))
        }
    }

    /// The number of bytes in the page to read next, 0 once the scan is over.
    pub open spec fn next_count(self) -> int {
        if self.done || self.offset >= self.size {
            0
        } else if self.size - self.offset < self.page_size {
            self.size - self.offset
        } else {
            self.page_size
        }
    }

    /// The bytes that are searched when `bytes` were read for the next page:
    /// the carried tail, then the page.
    pub open spec fn window(self, bytes: Seq<u8>) -> Seq<u8> {
        self.carry + bytes
    }

    /// The address of the first byte of the window.
    pub open spec fn origin(self) -> int {
        self.start + self.offset - self.carry.len()
    }

    /// The state after `bytes` were read for the next page. The window is
    /// searched, the offsets found are turned into addresses, and the end of
    /// the window is kept. A scan for the first match ends with the first
    /// page that holds one.
    pub open spec fn after_read(self, bytes: Seq<u8>) -> ScanState {
        let hits = search_spec(self.pattern, self.window(bytes), self.find_first);
        ScanState {
            offset: self.offset + bytes.len(),
            carry: tail_of(self.window(bytes), self.pattern.len() as int),
            found: self.found + shifted(hits, self.origin()),
            done: self.find_first && hits.len() > 0,
            ..self
        }
    }

    /// The state after the next page could not be read: the page is passed
    /// over, and nothing is carried across it.
    pub open spec fn after_failure(self) -> ScanState {
        ScanState {
            offset: self.offset + self.next_count(),
            carry: Seq::empty(),
            ..self
        }
    }

    /// The page that the scan asks for next, cut out of `mem`, where `mem`
    /// holds the bytes of the whole range.
    pub open spec fn next_page(self, mem: Seq<u8>) -> Seq<u8> {
        mem.subrange(self.offset, self.offset + self.next_count())
    }

    /// The state at the end of a scan in which every page is read, and the
    /// bytes of the range are `mem`.
    pub open spec fn run(self, mem: Seq<u8>) -> ScanState
        decreases self.size - self.offset,
    {
        if self.next_count() <= 0 || self.offset < 0 || self.offset + self.next_count()
            > mem.len() {
            self
        } else {
            self.after_read(self.next_page(mem)).run(mem)
        }
    }

    /// Whether the state is what a scan of `mem` without a failed read has
    /// reached: the carried bytes are those before `offset`, and the matches
    /// found are the occurrences that end in the pages handled.
    pub open spec fn agrees_with(self, mem: Seq<u8>) -> bool {
        let c = self.carry.len() as int;
        let p = self.offset - c;
        let occ = occurrences_in(self.pattern, mem, 0, p);
        &&& self.size == mem.len()
        &&& c == vstd::math::min(keep_len(self.pattern.len() as int), self.offset)
        &&& self.carry == mem.subrange(p, self.offset)
        &&& self.found == shifted(
            if self.find_first {
                first_only(occ)
            } else {
                occ
            },
            self.start,
        )
        &&& self.done == (self.find_first && occ.len() > 0)
    }
}

/// One page more, read without failure, keeps a scan in agreement with the
/// bytes of the range.
pub proof fn lemma_page_keeps_agreement(state: ScanState, mem: Seq<u8>)
    requires
        state.wf(),
        state.agrees_with(mem),
        state.next_count() > 0,
        occurrences_apart(state.pattern, mem, 0),
    ensures
        state.after_read(state.next_page(mem)).wf(),
        state.after_read(state.next_page(mem)).agrees_with(mem),
        state.after_read(state.next_page(mem)).size == state.size,
        state.after_read(state.next_page(mem)).offset > state.offset,
        state.after_read(state.next_page(mem)).start == state.start,
        state.after_read(state.next_page(mem)).pattern == state.pattern,
        state.after_read(state.next_page(mem)).find_first == state.find_first,
{
    let pat = state.pattern;
    let m = pat.len() as int;
    let c = state.carry.len() as int;
    let p = state.offset - c;
    let end = state.offset + state.next_count();
    let bytes = state.next_page(mem);
    let window = state.window(bytes);
    let after = state.after_read(bytes);
    let wl = end - p;
    assert(window =~= mem.subrange(p, end));
    let scanned = scan_from(pat, window, 0);
    assert(occurrences_apart(pat, window, 0)) by {
        assert forall|a: int, b: int|
            0 <= a < b && #[trigger] matches_at(pat, window, a) && #[trigger] matches_at(
                pat,
                window,
                b,
            ) implies a + pat.len() <= b by {
            lemma_match_in_window(pat, mem, p, end, a);
            lemma_match_in_window(pat, mem, p, end, b);
        }
    }
    lemma_scan_is_every_occurrence(pat, window, 0);
    let kept = after.carry.len() as int;
    let q = wl - kept;
    assert(kept == vstd::math::min(keep_len(m), wl));
    assert(kept == vstd::math::min(keep_len(m), end));
    lemma_occurrences_split(pat, window, 0, q, wl);
    assert(occurrences_in(pat, window, q, wl) == Seq::<int>::empty()) by {
        if m > 0 {
            assert forall|k: int| q <= k < wl implies !matches_at(pat, window, k) by {}
        }
        lemma_occurrences_none(pat, window, q, wl);
    }
    assert(scanned =~= occurrences_in(pat, window, 0, q));
    lemma_occurrences_in_window(pat, mem, p, end, 0, q);
    let fresh_hits = occurrences_in(pat, mem, p, p + q);
    assert(shifted(scanned, p) == fresh_hits);
    lemma_occurrences_split(pat, mem, 0, p, p + q);
    let occ = occurrences_in(pat, mem, 0, p);
    let occ_after = occurrences_in(pat, mem, 0, p + q);
    assert(occ_after == occ + fresh_hits);
    assert(after.carry =~= mem.subrange(p + q, end));
    let hits = search_spec(pat, window, state.find_first);
    if state.find_first {
        assert(occ.len() == 0);
        assert(occ_after =~= fresh_hits);
        assert(state.found =~= Seq::<int>::empty());
        assert(after.found =~= shifted(first_only(occ_after), state.start)) by {
            if scanned.len() > 0 {
                assert(fresh_hits[0] == scanned[0] + p);
            }
        }
    } else {
        assert(after.found =~= shifted(occ_after, state.start)) by {
            assert forall|k: int| 0 <= k < after.found.len() implies after.found[k] == shifted(
                occ_after,
                state.start,
            )[k] by {
                if k >= occ.len() {
                    assert(fresh_hits[k - occ.len()] == scanned[k - occ.len()] + p);
                }
            }
        }
    }
    assert forall|k: int| 0 <= k < after.found.len() implies state.start
        <= #[trigger] after.found[k] < state.start + after.offset by {
        if k >= state.found.len() {
            let h = k - state.found.len();
            lemma_search_reports_matches(pat, window, state.find_first);
            assert(matches_at(pat, window, hits[h]));
        } else {
            assert(after.found[k] == state.found[k]);
        }
    }
}

/// A scan that agrees with the bytes of its range ends, if every page is
/// read, with what a search of the whole range reports.
pub proof fn lemma_run_reaches_whole_scan(state: ScanState, mem: Seq<u8>)
    requires
        state.wf(),
        state.agrees_with(mem),
        occurrences_apart(state.pattern, mem, 0),
    ensures
        state.run(mem).found == shifted(
            search_spec(state.pattern, mem, state.find_first),
            state.start,
        ),
    decreases state.size - state.offset,
{
    let pat = state.pattern;
    let n = mem.len() as int;
    let m = pat.len() as int;
    if state.next_count() > 0 {
        lemma_page_keeps_agreement(state, mem);
        lemma_run_reaches_whole_scan(state.after_read(state.next_page(mem)), mem);
    } else {
        let c = state.carry.len() as int;
        let p = state.offset - c;
        let occ = occurrences_in(pat, mem, 0, p);
        lemma_scan_is_every_occurrence(pat, mem, 0);
        lemma_occurrences_split(pat, mem, 0, p, n);
        if state.done {
            assert(occurrences(pat, mem)[0] == occ[0]);
        } else {
            assert(state.offset == n);
            assert(occurrences_in(pat, mem, p, n) == Seq::<int>::empty()) by {
                if m > 0 {
                    assert forall|k: int| p <= k < n implies !matches_at(pat, mem, k) by {}
                }
                lemma_occurrences_none(pat, mem, p, n);
            }
            assert(occ + Seq::<int>::empty() =~= occ);
        }
    }
}

/// Scanning a range page by page, whatever the page size, finds what a
/// search of the whole range in one piece finds, also where a match lies
/// across two pages; this holds where no two occurrences of the pattern
/// share a byte and every page is read. (Where two occurrences share a byte
/// and a page ends between their beginnings, the paginated scan reports both
/// and the search in one piece the first alone.)
pub proof fn lemma_paged_scan_is_whole_scan(
    start: int,
    page_size: int,
    pattern: Seq<Option<u8>>,
    mem: Seq<u8>,
    find_first: bool,
)
    requires
        0 <= start,
        0 < page_size,
        start + mem.len() <= usize::MAX,
        occurrences_apart(pattern, mem, 0),
    ensures
        ScanState::fresh(start, mem.len() as int, page_size, pattern, find_first).run(mem).found
            == shifted(search_spec(pattern, mem, find_first), start),
{
    let state = ScanState::fresh(start, mem.len() as int, page_size, pattern, find_first);
    assert(state.carry =~= mem.subrange(0, 0));
    assert(state.found =~= shifted(Seq::<int>::empty(), start));
    lemma_run_reaches_whole_scan(state, mem);
}

/// A paginated scan in progress.
pub struct PageScan {
    start: usize,
    size: usize,
    page_size: usize,
    pattern: Pattern,
    find_first: bool,
    offset: usize,
    carry: Vec<u8>,
    found: Vec<usize>,
    done: bool,
}

impl View for PageScan {
    type V = ScanState;

    closed spec fn view(&self) -> ScanState {
        ScanState {
            start: self.start as int,
            size: self.size as int,
            page_size: self.page_size as int,
            pattern: self.pattern@,
            find_first: self.find_first,
            offset: self.offset as int,
            carry: self.carry@,
            found: self.found@.map_values(|a: usize| a as int),
            done: self.done,
        }
    }
}

impl PageScan {
    /// Begins a scan of `size` bytes from `start` on, in pages of `page_size` bytes.
    pub fn new(start: usize, size: usize, page_size: usize, pattern: Pattern, find_first: bool) -> (s:
        PageScan)
        requires
            page_size > 0,
            start + size <= usize::MAX,
        ensures
            s@ == ScanState::fresh(start as int, size as int, page_size as int, pattern@, find_first),
            s@.wf(),
    {
        let s = PageScan {
            start,
            size,
            page_size,
            pattern,
            find_first,
            offset: 0,
            carry: Vec::new(),
            found: Vec::new(),
            done: false,
        };
        assert(s@.found =~= Seq::<int>::empty());
        s
    }

    /// The page to read next, as its address and its number of bytes; `None`
    /// once the scan is over.
    pub fn next_read(&self) -> (r: Option<(usize, usize)>)
        requires
            self@.wf(),
        ensures
            match self@.next_read() {
                Some((address, count)) => r == Some((address as usize, count as usize)) && count > 0
                    && address + count <= usize::MAX,
                None => r is None,
            },
    {
        if self.done || self.offset >= self.size {
            None
        } else if self.size - self.offset < self.page_size {
            Some((self.start + self.offset, self.size - self.offset))
        } else {
            Some((self.start + self.offset, self.page_size))
        }
    }

    /// Takes the bytes that were read for the next page.
    pub fn page_read(&mut self, bytes: &[u8])
        requires
            old(self)@.wf(),
            old(self)@.next_read() is Some,
            bytes@.len() == old(self)@.next_count(),
        ensures
            final(self)@ == old(self)@.after_read(bytes@),
            final(self)@.wf(),
    {
        let ghost before = self@;
        let m = self.pattern.len();
        let keep = if m > 0 {
            m - 1
        } else {
            0
        };
        let mut window: Vec<u8> = Vec::new();
        window.extend_from_slice(self.carry.as_slice());
        window.extend_from_slice(bytes);
        assert(window@ =~= before.window(bytes@));
        let origin = self.start + self.offset - self.carry.len();
        let hits = search(&self.pattern, window.as_slice(), self.find_first);
        let ghost wanted = search_spec(before.pattern, window@, before.find_first);
        let mut k: usize = 0;
        while k < hits.len()
            invariant
                k <= hits@.len(),
                reports(hits@, wanted, 0),
                origin + window@.len() <= usize::MAX,
                origin == before.origin(),
                window@.len() == before.carry.len() + bytes@.len(),
                self.pattern@ == before.pattern,
                forall|q: int|
                    0 <= q < hits@.len() ==> matches_at(
                        self.pattern@,
                        window@,
                        #[trigger] hits@[q] as int,
                    ),
                self.found@.map_values(|a: usize| a as int) == before.found + shifted(
                    wanted.take(k as int),
                    origin as int,
                ),
                self.start == before.start,
                self.size == before.size,
                self.page_size == before.page_size,
                self.find_first == before.find_first,
                self.offset == before.offset,
                self.carry@ == before.carry,
                self.done == before.done,
            decreases hits@.len() - k,
        {
            assert(matches_at(self.pattern@, window@, hits@[k as int] as int));
            let ghost old_found = self.found@;
            let ghost old_model = old_found.map_values(|a: usize| a as int);
            assert(old_model == before.found + shifted(wanted.take(k as int), origin as int));
            assert(wanted.take(k as int).len() == k);
            assert(shifted(wanted.take(k as int), origin as int).len() == k);
            assert(old_model.len() == before.found.len() + k);
            self.found.push(origin + hits[k]);
            k += 1;
            proof {
                let model = self.found@.map_values(|a: usize| a as int);
                let goal = before.found + shifted(wanted.take(k as int), origin as int);
                assert(self.found@ == old_found.push((origin + hits@[k - 1]) as usize));
                assert(wanted[k - 1] == hits@[k - 1]);
                assert(wanted.take(k as int).len() == k);
                assert(shifted(wanted.take(k as int), origin as int).len() == k);
                assert(model.len() == old_found.len() + 1);
                assert(model.len() == goal.len());
                assert forall|q: int| 0 <= q < model.len() implies model[q] == goal[q] by {
                    if q < old_model.len() {
                        assert(model[q] == old_model[q]);
                        if q >= before.found.len() {
                            let h = q - before.found.len();
                            assert(old_model[q] == shifted(wanted.take(k - 1), origin as int)[h]);
                            assert(goal[q] == shifted(wanted.take(k as int), origin as int)[h]);
                        }
                    } else {
                        assert(q == before.found.len() + k - 1);
                        assert(goal[q] == shifted(wanted.take(k as int), origin as int)[k - 1]);
                    }
                }
                assert(model =~= goal);
            }
        }
        assert(wanted.take(k as int) =~= wanted);
        if self.find_first && hits.len() > 0 {
            self.done = true;
        }
        let total = window.len();
        let from = if total <= keep {
            0
        } else {
            total - keep
        };
        self.carry = vstd::slice::slice_to_vec(
            vstd::slice::slice_subrange(window.as_slice(), from, total),
        );
        assert(self.carry@ =~= tail_of(window@, m as int));
        self.offset = self.offset + bytes.len();
        proof {
            let after = before.after_read(bytes@);
            assert(self@.found == after.found);
            assert(self@ == after);
            assert forall|q: int| 0 <= q < after.found.len() implies before.start
                <= #[trigger] after.found[q] < before.start + after.offset by {
                if q >= before.found.len() {
                    let h = q - before.found.len();
                    assert(after.found[q] == wanted[h] + origin);
                    assert(hits@[h] as int == wanted[h]);
                    assert(matches_at(self.pattern@, window@, hits@[h] as int));
                } else {
                    assert(after.found[q] == before.found[q]);
                }
            }
            if m == 0 {
                assert(wanted.len() == 0);
            }
            assert(before.find_first ==> wanted.len() <= 1);
        }
    }

    /// Takes the news that the next page could not be read.
    pub fn page_failed(&mut self)
        requires
            old(self)@.wf(),
            old(self)@.next_read() is Some,
        ensures
            final(self)@ == old(self)@.after_failure(),
            final(self)@.wf(),
    {
        let count = if self.size - self.offset < self.page_size {
            self.size - self.offset
        } else {
            self.page_size
        };
        let ghost before = self@;
        self.offset = self.offset + count;
        self.carry = Vec::new();
        proof {
            assert(self@.found == before.found);
            assert(self@.carry =~= Seq::<u8>::empty());
            assert forall|k: int| 0 <= k < self@.found.len() implies self@.start
                <= #[trigger] self@.found[k] < self@.start + self@.offset by {
                assert(before.start <= before.found[k] < before.start + before.offset);
            }
        }
    }

    /// Whether the scan is over.
    pub fn is_finished(&self) -> (r: bool)
        requires
            self@.wf(),
        ensures
            r == (self@.next_read() is None),
    {
        self.done || self.offset >= self.size
    }

    /// The addresses found, in the order in which they were found.
    pub fn into_found(self) -> (found: Vec<usize>)
        ensures
            reports(found@, self@.found, 0),
    {
        self.found
    }
}

/// Begins a paginated scan of `size` bytes from `start` on for a textual
/// pattern. A malformed pattern is reported here, before any page is read.
pub fn remote_pattern_search(
    start: usize,
    size: usize,
    page_size: usize,
    pattern: String,
    find_first: bool,
) -> (r: Result<PageScan, ProcessError>)
    requires
        page_size > 0,
        start + size <= usize::MAX,
    ensures
        match parse_spec(pattern@) {
            Ok(specs) => r is Ok && r->Ok_0@.wf() && r->Ok_0@ == ScanState::fresh(
                start as int,
                size as int,
                page_size as int,
                specs,
                find_first,
            ),
            Err(e) => r is Err && r->Err_0 == e,
        },
{
    match Pattern::parse(pattern.as_str()) {
        Ok(compiled) => Ok(PageScan::new(start, size, page_size, compiled, find_first)),
        Err(e) => Err(e),
    }
}

/// Begins a paginated scan of `size` bytes from `start` on for a run of
/// bytes without wildcards: the bytes are written as a textual pattern, and
/// the scan is begun for that.
pub fn remote_pattern_search2(
    start: usize,
    size: usize,
    page_size: usize,
    pattern: &[u8],
    find_first: bool,
) -> (r: Result<PageScan, ProcessError>)
    requires
        page_size > 0,
        start + size <= usize::MAX,
    ensures
        r is Ok,
        r->Ok_0@.wf(),
        r->Ok_0@ == ScanState::fresh(
            start as int,
            size as int,
            page_size as int,
            exact(pattern@),
            find_first,
        ),
{
    let text = render_pattern(pattern);
    proof {
        lemma_render_reads_back(pattern@);
    }
    remote_pattern_search(start, size, page_size, text, find_first)
}

/// Scans bytes that are at hand as a range that begins at the address
/// `start`, page by page, as a scan of remote memory goes in which every read
/// succeeds.
pub fn paged_search(
    data: &[u8],
    start: usize,
    page_size: usize,
    pattern: String,
    find_first: bool,
) -> (r: Result<Vec<usize>, ProcessError>)
    requires
        page_size > 0,
        start + data@.len() <= usize::MAX,
    ensures
        match parse_spec(pattern@) {
            Ok(specs) => r is Ok && reports(
                r->Ok_0@,
                ScanState::fresh(
                    start as int,
                    data@.len() as int,
                    page_size as int,
                    specs,
                    find_first,
                ).run(data@).found,
                0,
            ),
            Err(e) => r is Err && r->Err_0 == e,
        },
{
    match remote_pattern_search(start, data.len(), page_size, pattern, find_first) {
        Err(e) => Err(e),
        Ok(scan) => {
            let mut scan = scan;
            let ghost first = scan@;
            loop
                invariant
                    scan@.wf(),
                    scan@.size == data@.len(),
                    scan@.start == start,
                    first.run(data@) == scan@.run(data@),
                ensures
                    scan@.next_read() is None,
                    first.run(data@) == scan@,
                decreases scan@.size - scan@.offset,
            {
                match scan.next_read() {
                    None => {
                        break ;
                    },
                    Some((address, count)) => {
                        let from = address - start;
                        let page = vstd::slice::slice_subrange(data, from, from + count);
                        scan.page_read(page);
                    },
                }
            }
            Ok(scan.into_found())
        },
    }
}

} // verus!
