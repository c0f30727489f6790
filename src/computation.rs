use vstd::prelude::*;

use crate::digest::{digest_of, digest_of_number};
use crate::pattern::{digest_matches, is_match};
use crate::search::{lemma_fits, nth_range, nth_start, range_count, range_view, Search};

verus! {

/// A search for the first `found_need` positive numbers whose digest matches
/// `check_mask`, scanning ranges of `number_range` numbers, at most `max_cpu`
/// of them outstanding at once.
pub struct Computation {
    pub max_cpu: usize,
    pub number_range: i32,
    pub check_mask: String,
    pub found_need: usize,
}

/// A found number with its digest, as mathematical values.
pub open spec fn found_view(m: (i32, String)) -> (int, Seq<char>) {
    (m.0 as int, m.1@)
}

/// A sequence of found numbers with their digests, as mathematical values.
pub open spec fn matches_view(v: Seq<(i32, String)>) -> Seq<(int, Seq<char>)> {
    v.map_values(|m: (i32, String)| found_view(m))
}

/// The numbers of `[start, end)` whose digest matches `p`, in increasing
/// order, each with its digest.
pub open spec fn scan_spec(start: int, end: int, p: Seq<char>) -> Seq<(int, Seq<char>)>
    decreases end - start,
{
    if end <= start {
        Seq::empty()
    } else {
        let prev = scan_spec(start, end - 1, p);
        let d = digest_of((end - 1) as nat);
        if is_match(d, p) {
            prev.push((end - 1, d))
        } else {
            prev
        }
    }
}

/// The scans of the first `k` ranges of width `w`, one after the other.
pub open spec fn scan_ranges(w: int, k: nat, p: Seq<char>) -> Seq<(int, Seq<char>)>
    decreases k,
{
    if k == 0 {
        Seq::empty()
    } else {
        scan_ranges(w, (k - 1) as nat, p) + scan_spec(
            nth_range(w, k - 1).0,
            nth_range(w, k - 1).1,
            p,
        )
    }
}

/// Where the last range of width `w` that fits in `i32` ends.
pub open spec fn search_end(w: int) -> int {
    nth_start(w, range_count(w))
}

/// The first `need` matches of `p` among the numbers that ranges of width `w`
/// cover, or all of them if there are fewer.
pub open spec fn first_matches(w: int, p: Seq<char>, need: nat) -> Seq<(int, Seq<char>)> {
    let all = scan_spec(1, search_end(w), p);
    all.take(if all.len() < need { all.len() as int } else { need as int })
}

/// Scanning `[a, c)` is scanning `[a, b)` and then `[b, c)`.
pub proof fn lemma_scan_split(a: int, b: int, c: int, p: Seq<char>)
    requires
        a <= b <= c,
    ensures
        scan_spec(a, c, p) == scan_spec(a, b, p) + scan_spec(b, c, p),
    decreases c - b,
{
    if b < c {
        lemma_scan_split(a, b, c - 1, p);
    }
    assert(scan_spec(a, c, p) =~= scan_spec(a, b, p) + scan_spec(b, c, p));
}

/// What a scan of `[a, b)` holds: numbers of the range in strictly increasing
/// order, each with its own digest, each digest matching `p`, and every number
/// of the range whose digest matches `p`.
pub proof fn lemma_scan_sound(a: int, b: int, p: Seq<char>)
    requires
        0 <= a,
    ensures
        forall|i: int, j: int|
            0 <= i < j < scan_spec(a, b, p).len() ==> scan_spec(a, b, p)[i].0 < scan_spec(
                a,
                b,
                p,
            )[j].0,
        forall|i: int|
            0 <= i < scan_spec(a, b, p).len() ==> {
                let m = #[trigger] scan_spec(a, b, p)[i];
                &&& a <= m.0 < b
                &&& m.1 == digest_of(m.0 as nat)
                &&& is_match(m.1, p)
            },
        forall|n: int|
            a <= n < b && is_match(#[trigger] digest_of(n as nat), p) ==> exists|i: int|
                0 <= i < scan_spec(a, b, p).len() && scan_spec(a, b, p)[i].0 == n,
    decreases b - a,
{
    if a < b {
        lemma_scan_sound(a, b - 1, p);
        let prev = scan_spec(a, b - 1, p);
        let d = digest_of((b - 1) as nat);
        if is_match(d, p) {
            let s = prev.push((b - 1, d));
            assert(scan_spec(a, b, p) == s);
            assert(s[s.len() - 1].0 == b - 1);
            assert forall|n: int|
                a <= n < b && is_match(#[trigger] digest_of(n as nat), p) implies exists|i: int|
                    0 <= i < s.len() && s[i].0 == n by {
                if n < b - 1 {
                    let i = choose|i: int| 0 <= i < prev.len() && prev[i].0 == n;
                    assert(s[i].0 == n);
                } else {
                    assert(s[s.len() - 1].0 == n);
                }
            }
        } else {
            assert(scan_spec(a, b, p) == prev);
            assert forall|n: int|
                a <= n < b && is_match(#[trigger] digest_of(n as nat), p) implies exists|i: int|
                    0 <= i < prev.len() && prev[i].0 == n by {
                if n == b - 1 {
                    assert(digest_of(n as nat) == d);
                }
            }
        }
    }
}

/// The scans of the ranges handed out one after the other are the scan of all
/// the numbers they cover: the first `k` ranges of width `w` together give the
/// matches of `[1, 1 + k * w)`.
pub proof fn lemma_scan_ranges(w: int, k: nat, p: Seq<char>)
    requires
        w > 0,
    ensures
        scan_ranges(w, k, p) == scan_spec(1, nth_start(w, k as int), p),
    decreases k,
{
    if k == 0 {
        assert(scan_spec(1, 1, p) =~= Seq::<(int, Seq<char>)>::empty());
    } else {
        let j = k - 1;
        lemma_scan_ranges(w, j as nat, p);
        assert(nth_start(w, j) <= nth_start(w, j + 1)) by (nonlinear_arith)
            requires
                w > 0,
                j >= 0,
        ;
        assert(1 <= nth_start(w, j)) by (nonlinear_arith)
            requires
                w > 0,
                j >= 0,
        ;
        lemma_scan_split(1, nth_start(w, j), nth_start(w, j + 1), p);
    }
}

impl Computation {
    /// The numbers of `[start_range, end_range)` whose digest matches `check_mask`,
    /// in increasing order, each with its digest. The result depends on the
    /// arguments alone.
    pub fn get_sha256_digests_with_zero_suffix_ranged(
        start_range: i32,
        end_range: i32,
        check_mask: &str,
    ) -> (r: Vec<(i32, String)>)
        requires
            0 <= start_range,
        ensures
            matches_view(r@) == scan_spec(start_range as int, end_range as int, check_mask@),
    {
        let mut out: Vec<(i32, String)> = Vec::new();
        let mut n: i32 = start_range;
        while n < end_range
            invariant
                0 <= start_range <= n,
                start_range <= end_range ==> n <= end_range,
                end_range < start_range ==> n == start_range,
                matches_view(out@) == scan_spec(start_range as int, n as int, check_mask@),
            decreases end_range - n,
        {
            let digest = digest_of_number(n);
            let ghost before = out@;
            if digest_matches(digest.as_str(), check_mask) {
                out.push((n, digest));
                assert(matches_view(out@) =~= matches_view(before).push(
                    (n as int, digest_of(n as nat)),
                ));
            }
            n = n + 1;
        }
        proof {
            if end_range < start_range {
                assert(scan_spec(start_range as int, end_range as int, check_mask@)
                    =~= scan_spec(start_range as int, start_range as int, check_mask@));
            }
        }
        out
    }

    /// The first `found_need` positive numbers whose digest matches `check_mask`,
    /// in increasing order, each with its digest; fewer only when the ranges that
    /// fit in `i32` hold fewer. Ranges are scanned and retired in the order they
    /// are handed out.
    pub fn compute(&self) -> (r: Vec<(i32, String)>)
        requires
            self.max_cpu > 0,
            self.number_range > 0,
        ensures
            matches_view(r@) == first_matches(
                self.number_range as int,
                self.check_mask@,
                self.found_need as nat,
            ),
            r@.len() <= self.found_need,
            scan_spec(1, search_end(self.number_range as int), self.check_mask@).len()
                >= self.found_need ==> r@.len() == self.found_need,
            forall|i: int, j: int| 0 <= i < j < r@.len() ==> r@[i].0 < r@[j].0,
            forall|i: int|
                0 <= i < r@.len() ==> {
                    let m = #[trigger] r@[i];
                    &&& 1 <= m.0
                    &&& m.1@ == digest_of(m.0 as nat)
                    &&& is_match(m.1@, self.check_mask@)
                },
            forall|n: int, i: int|
                #![trigger r@[i], digest_of(n as nat)]
                0 <= i < r@.len() && 1 <= n <= r@[i].0 && is_match(
                    digest_of(n as nat),
                    self.check_mask@,
                ) ==> exists|j: int| 0 <= j <= i && r@[j].0 == n,
    {
        let ghost w = self.number_range as int;
        let ghost p = self.check_mask@;
        let (mut search, _first) = Search::start(self.max_cpu, self.number_range, self.found_need);
        proof {
            assert(nth_start(w, 0) == 1);
            assert(matches_view(search.spec_results()) =~= scan_spec(1, 1, p));
        }
        while !search.is_done()
            invariant
                search.wf(),
                search.spec_need() == self.found_need,
                search.spec_width() == w,
                w > 0,
                p == self.check_mask@,
                matches_view(search.spec_results()) == scan_spec(
                    1,
                    nth_start(w, search.spec_retired() as int),
                    p,
                ),
            decreases i32::MAX - nth_start(w, search.spec_retired() as int),
        {
            proof {
                search.lemma_wf();
            }
            let range = search.oldest_range();
            let ghost k = search.spec_retired() as int;
            proof {
                lemma_fits(search.spec_issued() as int, w, i32::MAX - 1);
                assert(nth_start(w, k) >= 1) by (nonlinear_arith)
                    requires
                        w > 0,
                        k >= 0,
                ;
                assert(nth_start(w, k + 1) == nth_start(w, k) + w) by (nonlinear_arith);
                assert((k + 1) * w <= search.spec_issued() * w) by (nonlinear_arith)
                    requires
                        k + 1 <= search.spec_issued(),
                        w > 0,
                ;
            }
            let batch = Computation::get_sha256_digests_with_zero_suffix_ranged(
                range.start,
                range.end,
                self.check_mask.as_str(),
            );
            let ghost before = search.spec_results();
            proof {
                lemma_scan_split(1, nth_start(w, k), nth_start(w, k + 1), p);
                assert(matches_view(before + batch@) =~= matches_view(before) + matches_view(
                    batch@,
                ));
            }
            let _next = search.complete_oldest(batch);
        }
        let ghost e = nth_start(w, search.spec_retired() as int);
        let ghost res = search.spec_results();
        let ghost need = self.found_need as int;
        proof {
            search.lemma_wf();
        }
        let r = search.into_matches();
        proof {
            let all = scan_spec(1, search_end(w), p);
            let got = scan_spec(1, e, p);
            let n = if res.len() < need { res.len() as int } else { need };
            assert(matches_view(r@) =~= got.take(n));
            lemma_fits(search.spec_retired() as int, w, i32::MAX - 1);
            assert(e <= search_end(w)) by (nonlinear_arith)
                requires
                    search.spec_retired() <= range_count(w),
                    w > 0,
                    e == nth_start(w, search.spec_retired() as int),
            ;
            assert(1 <= e) by (nonlinear_arith)
                requires
                    w > 0,
                    e == nth_start(w, search.spec_retired() as int),
            ;
            lemma_scan_split(1, e, search_end(w), p);
            if res.len() < need {
                assert(e == search_end(w));
            }
            assert(got.take(n) =~= all.take(n));
            lemma_scan_sound(1, search_end(w), p);
            assert forall|i: int| 0 <= i < r@.len() implies {
                let m = #[trigger] r@[i];
                &&& 1 <= m.0
                &&& m.1@ == digest_of(m.0 as nat)
                &&& is_match(m.1@, self.check_mask@)
            } by {
                assert(found_view(r@[i]) == all[i]);
            }
            assert forall|i: int, j: int| 0 <= i < j < r@.len() implies r@[i].0 < r@[j].0 by {
                assert(found_view(r@[i]) == all[i]);
                assert(found_view(r@[j]) == all[j]);
            }
            assert forall|x: int, i: int|
                #![trigger r@[i], digest_of(x as nat)]
                0 <= i < r@.len() && 1 <= x <= r@[i].0 && is_match(
                    digest_of(x as nat),
                    self.check_mask@,
                ) implies exists|j: int| 0 <= j <= i && r@[j].0 == x by {
                assert(found_view(r@[i]) == all[i]);
                let j = choose|j: int| 0 <= j < all.len() && all[j].0 == x;
                if j > i {
                    assert(all[i].0 < all[j].0);
                }
                assert(found_view(r@[j]) == all[j]);
            }
        }
        r
    }
}

} // verus!
