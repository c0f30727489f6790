use vstd::prelude::*;
use vstd::arithmetic::div_mod::{lemma_fundamental_div_mod, lemma_mod_bound};

verus! {

/// A half-open interval `[start, end)` of numbers handed out as one unit of scan work.
#[derive(Clone, Copy, Debug, PartialEq, Eq, Structural)]
pub struct ScanRange {
    pub start: i32,
    pub end: i32,
}

/// How many ranges of width `w` fit in the positive `i32` values, starting at 1.
pub open spec fn range_count(w: int) -> int {
    (i32::MAX - 1) / w
}

/// Where the `k`-th range of width `w` (counted from 0) starts.
pub open spec fn nth_start(w: int, k: int) -> int {
    1 + k * w
}

/// The `k`-th range of width `w`: `[1 + k * w, 1 + (k + 1) * w)`.
pub open spec fn nth_range(w: int, k: int) -> (int, int) {
    (nth_start(w, k), nth_start(w, k + 1))
}

/// The range as a pair of mathematical integers.
pub open spec fn range_view(r: ScanRange) -> (int, int) {
    (r.start as int, r.end as int)
}

/// For `w > 0`: `x` ranges of width `w` fit in `n` numbers exactly when `x <= n / w`.
pub proof fn lemma_fits(x: int, w: int, n: int)
    requires
        w > 0,
        x >= 0,
        n >= 0,
    ensures
        x * w <= n <==> x <= n / w,
{
    lemma_fundamental_div_mod(n, w);
    lemma_mod_bound(n, w);
    let q = n / w;
    let r = n % w;
    if x <= q {
        assert(x * w <= n) by (nonlinear_arith)
            requires
                x <= q,
                w > 0,
                n == w * q + r,
                r >= 0,
        ;
    } else {
        assert(x * w > n) by (nonlinear_arith)
            requires
                x >= q + 1,
                w > 0,
                n == w * q + r,
                r < w,
        ;
    }
}

/// The ranges of width `w` that come after one another never overlap and
/// strictly increase: the `k`-th ends where the `k + 1`-th starts.
pub proof fn lemma_ranges_disjoint(w: int, k: int, j: int)
    requires
        w > 0,
        0 <= k < j,
    ensures
        nth_range(w, k).0 < nth_range(w, k).1,
        nth_range(w, k).1 <= nth_range(w, j).0,
        nth_range(w, k).0 < nth_range(w, j).0,
{
    assert((k + 1) * w <= j * w) by (nonlinear_arith)
        requires
            k + 1 <= j,
            w > 0,
    ;
    assert(k * w < (k + 1) * w) by (nonlinear_arith)
        requires
            w > 0,
    ;
}

/// Hands out successive ranges of one fixed width, starting at 1, for as long
/// as they fit in `i32`.
pub struct RangeGenerator {
    width: i32,
    next_start: i32,
    issued: Ghost<nat>,
}

impl RangeGenerator {
    /// The width of every range.
    pub closed spec fn spec_width(&self) -> int {
        self.width as int
    }

    /// How many ranges have been handed out.
    pub closed spec fn spec_issued(&self) -> nat {
        self.issued@
    }

    pub closed spec fn wf(&self) -> bool {
        &&& self.width > 0
        &&& self.issued@ <= range_count(self.width as int)
        &&& self.next_start == nth_start(self.width as int, self.issued@ as int)
    }

    pub fn new(width: i32) -> (g: RangeGenerator)
        requires
            width > 0,
        ensures
            g.wf(),
            g.spec_width() == width,
            g.spec_issued() == 0,
    {
        proof {
            lemma_fits(0, width as int, i32::MAX - 1);
        }
        RangeGenerator { width, next_start: 1, issued: Ghost(0) }
    }

    /// The next range, or `None` once no further range fits in `i32`.
    pub fn next(&mut self) -> (r: Option<ScanRange>)
        requires
            old(self).wf(),
        ensures
            final(self).wf(),
            final(self).spec_width() == old(self).spec_width(),
            old(self).spec_issued() < range_count(old(self).spec_width()) ==> {
                &&& r is Some
                &&& range_view(r->0) == nth_range(
                    old(self).spec_width(),
                    old(self).spec_issued() as int,
                )
                &&& final(self).spec_issued() == old(self).spec_issued() + 1
            },
            old(self).spec_issued() >= range_count(old(self).spec_width()) ==> {
                &&& r is None
                &&& final(self).spec_issued() == old(self).spec_issued()
            },
    {
        let ghost w = self.width as int;
        let ghost k = self.issued@ as int;
        proof {
            lemma_fits(k + 1, w, i32::MAX - 1);
            assert(nth_start(w, k + 1) == nth_start(w, k) + w) by (nonlinear_arith);
        }
        if self.next_start <= i32::MAX - self.width {
            let start = self.next_start;
            self.next_start = self.next_start + self.width;
            self.issued = Ghost(self.issued@ + 1);
            Some(ScanRange { start, end: self.next_start })
        } else {
            None
        }
    }
}

/// The scheduler of one search: which ranges are outstanding, in the order
/// they were handed out, and the matches gathered from the ranges already retired.
///
/// Ranges are handed out with `start` (up to `pool` of them) and then one for each
/// range retired with `complete_oldest`, while more matches are needed. Results
/// must be handed back for the oldest outstanding range first.
pub struct Search {
    need: usize,
    pool: usize,
    generator: RangeGenerator,
    retired: Ghost<nat>,
    oldest: i32,
    results: Vec<(i32, String)>,
}

impl Search {
    /// How many matches are asked for.
    pub closed spec fn spec_need(&self) -> nat {
        self.need as nat
    }

    /// How many ranges may be outstanding at once.
    pub closed spec fn spec_pool(&self) -> nat {
        self.pool as nat
    }

    /// The width of each range.
    pub closed spec fn spec_width(&self) -> int {
        self.generator.spec_width()
    }

    /// How many ranges have been handed out.
    pub closed spec fn spec_issued(&self) -> nat {
        self.generator.spec_issued()
    }

    /// How many ranges have been retired; the outstanding ones are those from
    /// `spec_retired()` up to `spec_issued()`.
    pub closed spec fn spec_retired(&self) -> nat {
        self.retired@
    }

    /// The matches gathered so far, in the order they were handed back.
    pub closed spec fn spec_results(&self) -> Seq<(i32, String)> {
        self.results@
    }

    pub closed spec fn wf(&self) -> bool {
        &&& self.generator.wf()
        &&& self.pool > 0
        &&& self.retired@ <= self.generator.spec_issued() <= self.retired@ + self.pool
        &&& self.oldest == nth_start(self.generator.spec_width(), self.retired@ as int)
        &&& (self.results.len() < self.need && self.retired@ == self.generator.spec_issued())
            ==> self.generator.spec_issued() == range_count(self.generator.spec_width())
    }

    /// What a well-formed search keeps: the width is positive, at most `pool`
    /// ranges are outstanding, no more ranges are handed out than fit, and while
    /// matches are missing some range is outstanding unless none fits any more.
    pub proof fn lemma_wf(&self)
        requires
            self.wf(),
        ensures
            self.spec_width() > 0,
            self.spec_pool() > 0,
            self.spec_retired() <= self.spec_issued() <= self.spec_retired() + self.spec_pool(),
            self.spec_issued() <= range_count(self.spec_width()),
            (self.spec_results().len() < self.spec_need() && self.spec_retired()
                == self.spec_issued()) ==> self.spec_issued() == range_count(self.spec_width()),
    {
    }

    /// The search is over: enough matches were gathered, or no range is
    /// outstanding because none fits any more.
    pub open spec fn spec_done(&self) -> bool {
        self.spec_results().len() >= self.spec_need() || self.spec_retired() == self.spec_issued()
    }

    /// Starts a search for `need` matches with ranges of width `width` and at most
    /// `pool` of them outstanding; returns the ranges to scan first, in order.
    /// Nothing is handed out when no match is needed.
    pub fn start(pool: usize, width: i32, need: usize) -> (res: (Search, Vec<ScanRange>))
        requires
            pool > 0,
            width > 0,
        ensures
            res.0.wf(),
            res.0.spec_need() == need,
            res.0.spec_pool() == pool,
            res.0.spec_width() == width,
            res.0.spec_retired() == 0,
            res.0.spec_results() == Seq::<(i32, String)>::empty(),
            res.1@.len() == res.0.spec_issued(),
            forall|k: int|
                0 <= k < res.1@.len() ==> range_view(#[trigger] res.1@[k]) == nth_range(
                    width as int,
                    k,
                ),
            need == 0 ==> res.0.spec_issued() == 0,
            need > 0 ==> res.0.spec_issued() == (if pool < range_count(width as int) {
                pool as int
            } else {
                range_count(width as int)
            }),
    {
        let mut generator = RangeGenerator::new(width);
        let mut first: Vec<ScanRange> = Vec::new();
        if need > 0 {
            while first.len() < pool
                invariant
                    generator.wf(),
                    generator.spec_width() == width,
                    first@.len() == generator.spec_issued(),
                    first@.len() <= pool,
                    forall|k: int|
                        0 <= k < first@.len() ==> range_view(#[trigger] first@[k]) == nth_range(
                            width as int,
                            k,
                        ),
                ensures
                    generator.wf(),
                    generator.spec_width() == width,
                    first@.len() == generator.spec_issued(),
                    first@.len() <= pool,
                    forall|k: int|
                        0 <= k < first@.len() ==> range_view(#[trigger] first@[k]) == nth_range(
                            width as int,
                            k,
                        ),
                    first@.len() == pool || generator.spec_issued() == range_count(width as int),
                decreases pool - first@.len(),
            {
                match generator.next() {
                    Some(r) => first.push(r),
                    None => break,
                }
            }
        }
        let search = Search {
            need,
            pool,
            generator,
            retired: Ghost(0),
            oldest: 1,
            results: Vec::new(),
        };
        (search, first)
    }

    /// Whether the search is over.
    pub fn is_done(&self) -> (r: bool)
        requires
            self.wf(),
        ensures
            r == self.spec_done(),
    {
        proof {
            let w = self.generator.spec_width();
            let k = self.retired@ as int;
            let i = self.generator.spec_issued() as int;
            if k < i {
                assert(k * w < i * w) by (nonlinear_arith)
                    requires
                        k < i,
                        w > 0,
                ;
            }
        }
        self.results.len() >= self.need || self.oldest == self.generator.next_start
    }

    /// The oldest outstanding range: the next one whose matches are due.
    pub fn oldest_range(&self) -> (r: ScanRange)
        requires
            self.wf(),
            self.spec_retired() < self.spec_issued(),
        ensures
            range_view(r) == nth_range(self.spec_width(), self.spec_retired() as int),
    {
        proof {
            let w = self.generator.spec_width();
            let k = self.retired@ as int;
            lemma_fits(k + 1, w, i32::MAX - 1);
            lemma_fits(self.generator.spec_issued() as int, w, i32::MAX - 1);
            assert(nth_start(w, k + 1) == nth_start(w, k) + w) by (nonlinear_arith);
            assert((k + 1) * w <= self.generator.spec_issued() * w) by (nonlinear_arith)
                requires
                    k + 1 <= self.generator.spec_issued(),
                    w > 0,
            ;
        }
        ScanRange { start: self.oldest, end: self.oldest + self.generator.width }
    }

    /// Retires the oldest outstanding range with the matches found in it, and
    /// hands out the next range if more matches are still needed and one fits.
    pub fn complete_oldest(&mut self, batch: Vec<(i32, String)>) -> (r: Option<ScanRange>)
        requires
            old(self).wf(),
            !old(self).spec_done(),
        ensures
            final(self).wf(),
            final(self).spec_need() == old(self).spec_need(),
            final(self).spec_pool() == old(self).spec_pool(),
            final(self).spec_width() == old(self).spec_width(),
            final(self).spec_retired() == old(self).spec_retired() + 1,
            final(self).spec_results() == old(self).spec_results() + batch@,
            ({
                let more = final(self).spec_results().len() < final(self).spec_need()
                    && old(self).spec_issued() < range_count(old(self).spec_width());
                &&& more ==> r is Some && range_view(r->0) == nth_range(
                    old(self).spec_width(),
                    old(self).spec_issued() as int,
                ) && final(self).spec_issued() == old(self).spec_issued() + 1
                &&& !more ==> r is None && final(self).spec_issued() == old(self).spec_issued()
            }),
    {
        let mut batch = batch;
        self.results.append(&mut batch);
        let ghost w = self.generator.spec_width();
        let ghost k = self.retired@ as int;
        proof {
            lemma_fits(k + 1, w, i32::MAX - 1);
            lemma_fits(self.generator.spec_issued() as int, w, i32::MAX - 1);
            assert(nth_start(w, k + 1) == nth_start(w, k) + w) by (nonlinear_arith);
            assert((k + 1) * w <= self.generator.spec_issued() * w) by (nonlinear_arith)
                requires
                    k + 1 <= self.generator.spec_issued(),
                    w > 0,
            ;
        }
        self.oldest = self.oldest + self.generator.width;
        self.retired = Ghost(self.retired@ + 1);
        if self.results.len() < self.need {
            self.generator.next()
        } else {
            None
        }
    }

    /// The gathered matches, cut to the number asked for.
    pub fn into_matches(self) -> (r: Vec<(i32, String)>)
        requires
            self.wf(),
        ensures
            r@ == self.spec_results().take(
                if self.spec_results().len() < self.spec_need() {
                    self.spec_results().len() as int
                } else {
                    self.spec_need() as int
                },
            ),
    {
        let mut results = self.results;
        let ghost before = results@;
        results.truncate(self.need);
        assert(results@ =~= before.take(
            if before.len() < self.need { before.len() as int } else { self.need as int },
        ));
        results
    }
}

} // verus!
