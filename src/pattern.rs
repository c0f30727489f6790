use vstd::prelude::*;

verus! {

/// The trailing window of a digest that is searched for a pattern of length `l`:
/// its last `l + 1` characters, or the whole digest when it is shorter.
pub open spec fn window(d: Seq<char>, l: nat) -> Seq<char> {
    if d.len() > l {
        d.subrange(d.len() - (l + 1), d.len() as int)
    } else {
        d
    }
}

/// `p` occurs in `s` starting at position `i`.
pub open spec fn occurs_at(s: Seq<char>, p: Seq<char>, i: int) -> bool {
    0 <= i && i + p.len() <= s.len() && s.subrange(i, i + p.len()) == p
}

/// `p` is a contiguous part of `s`.
pub open spec fn contains(s: Seq<char>, p: Seq<char>) -> bool {
    exists|i: int| occurs_at(s, p, i)
}

/// A digest matches a pattern when its trailing window contains the pattern.
pub open spec fn is_match(d: Seq<char>, p: Seq<char>) -> bool {
    contains(window(d, p.len()), p)
}

/// The characters of a string slice, in order.
fn chars_of(s: &str) -> (v: Vec<char>)
    ensures
        v@ == s@,
{
    let mut v: Vec<char> = Vec::new();
    for c in it: s.chars()
        invariant
            it.seq() == s@,
            v@ == it.seq().take(it.index() as int),
    {
        v.push(c);
    }
    v
}

/// Whether `p` occurs in `s` at position `i`, compared character by character.
fn occurs_at_exec(s: &Vec<char>, p: &Vec<char>, i: usize) -> (r: bool)
    requires
        i + p.len() <= s.len(),
    ensures
        r == occurs_at(s@, p@, i as int),
{
    let mut k: usize = 0;
    while k < p.len()
        invariant
            i + p.len() <= s.len(),
            k <= p.len(),
            forall|j: int| 0 <= j < k ==> s@[i + j] == p@[j],
        decreases p.len() - k,
    {
        if s[i + k] != p[k] {
            assert(s@.subrange(i as int, i + p.len())[k as int] != p@[k as int]);
            return false;
        }
        k = k + 1;
    }
    assert(s@.subrange(i as int, i + p.len()) =~= p@);
    true
}

/// Whether `digest` matches `check_mask`: the last `check_mask.len() + 1`
/// characters of `digest` (all of it, if it is shorter) contain `check_mask`.
pub fn digest_matches(digest: &str, check_mask: &str) -> (r: bool)
    ensures
        r == is_match(digest@, check_mask@),
{
    let d = chars_of(digest);
    let p = chars_of(check_mask);
    if p.len() > d.len() {
        proof {
            assert(window(d@, p@.len()) == d@);
            assert forall|i: int| !occurs_at(d@, p@, i) by {}
        }
        return false;
    }
    let lo: usize = if d.len() > p.len() { d.len() - (p.len() + 1) } else { 0 };
    let ghost w = window(d@, p@.len());
    assert(w =~= d@.subrange(lo as int, d@.len() as int));
    let mut i: usize = lo;
    let last: usize = d.len() - p.len();
    loop
        invariant
            lo <= i <= last,
            last == d.len() - p.len(),
            p.len() <= d.len(),
            w == d@.subrange(lo as int, d@.len() as int),
            w == window(d@, p@.len()),
            d@ == digest@,
            p@ == check_mask@,
            forall|j: int| lo <= j < i ==> !occurs_at(d@, p@, j),
        ensures
            forall|j: int| lo <= j <= last ==> !occurs_at(d@, p@, j),
        decreases last - i,
    {
        if occurs_at_exec(&d, &p, i) {
            assert(w.subrange(i - lo, i - lo + p@.len()) =~= d@.subrange(i as int, i + p@.len()));
            assert(occurs_at(w, p@, i - lo));
            assert(contains(w, p@));
            return true;
        }
        if i == last {
            break;
        }
        i = i + 1;
    }
    assert forall|j: int| !occurs_at(w, p@, j) by {
        if occurs_at(w, p@, j) {
            assert(lo + j <= last);
            assert(w.subrange(j, j + p@.len()) =~= d@.subrange(lo + j, lo + j + p@.len()));
            assert(occurs_at(d@, p@, lo + j));
        }
    }
    false
}

} // verus!
