use vstd::prelude::*;
use crate::position::{contains_position, Position};

verus! {

/// `s[start..start + len]` is a maximal stretch of one value, at least three long.
pub open spec fn is_run(s: Seq<u32>, start: int, len: int) -> bool {
    &&& 3 <= len
    &&& 0 <= start
    &&& start + len <= s.len()
    &&& forall|i: int| start <= i < start + len ==> s[i] == s[start]
    &&& (start == 0 || s[start - 1] != s[start])
    &&& (start + len == s.len() || s[start + len] != s[start])
}

/// The maximal runs of at least three equal values in `s`, as `(start, length)`
/// pairs, by increasing start.
pub fn line_runs(s: &Vec<u32>) -> (r: Vec<(usize, usize)>)
    ensures
        forall|k: int| 0 <= k < r@.len() ==> is_run(s@, r@[k].0 as int, r@[k].1 as int),
        forall|k: int, l: int| 0 <= k < l < r@.len() ==> r@[k].0 < r@[l].0,
        forall|start: int, len: int|
            is_run(s@, start, len) ==> r@.contains((start as usize, len as usize)),
{
    let mut r: Vec<(usize, usize)> = Vec::new();
    let n = s.len();
    let mut i: usize = 0;
    while i < n
        invariant
            n == s@.len(),
            i <= n,
            i == 0 || i == n || s@[i - 1] != s@[i as int],
            forall|k: int| 0 <= k < r@.len() ==> is_run(s@, r@[k].0 as int, r@[k].1 as int),
            forall|k: int| 0 <= k < r@.len() ==> r@[k].0 < i,
            forall|k: int, l: int| 0 <= k < l < r@.len() ==> r@[k].0 < r@[l].0,
            forall|start: int, len: int|
                is_run(s@, start, len) && start < i ==> r@.contains((start as usize, len as usize)),
        decreases n - i,
    {
        let v = s[i];
        let mut j: usize = i + 1;
        while j < n && s[j] == v
            invariant
                n == s@.len(),
                i < j <= n,
                v == s@[i as int],
                forall|t: int| i <= t < j ==> s@[t] == v,
            decreases n - j,
        {
            j += 1;
        }
        let ghost r0 = r@;
        if j - i >= 3 {
            r.push((i, j - i));
            assert(r@[r@.len() - 1] == (i, (j - i) as usize));
        }
        proof {
            assert forall|start: int, len: int|
                is_run(s@, start, len) && start < j implies r@.contains(
                (start as usize, len as usize),
            ) by {
                if start < i {
                    let k = choose|k: int| 0 <= k < r0.len() && #[trigger] r0[k] == (start as usize, len as usize);
                    assert(r@[k] == r0[k]);
                } else {
                    if start > i {
                        assert(s@[start - 1] == s@[start]);
                    }
                    if len < j - i {
                        assert(s@[start + len] == s@[start]);
                    }
                    if len > j - i {
                        assert(s@[j as int] == s@[start]);
                    }
                    assert(r@[r@.len() - 1] == (start as usize, len as usize));
                }
            }
        }
        i = j;
    }
    r
}

/// The different kinds of matches.
#[derive(Clone, Debug)]
pub enum Match {
    /// A straight run of three or more gems of one type, in scan order.
    Straight(Vec<Position>),
}

impl View for Match {
    type V = Seq<Position>;

    open spec fn view(&self) -> Seq<Position> {
        match self {
            Match::Straight(v) => v@,
        }
    }
}

impl Match {
    /// The positions of this match.
    pub fn positions(&self) -> (r: &Vec<Position>)
        ensures
            r@ == self@,
    {
        match self {
            Match::Straight(v) => v,
        }
    }
}

/// A collection of matches found in one detection pass.
#[derive(Clone, Debug)]
pub struct Matches {
    pub(crate) matches: Vec<Match>,
}

impl View for Matches {
    type V = Seq<Seq<Position>>;

    closed spec fn view(&self) -> Seq<Seq<Position>> {
        self.matches@.map_values(|m: Match| m@)
    }
}

impl Matches {
    /// An empty collection.
    pub fn new() -> (r: Matches)
        ensures
            r@.len() == 0,
    {
        Matches { matches: Vec::new() }
    }

    pub(crate) fn add(&mut self, mat: Match)
        ensures
            final(self)@ == old(self)@.push(mat@),
    {
        self.matches.push(mat);
        assert(self@ =~= old(self)@.push(mat@));
    }

    /// The number of matches.
    pub fn len(&self) -> (r: usize)
        ensures
            r == self@.len(),
    {
        self.matches.len()
    }

    /// Whether no match was found.
    pub fn is_empty(&self) -> (r: bool)
        ensures
            r == (self@.len() == 0),
    {
        self.matches.len() == 0
    }

    /// The `i`-th match.
    pub fn get(&self, i: usize) -> (r: &Match)
        requires
            i < self@.len(),
        ensures
            r@ == self@[i as int],
    {
        &self.matches[i]
    }

    /// The positions of all matches in this collection, each once.
    pub fn without_duplicates(&self) -> (r: Vec<Position>)
        ensures
            r@.no_duplicates(),
            forall|p: Position|
                r@.contains(p) <==> exists|k: int| 0 <= k < self@.len() && self@[k].contains(p),
    {
        let mut r: Vec<Position> = Vec::new();
        let mut k: usize = 0;
        while k < self.matches.len()
            invariant
                k <= self@.len(),
                r@.no_duplicates(),
                forall|p: Position|
                    r@.contains(p) <==> exists|j: int| 0 <= j < k && self@[j].contains(p),
            decreases self@.len() - k,
        {
            let m = self.matches[k].positions();
            let mut i: usize = 0;
            while i < m.len()
                invariant
                    k < self@.len(),
                    m@ == self@[k as int],
                    i <= m@.len(),
                    r@.no_duplicates(),
                    forall|p: Position|
                        r@.contains(p) <==> (exists|j: int| 0 <= j < k && self@[j].contains(p))
                            || m@.take(i as int).contains(p),
                decreases m@.len() - i,
            {
                let p = m[i];
                let ghost r0 = r@;
                if !contains_position(&r, p) {
                    r.push(p);
                }
                proof {
                    assert(m@.take(i + 1) =~= m@.take(i as int).push(p));
                    assert forall|q: Position|
                        r@.contains(q) <==> (exists|j: int| 0 <= j < k && self@[j].contains(q))
                            || m@.take(i + 1).contains(q) by {
                        if r@.contains(q) && !r0.contains(q) {
                            assert(q == p);
                            assert(m@.take(i + 1)[i as int] == p);
                        }
                        if m@.take(i + 1).contains(q) && !m@.take(i as int).contains(q) {
                            let t = choose|t: int| 0 <= t < i + 1 && #[trigger] m@.take(i + 1)[t] == q;
                            if t < i {
                                assert(m@.take(i as int)[t] == q);
                            }
                            assert(q == p);
                            if !r0.contains(p) {
                                assert(r@[r@.len() - 1] == p);
                            }
                        }
                        if r0.contains(q) {
                            let t = choose|t: int| 0 <= t < r0.len() && #[trigger] r0[t] == q;
                            assert(r@[t] == q);
                        }
                        if m@.take(i as int).contains(q) {
                            let t = choose|t: int| 0 <= t < i && #[trigger] m@.take(i as int)[t] == q;
                            assert(m@.take(i + 1)[t] == q);
                        }
                    }
                }
                i += 1;
            }
            proof {
                assert(m@.take(m@.len() as int) =~= m@);
                assert forall|p: Position|
                    r@.contains(p) <==> exists|j: int| 0 <= j < k + 1 && self@[j].contains(p) by {
                    if m@.contains(p) {
                        assert(0 <= k < k + 1 && self@[k as int].contains(p));
                    }
                    if exists|j: int| 0 <= j < k + 1 && self@[j].contains(p) {
                        let j = choose|j: int| 0 <= j < k + 1 && self@[j].contains(p);
                        if j < k {
                        } else {
                            assert(m@.contains(p));
                        }
                    }
                }
            }
            k += 1;
        }
        r
    }
}

} // verus!
