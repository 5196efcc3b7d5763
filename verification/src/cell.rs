//! A cell: the tile variants still possible at one position.

use vstd::prelude::*;
use rand::rngs::StdRng;
use crate::error::ContradictionError;
use crate::random::choose_candidate;

verus! {

/// The candidates of one position, each a tile index, none listed twice.
#[derive(Debug, Clone)]
pub struct Tile {
    indices: Vec<usize>,
}

/// The tile indices below `size`.
pub open spec fn full_range(size: usize) -> Set<usize> {
    Set::new(|t: usize| t < size)
}

/// Taking one position out of a sequence without repeats takes its value
/// out of the set of values, and leaves no repeats.
proof fn lemma_remove_position(s: Seq<usize>, k: int)
    requires
        s.no_duplicates(),
        0 <= k < s.len(),
    ensures
        s.remove(k).no_duplicates(),
        s.remove(k).to_set() == s.to_set().remove(s[k]),
{
    let r = s.remove(k);
    assert forall|x: usize| r.to_set().contains(x) <==> s.to_set().remove(s[k]).contains(x) by {
        if r.contains(x) {
            let i = choose|i: int| 0 <= i < r.len() && r[i] == x;
            if i < k {
                assert(s[i] == x);
            } else {
                assert(s[i + 1] == x);
            }
        }
        if s.contains(x) && x != s[k] {
            let i = choose|i: int| 0 <= i < s.len() && s[i] == x;
            if i < k {
                assert(r[i] == x);
            } else {
                assert(r[i - 1] == x);
            }
        }
    }
    assert(r.to_set() =~= s.to_set().remove(s[k]));
}

/// The sequence 0, 1, .., size - 1 lists the full range once each.
proof fn lemma_counting(s: Seq<usize>, size: usize)
    requires
        s.len() == size,
        forall|k: int| 0 <= k < size ==> s[k] == k,
    ensures
        s.no_duplicates(),
        s.to_set() == full_range(size),
{
    assert forall|x: usize| s.to_set().contains(x) <==> full_range(size).contains(x) by {
        if x < size {
            assert(s[x as int] == x);
        }
    }
    assert(s.to_set() =~= full_range(size));
}

/// The full range holds as many tiles as its size says.
pub proof fn lemma_full_range(size: usize)
    ensures
        full_range(size).finite(),
        full_range(size).len() == size,
{
    let s = Seq::new(size as nat, |k: int| k as usize);
    lemma_counting(s, size);
    s.unique_seq_to_set();
}

impl View for Tile {
    type V = Set<usize>;

    /// The set of candidates.
    closed spec fn view(&self) -> Set<usize> {
        self.indices@.to_set()
    }
}

impl Default for Tile {
    /// The cell without candidates.
    fn default() -> (tile: Tile)
        ensures
            tile.wf(),
            tile@ == Set::<usize>::empty(),
    {
        let tile = Tile { indices: Vec::new() };
        assert(tile@ =~= Set::<usize>::empty());
        tile
    }
}

impl Tile {
    /// No candidate is listed twice.
    pub closed spec fn wf(&self) -> bool {
        self.indices@.no_duplicates()
    }

    /// A cell never has more candidates than memory can list.
    pub proof fn lemma_finite(&self)
        requires
            self.wf(),
        ensures
            self@.finite(),
            self@.len() <= usize::MAX,
    {
        self.indices@.unique_seq_to_set();
        assert(self.indices@.len() == self.indices.len());
    }

    /// A cell in which every tile below `size` is possible.
    pub fn new(size: usize) -> (tile: Tile)
        ensures
            tile.wf(),
            tile@ == full_range(size),
            tile@.finite(),
            tile@.len() == size,
    {
        let mut indices: Vec<usize> = Vec::new();
        let mut t: usize = 0;
        while t < size
            invariant
                t <= size,
                indices@.len() == t,
                forall|k: int| 0 <= k < t ==> indices@[k] == k,
            decreases size - t,
        {
            indices.push(t);
            t += 1;
        }
        proof {
            lemma_counting(indices@, size);
            indices@.unique_seq_to_set();
        }
        Tile { indices }
    }

    /// The number of candidates.
    pub fn entropy(&self) -> (n: usize)
        requires
            self.wf(),
        ensures
            n == self@.len(),
    {
        proof {
            self.indices@.unique_seq_to_set();
        }
        self.indices.len()
    }

    /// Whether exactly one candidate is left.
    pub fn is_collapsed(&self) -> (b: bool)
        requires
            self.wf(),
        ensures
            b == (self@.len() == 1),
    {
        self.entropy() == 1
    }

    /// Whether `t` is still a candidate.
    pub fn allows(&self, t: usize) -> (b: bool)
        requires
            self.wf(),
        ensures
            b == self@.contains(t),
    {
        let mut k: usize = 0;
        while k < self.indices.len()
            invariant
                k <= self.indices.len(),
                forall|i: int| 0 <= i < k ==> self.indices@[i] != t,
            decreases self.indices.len() - k,
        {
            if self.indices[k] == t {
                return true;
            }
            k += 1;
        }
        false
    }

    /// The candidates, each once.
    pub fn candidates(&self) -> (list: Vec<usize>)
        requires
            self.wf(),
        ensures
            list@.no_duplicates(),
            list@.to_set() == self@,
            list@.len() == self@.len(),
    {
        proof {
            self.indices@.unique_seq_to_set();
        }
        let list = self.indices.clone();
        assert(list@ == self.indices@);
        list
    }

    /// The tile of a collapsed cell.
    pub fn tile(&self) -> (t: Option<usize>)
        requires
            self.wf(),
        ensures
            t is Some <==> self@.len() == 1,
            t matches Some(only) ==> self@ == set![only],
    {
        proof {
            self.indices@.unique_seq_to_set();
        }
        if self.indices.len() == 1 {
            let only = self.indices[0];
            assert(self.indices@ == seq![only]);
            assert(seq![only].to_set() =~= set![only]) by {
                assert(seq![only][0] == only);
            }
            Some(only)
        } else {
            None
        }
    }

    /// Leaves `t` as the only candidate, if it is one; otherwise changes
    /// nothing. Returns whether `t` was a candidate.
    pub fn collapse_to(&mut self, t: usize) -> (done: bool)
        requires
            old(self).wf(),
        ensures
            final(self).wf(),
            done == old(self)@.contains(t),
            done ==> final(self)@ == set![t],
            !done ==> final(self)@ == old(self)@,
    {
        if self.allows(t) {
            self.indices = vec![t];
            proof {
                assert(self.indices@ =~= seq![t]);
                assert(seq![t].to_set() =~= set![t]) by {
                    assert(seq![t][0] == t);
                }
            }
            true
        } else {
            false
        }
    }

    /// Picks one of the candidates at random and leaves it as the only one.
    /// A cell without candidates is a contradiction and stays as it is.
    pub fn collapse(&mut self, rng: &mut StdRng) -> (r: Result<usize, ContradictionError>)
        requires
            old(self).wf(),
        ensures
            final(self).wf(),
            r is Err <==> old(self)@.len() == 0,
            r is Err ==> final(self)@ == old(self)@,
            r matches Ok(t) ==> old(self)@.contains(t) && final(self)@ == set![t],
    {
        proof {
            self.indices@.unique_seq_to_set();
        }
        match choose_candidate(&self.indices, rng) {
            Some(t) => {
                let done = self.collapse_to(t);
                assert(done);
                Ok(t)
            },
            None => Err(ContradictionError {  }),
        }
    }

    /// Removes `to_remove` from the candidates, if it is one. Returns
    /// whether the candidates changed.
    pub fn restrict(&mut self, to_remove: usize) -> (changed: bool)
        requires
            old(self).wf(),
        ensures
            final(self).wf(),
            changed == old(self)@.contains(to_remove),
            final(self)@ == old(self)@.remove(to_remove),
            final(self)@.len() == if changed {
                old(self)@.len() - 1
            } else {
                old(self)@.len() as int
            },
    {
        proof {
            self.lemma_finite();
        }
        let mut k: usize = 0;
        while k < self.indices.len()
            invariant
                k <= self.indices.len(),
                self.indices == old(self).indices,
                self.wf(),
                forall|i: int| 0 <= i < k ==> self.indices@[i] != to_remove,
            decreases self.indices.len() - k,
        {
            if self.indices[k] == to_remove {
                proof {
                    lemma_remove_position(self.indices@, k as int);
                }
                self.indices.remove(k);
                return true;
            }
            k += 1;
        }
        assert(self@ =~= old(self)@.remove(to_remove));
        false
    }
}

} // verus!
