//! The bounded cache: entries in descending order of strength, never more
//! than a configured number of them.

use vstd::prelude::*;
use crate::keys::{Candidate, Output, key_strength, is_canonical, MAX_ADDRESS_STRENGTH};

verus! {

/// Why a cache could not hand out its best entry.
#[derive(Clone, Copy, Debug, PartialEq, Eq, Structural)]
pub enum CacheError {
    /// The cache holds no entry.
    NoCandidatesAvailable,
    /// The best entry is too strong for an address to be derived from it.
    StrengthOutOfRange,
}

/// An identity together with the strength it was admitted with.
pub struct Entry {
    pub candidate: Candidate,
    pub strength: u32,
}

impl View for Entry {
    type V = (Seq<char>, u32);

    open spec fn view(&self) -> (Seq<char>, u32) {
        (self.candidate@, self.strength)
    }
}

/// Entries are ordered from strongest to weakest.
pub open spec fn descending(s: Seq<(Seq<char>, u32)>) -> bool {
    forall|i: int, j: int| 0 <= i < j < s.len() ==> s[i].1 >= s[j].1
}

/// Length of the longest prefix of `s` whose strengths are at least
/// `strength`: where a new entry of that strength goes, behind its equals.
pub open spec fn rank(s: Seq<(Seq<char>, u32)>, strength: u32) -> int
    decreases s.len(),
{
    if s.len() == 0 || s[0].1 < strength {
        0
    } else {
        1 + rank(s.drop_first(), strength)
    }
}

/// `s` with `e` put in its place: behind the entries at least as strong.
pub open spec fn placed(s: Seq<(Seq<char>, u32)>, e: (Seq<char>, u32)) -> Seq<(Seq<char>, u32)> {
    s.insert(rank(s, e.1), e)
}

/// The first `bound` items of `s`, or all of `s` where it has no more.
pub open spec fn bounded<A>(s: Seq<A>, bound: int) -> Seq<A> {
    if s.len() <= bound {
        s
    } else {
        s.take(bound)
    }
}

/// The entries after `e` has been put in its place and the weakest entries
/// beyond `target_size` have been dropped.
pub open spec fn inserted(s: Seq<(Seq<char>, u32)>, e: (Seq<char>, u32), target_size: int) -> Seq<
    (Seq<char>, u32),
> {
    bounded(placed(s, e), target_size)
}

/// A prefix of strengths at least `strength`, ending at an entry below it or
/// at the end, is the rank.
pub proof fn lemma_rank_is(s: Seq<(Seq<char>, u32)>, strength: u32, p: int)
    requires
        0 <= p <= s.len(),
        forall|j: int| 0 <= j < p ==> s[j].1 >= strength,
        p == s.len() || s[p].1 < strength,
    ensures
        rank(s, strength) == p,
    decreases s.len(),
{
    if p > 0 {
        let t = s.drop_first();
        assert forall|j: int| 0 <= j < p - 1 implies t[j].1 >= strength by {
            assert(t[j] == s[j + 1]);
        }
        lemma_rank_is(t, strength, p - 1);
    }
}

/// The rank lies within the sequence, and in a descending sequence it parts
/// the entries at least as strong from the weaker ones.
pub proof fn lemma_rank_parts(s: Seq<(Seq<char>, u32)>, strength: u32)
    ensures
        0 <= rank(s, strength) <= s.len(),
        forall|j: int| 0 <= j < rank(s, strength) ==> s[j].1 >= strength,
        descending(s) ==> forall|j: int| rank(s, strength) <= j < s.len() ==> s[j].1 < strength,
    decreases s.len(),
{
    if s.len() == 0 || s[0].1 < strength {
    } else {
        let t = s.drop_first();
        lemma_rank_parts(t, strength);
        assert forall|j: int| 0 <= j < rank(s, strength) implies s[j].1 >= strength by {
            if j > 0 {
                assert(s[j] == t[j - 1]);
            }
        }
        if descending(s) {
            assert(descending(t)) by {
                assert forall|i: int, j: int| 0 <= i < j < t.len() implies t[i].1 >= t[j].1 by {
                    assert(t[i] == s[i + 1] && t[j] == s[j + 1]);
                }
            }
            assert forall|j: int| rank(s, strength) <= j < s.len() implies s[j].1 < strength by {
                assert(s[j] == t[j - 1]);
            }
        }
    }
}

/// Putting an entry in its place keeps a descending sequence descending.
pub proof fn lemma_placed_descending(s: Seq<(Seq<char>, u32)>, e: (Seq<char>, u32))
    requires
        descending(s),
    ensures
        descending(placed(s, e)),
        placed(s, e).len() == s.len() + 1,
{
    lemma_rank_parts(s, e.1);
    let p = rank(s, e.1);
    let all = placed(s, e);
    assert forall|i: int, j: int| 0 <= i < j < all.len() implies all[i].1 >= all[j].1 by {
        if i < p && j > p {
            assert(all[i] == s[i] && all[j] == s[j - 1]);
        } else if i > p {
            assert(all[i] == s[i - 1] && all[j] == s[j - 1]);
        }
    }
}

/// Inserting under a bound keeps a descending sequence descending, and
/// leaves it with one entry more or, at the bound, with as many as the bound.
pub proof fn lemma_inserted_descending(s: Seq<(Seq<char>, u32)>, e: (Seq<char>, u32), target_size: int)
    requires
        descending(s),
        0 <= target_size,
    ensures
        descending(inserted(s, e, target_size)),
        inserted(s, e, target_size).len() <= target_size,
        s.len() < target_size ==> inserted(s, e, target_size).len() == s.len() + 1,
        s.len() >= target_size ==> inserted(s, e, target_size).len() == target_size,
{
    lemma_placed_descending(s, e);
}

/// The cache of one kind of identity.
pub struct Cache {
    entries: Vec<Entry>,
    target_size: usize,
}

impl View for Cache {
    type V = Seq<(Seq<char>, u32)>;

    closed spec fn view(&self) -> Seq<(Seq<char>, u32)> {
        self.entries@.map_values(|e: Entry| e@)
    }
}

impl Cache {
    /// The greatest number of entries the cache retains.
    pub closed spec fn capacity(&self) -> int {
        self.target_size as int
    }

    /// The cache is ordered from strongest to weakest and within its bound.
    pub open spec fn wf(&self) -> bool {
        &&& descending(self@)
        &&& self@.len() <= self.capacity()
    }

    /// An empty cache that will retain up to `target_size` entries.
    pub fn new(target_size: usize) -> (r: Cache)
        ensures
            r@ == Seq::<(Seq<char>, u32)>::empty(),
            r.capacity() == target_size,
            r.wf(),
    {
        Cache { entries: Vec::new(), target_size }
    }

    /// The bound the cache was made with.
    pub fn target_size(&self) -> (r: usize)
        ensures
            r == self.capacity(),
    {
        self.target_size
    }

    /// Number of entries held.
    pub fn len(&self) -> (r: usize)
        ensures
            r == self@.len(),
    {
        self.entries.len()
    }

    /// Strength of the entry at `index`, strongest first, if there is one.
    pub fn strength_at(&self, index: usize) -> (r: Option<u32>)
        ensures
            r == if index < self@.len() {
                Some(self@[index as int].1)
            } else {
                None
            },
    {
        if index < self.entries.len() {
            Some(self.entries[index].strength)
        } else {
            None
        }
    }

    /// The entries as they are written out, strongest first: each identity
    /// in its canonical joined hexadecimal form, with its strength.
    pub fn records(&self) -> (r: Vec<(String, u32)>)
        ensures
            r@.map_values(|k: (String, u32)| (k.0@, k.1)) == self@,
            forall|i: int| 0 <= i < self@.len() ==> is_canonical(#[trigger] self@[i].0),
    {
        let mut out: Vec<(String, u32)> = Vec::new();
        let n = self.entries.len();
        let mut i: usize = 0;
        while i < n
            invariant
                n == self.entries.len(),
                0 <= i <= n,
                out@.map_values(|k: (String, u32)| (k.0@, k.1)) == self@.take(i as int),
                forall|j: int| 0 <= j < i ==> is_canonical(#[trigger] self@[j].0),
            decreases n - i,
        {
            let key = self.entries[i].candidate.to_hex_joined();
            let strength = self.entries[i].strength;
            assert(self@[i as int] == (key@, strength));
            out.push((key, strength));
            assert(out@.map_values(|k: (String, u32)| (k.0@, k.1)) =~= self@.take(i as int).push(
                (key@, strength),
            ));
            assert(out@.map_values(|k: (String, u32)| (k.0@, k.1)) =~= self@.take(i + 1));
            i = i + 1;
        }
        assert(self@.take(n as int) =~= self@);
        out
    }

    /// Adds an identity with its strength: behind the entries at least as
    /// strong, before the weaker ones; then drops from the weak end whatever
    /// exceeds the bound.
    pub fn add_identity(&mut self, identity: Candidate, strength: u32)
        requires
            old(self).wf(),
        ensures
            final(self)@ == inserted(old(self)@, (identity@, strength), old(self).capacity()),
            final(self).capacity() == old(self).capacity(),
            final(self).wf(),
    {
        let ghost before = self@;
        let n = self.entries.len();
        let mut p: usize = 0;
        while p < n && self.entries[p].strength >= strength
            invariant
                n == self.entries.len(),
                self@ == before,
                0 <= p <= n,
                forall|j: int| 0 <= j < p ==> before[j].1 >= strength,
            decreases n - p,
        {
            p = p + 1;
        }
        proof {
            lemma_rank_is(before, strength, p as int);
            lemma_inserted_descending(before, (identity@, strength), self.target_size as int);
        }
        self.entries.insert(p, Entry { candidate: identity, strength });
        assert(self@ =~= placed(before, (identity@, strength)));
        if n >= self.target_size {
            self.entries.truncate(self.target_size);
            assert(self@ =~= placed(before, (identity@, strength)).take(self.target_size as int));
        }
    }

    /// Strength of the weakest entry, or 0 for an empty cache: no entry of
    /// a well-formed cache is weaker.
    pub fn get_min_strength(&self) -> (r: u32)
        ensures
            r == if self@.len() == 0 {
                0u32
            } else {
                self@.last().1
            },
            self.wf() ==> forall|i: int| 0 <= i < self@.len() ==> self@[i].1 >= r,
    {
        let n = self.entries.len();
        if n == 0 {
            0
        } else {
            let weakest = self.entries[n - 1].strength;
            proof {
                if self.wf() {
                    assert forall|i: int| 0 <= i < self@.len() implies self@[i].1 >= weakest by {
                        if i < n - 1 {
                            assert(self@[i].1 >= self@[n - 1].1);
                        }
                    }
                }
            }
            weakest
        }
    }

    /// Removes and returns the strongest entry; an empty cache is left as it
    /// is and reported.
    pub fn take_best(&mut self) -> (r: Result<Entry, CacheError>)
        ensures
            final(self).capacity() == old(self).capacity(),
            old(self).wf() ==> final(self).wf(),
            old(self)@.len() == 0 ==> r == Err::<Entry, CacheError>(
                CacheError::NoCandidatesAvailable,
            ) && final(self)@ == old(self)@,
            old(self)@.len() > 0 ==> r is Ok && r->Ok_0@ == old(self)@[0] && final(self)@ == old(
                self,
            )@.drop_first(),
    {
        if self.entries.len() == 0 {
            Err(CacheError::NoCandidatesAvailable)
        } else {
            let ghost before = self@;
            let best = self.entries.remove(0);
            assert(self@ =~= before.drop_first());
            Ok(best)
        }
    }

    /// Consumes the strongest entry and describes it. An empty cache, and one
    /// whose strongest identity is too strong for an address, are left as they
    /// are and reported.
    pub fn output(&mut self) -> (r: Result<Output, CacheError>)
        ensures
            final(self).capacity() == old(self).capacity(),
            old(self).wf() ==> final(self).wf(),
            match r {
                Ok(o) => {
                    &&& old(self)@.len() > 0
                    &&& key_strength(old(self)@[0].0) <= MAX_ADDRESS_STRENGTH
                    &&& o.describes(old(self)@[0].0)
                    &&& final(self)@ == old(self)@.drop_first()
                },
                Err(CacheError::NoCandidatesAvailable) => {
                    &&& old(self)@.len() == 0
                    &&& final(self)@ == old(self)@
                },
                Err(CacheError::StrengthOutOfRange) => {
                    &&& old(self)@.len() > 0
                    &&& key_strength(old(self)@[0].0) > MAX_ADDRESS_STRENGTH
                    &&& final(self)@ == old(self)@
                },
            },
    {
        if self.entries.len() == 0 {
            return Err(CacheError::NoCandidatesAvailable);
        }
        match self.entries[0].candidate.try_describe() {
            None => Err(CacheError::StrengthOutOfRange),
            Some(described) => {
                let ghost before = self@;
                let _ = self.entries.remove(0);
                assert(self@ =~= before.drop_first());
                Ok(described)
            },
        }
    }
}

} // verus!
