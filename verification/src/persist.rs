//! The persisted form of a cache, and the two directions between it and the
//! cache in memory.

use vstd::prelude::*;
use crate::cache::{Cache, descending, inserted, lemma_rank_is};
use crate::keys::{Candidate, decoded_key, is_canonical};

verus! {

/// A cache as it is written out: hexadecimal keys with their strengths,
/// strongest first.
pub struct CacheFile {
    pub keys: Vec<(String, u32)>,
}

impl View for CacheFile {
    type V = Seq<(Seq<char>, u32)>;

    open spec fn view(&self) -> Seq<(Seq<char>, u32)> {
        self.keys@.map_values(|k: (String, u32)| (k.0@, k.1))
    }
}

/// The entries that loading `records` gives: each record whose key decodes
/// is put in its place, in the order of the records, under the bound; a
/// record whose key does not decode is passed over.
pub open spec fn loaded(records: Seq<(Seq<char>, u32)>, target_size: int) -> Seq<(Seq<char>, u32)>
    decreases records.len(),
{
    if records.len() == 0 {
        Seq::empty()
    } else {
        let rest = loaded(records.drop_last(), target_size);
        match decoded_key(records.last().0) {
            Some(key) => inserted(rest, (key, records.last().1), target_size),
            None => rest,
        }
    }
}

/// Records that are descending, within the bound and canonical load as they
/// stand: nothing is dropped, reordered or rewritten.
pub proof fn lemma_loaded_keeps_canonical(records: Seq<(Seq<char>, u32)>, target_size: int)
    requires
        descending(records),
        records.len() <= target_size,
        forall|i: int| 0 <= i < records.len() ==> is_canonical(#[trigger] records[i].0),
    ensures
        loaded(records, target_size) == records,
    decreases records.len(),
{
    if records.len() > 0 {
        let rest = records.drop_last();
        let last = records.last();
        assert forall|i: int| 0 <= i < rest.len() implies is_canonical(#[trigger] rest[i].0) by {
            assert(rest[i] == records[i]);
        }
        lemma_loaded_keeps_canonical(rest, target_size);
        assert(is_canonical(records[records.len() - 1].0));
        lemma_rank_is(rest, last.1, rest.len() as int);
        assert(rest.insert(rest.len() as int, last) =~= records);
    }
}

impl CacheFile {
    /// The persisted form of a cache: its entries in order. Loading it again
    /// under any bound that has room for them gives the same entries back.
    pub fn from(cache: Cache) -> (r: CacheFile)
        ensures
            r@ == cache@,
            cache.wf() ==> forall|bound: int|
                cache@.len() <= bound ==> #[trigger] loaded(r@, bound) == cache@,
    {
        let keys = cache.records();
        proof {
            if cache.wf() {
                assert forall|bound: int| cache@.len() <= bound implies #[trigger] loaded(
                    cache@,
                    bound,
                ) == cache@ by {
                    lemma_loaded_keeps_canonical(cache@, bound);
                }
            }
        }
        CacheFile { keys }
    }
}

impl Cache {
    /// Builds the cache from its persisted form: the records whose keys
    /// decode, each put in its place under the bound `target_size`.
    pub fn load(cache_file: CacheFile, target_size: usize) -> (r: Cache)
        ensures
            r@ == loaded(cache_file@, target_size as int),
            r.capacity() == target_size,
            r.wf(),
    {
        let mut cache = Cache::new(target_size);
        let n = cache_file.keys.len();
        let mut i: usize = 0;
        while i < n
            invariant
                n == cache_file.keys.len(),
                0 <= i <= n,
                cache.wf(),
                cache.capacity() == target_size,
                cache@ == loaded(cache_file@.take(i as int), target_size as int),
            decreases n - i,
        {
            proof {
                let upto = cache_file@.take(i + 1);
                assert(upto.drop_last() =~= cache_file@.take(i as int));
                assert(upto.last() == cache_file@[i as int]);
            }
            match Candidate::from_hex(cache_file.keys[i].0.as_str()) {
                Some(identity) => {
                    cache.add_identity(identity, cache_file.keys[i].1);
                },
                None => {},
            }
            i = i + 1;
        }
        assert(cache_file@.take(n as int) =~= cache_file@);
        cache
    }
}

} // verus!
