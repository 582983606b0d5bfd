//! A searchable, persistable collection of (fingerprint, path) entries.

use crate::ihash::{distance_to_self_is_zero, hamming, IHash};
use crate::ranking::{is_ranking, leading, rank};
use vstd::prelude::*;

verus! {

#[verifier::external_type_specification]
#[verifier::external_body]
pub struct ExJsonError(serde_json::Error);

/// The JSON text that serde_json writes for a list of `[fingerprint, path]` pairs.
pub uninterp spec fn json_of_entries(entries: Seq<(u64, Seq<char>)>) -> Seq<char>;

/// The list of `[fingerprint, path]` pairs that serde_json reads from `text`,
/// or `None` when the text does not have that shape.
pub uninterp spec fn entries_of_json(text: Seq<char>) -> Option<Seq<(u64, Seq<char>)>>;

/// The plain values held by a list of (number, string) pairs.
pub open spec fn pairs_view(v: Seq<(u64, String)>) -> Seq<(u64, Seq<char>)> {
    v.map_values(|e: (u64, String)| (e.0, e.1@))
}

/// Relies on `serde_json::to_string` for `Vec<(u64, String)>`: a JSON array
/// holding one `[number, string]` array per pair, which `serde_json::from_str`
/// reads back as the same pairs. It fails only where a `Serialize` impl fails
/// or a map has keys that are not strings, neither of which happens here.
#[verifier::external_body]
fn entries_to_json(entries: &Vec<(u64, String)>) -> (r: Result<String, serde_json::Error>)
    ensures
        r is Ok,
        r matches Ok(text) ==> text@ == json_of_entries(pairs_view(entries@)),
        r matches Ok(text) ==> entries_of_json(text@) == Some(pairs_view(entries@)),
{
    serde_json::to_string(entries)
}

/// Relies on `serde_json::from_str` for `Vec<(u64, String)>`: the pairs read
/// depend on the text alone.
#[verifier::external_body]
fn entries_from_json(text: &str) -> (r: Result<Vec<(u64, String)>, serde_json::Error>)
    ensures
        r is Ok <==> entries_of_json(text@) is Some,
        r matches Ok(v) ==> entries_of_json(text@) == Some(pairs_view(v@)),
{
    serde_json::from_str(text)
}

/// Why a store could not be read or written.
#[derive(Clone, Copy, Debug, PartialEq, Eq, Structural)]
pub enum StoreError {
    /// The store was never read from or written to a file.
    NoPath,
    /// The stored text is not a list of `[fingerprint, path]` pairs.
    Malformed,
}

/// The smallest distance from `h` to any of `queries` (which is nonempty).
pub open spec fn best_distance(h: u64, queries: Seq<u64>) -> nat
    decreases queries.len(),
{
    if queries.len() <= 1 {
        hamming(h, queries[0])
    } else {
        let rest = best_distance(h, queries.drop_last());
        let d = hamming(h, queries.last());
        if d < rest {
            d
        } else {
            rest
        }
    }
}

/// Similarity of a stored fingerprint to its best-matching query: 100 minus
/// the smallest distance.
pub open spec fn similarity(h: u64, queries: Seq<u64>) -> int {
    100 - best_distance(h, queries)
}

/// Each stored entry scored against the queries, tagged with its position.
pub open spec fn scored_entries(entries: Seq<(u64, Seq<char>)>, queries: Seq<u64>) -> Seq<(i128, usize)> {
    Seq::new(entries.len(), |i: int| (similarity(entries[i].0, queries) as i128, i as usize))
}

/// The fingerprint values of a list of fingerprints.
pub open spec fn values(hs: Seq<IHash>) -> Seq<u64> {
    hs.map_values(|h: IHash| h.value)
}

/// Ordered entries of (fingerprint, path), with the file they were last read from.
pub struct HashStore {
    hashes: Vec<(IHash, String)>,
    path: Option<String>,
}

impl View for HashStore {
    type V = Seq<(u64, Seq<char>)>;

    closed spec fn view(&self) -> Seq<(u64, Seq<char>)> {
        self.hashes@.map_values(|e: (IHash, String)| (e.0.value, e.1@))
    }
}

proof fn lemma_ranking_positions(s: Seq<(i128, usize)>, items: Seq<(i128, usize)>)
    requires
        is_ranking(s, items),
        forall|i: int| 0 <= i < items.len() ==> (#[trigger] items[i]).1 == i,
    ensures
        s.len() == items.len(),
        forall|x: int| 0 <= x < s.len() ==> (#[trigger] s[x]).1 < items.len(),
{
    s.to_multiset_ensures();
    items.to_multiset_ensures();
    assert forall|x: int| 0 <= x < s.len() implies (#[trigger] s[x]).1 < items.len() by {
        assert(s.to_multiset().count(s[x]) > 0);
        assert(items.contains(s[x]));
    }
}

/// The plain value of an optional string slice.
pub open spec fn str_view(r: Option<&str>) -> Option<Seq<char>> {
    match r {
        Some(p) => Some(p@),
        None => None,
    }
}

/// `found` is the path of the first entry at distance zero from `h`, or
/// `None` when there is no such entry.
pub open spec fn found_first(entries: Seq<(u64, Seq<char>)>, h: u64, found: Option<Seq<char>>) -> bool {
    match found {
        None => forall|i: int| 0 <= i < entries.len() ==> hamming(entries[i].0, h) != 0,
        Some(p) => exists|i: int|
            {
                &&& 0 <= i < entries.len()
                &&& hamming(entries[i].0, h) == 0
                &&& forall|j: int| 0 <= j < i ==> hamming(entries[j].0, h) != 0
                &&& p == entries[i].1
            },
    }
}

/// Once an entry is added to a store that holds no entry at distance zero from
/// its fingerprint, looking that fingerprint up gives the entry's path.
pub proof fn added_entry_is_found(entries: Seq<(u64, Seq<char>)>, h: IHash, p: Seq<char>, found: Option<Seq<char>>)
    requires
        forall|i: int| 0 <= i < entries.len() ==> hamming(entries[i].0, h.value) != 0,
        found_first(entries.push((h.value, p)), h.value, found),
    ensures
        found == Some(p),
{
    let after = entries.push((h.value, p));
    distance_to_self_is_zero(h);
    assert(hamming(after[entries.len() as int].0, h.value) == 0);
    match found {
        None => {},
        Some(q) => {
            let i = choose|i: int|
                {
                    &&& 0 <= i < after.len()
                    &&& hamming(after[i].0, h.value) == 0
                    &&& forall|j: int| 0 <= j < i ==> hamming(after[j].0, h.value) != 0
                    &&& q == after[i].1
                };
            assert(after[i] == entries[i] || i == entries.len());
        },
    }
}

/// A store that gains an entry, is written as JSON and read back, finds that
/// entry's path under its fingerprint, provided no earlier entry was at
/// distance zero from it.
pub proof fn reloaded_store_finds_added(
    entries: Seq<(u64, Seq<char>)>,
    h: IHash,
    p: Seq<char>,
    text: Seq<char>,
    loaded: Seq<(u64, Seq<char>)>,
    found: Option<Seq<char>>,
)
    requires
        forall|i: int| 0 <= i < entries.len() ==> hamming(entries[i].0, h.value) != 0,
        entries_of_json(text) == Some(entries.push((h.value, p))),
        Some(loaded) == entries_of_json(text),
        found_first(loaded, h.value, found),
    ensures
        found == Some(p),
{
    added_entry_is_found(entries, h, p, found);
}

impl Default for HashStore {
    fn default() -> (r: Self)
        ensures
            r@ == Seq::<(u64, Seq<char>)>::empty(),
            r.bound_path() is None,
    {
        HashStore::new()
    }
}

impl HashStore {
    /// The file path the store is bound to, if any.
    pub closed spec fn bound_path(&self) -> Option<Seq<char>> {
        match self.path {
            Some(p) => Some(p@),
            None => None,
        }
    }

    /// The paths of the best-ranked entries: the first `size` entries of some
    /// ranking `s` of the scored entries.
    pub open spec fn lists_best(&self, r: Seq<String>, queries: Seq<u64>, size: usize) -> bool {
        exists|s: Seq<(i128, usize)>|
            {
                &&& is_ranking(s, scored_entries(self@, queries))
                &&& r.len() == leading(s, size as int).len()
                &&& forall|j: int|
                    0 <= j < r.len() ==> (#[trigger] r[j])@ == self@[s[j].1 as int].1
            }
    }

    pub fn new() -> (r: Self)
        ensures
            r@ == Seq::<(u64, Seq<char>)>::empty(),
            r.bound_path() is None,
    {
        let r = HashStore { hashes: Vec::new(), path: None };
        assert(r@ =~= Seq::<(u64, Seq<char>)>::empty());
        r
    }

    /// Reads a store from the JSON text of a file, and binds it to that file's path.
    pub fn from_json(text: &str, path: &str) -> (r: Result<Self, StoreError>)
        ensures
            r is Ok <==> entries_of_json(text@) is Some,
            r matches Ok(s) ==> {
                &&& Some(s@) == entries_of_json(text@)
                &&& s.bound_path() == Some(path@)
            },
            r matches Err(e) ==> e == StoreError::Malformed,
    {
        match entries_from_json(text) {
            Err(_) => Err(StoreError::Malformed),
            Ok(pairs) => {
                let mut hashes: Vec<(IHash, String)> = Vec::new();
                let mut i: usize = 0;
                while i < pairs.len()
                    invariant
                        i <= pairs.len(),
                        hashes@.len() == i,
                        forall|k: int|
                            0 <= k < i ==> (#[trigger] hashes@[k]).0.value == pairs@[k].0
                                && hashes@[k].1@ == pairs@[k].1@,
                    decreases pairs.len() - i,
                {
                    let value = pairs[i].0;
                    let p = pairs[i].1.clone();
                    hashes.push((IHash { value }, p));
                    i = i + 1;
                }
                let s = HashStore { hashes, path: Some(path.to_string()) };
                assert(s@ =~= pairs_view(pairs@));
                Ok(s)
            },
        }
    }

    /// The JSON text of the entries, as an array of `[fingerprint, path]` pairs;
    /// reading it back gives the same entries.
    pub fn to_json(&self) -> (r: String)
        ensures
            r@ == json_of_entries(self@),
            entries_of_json(r@) == Some(self@),
    {
        let mut pairs: Vec<(u64, String)> = Vec::new();
        let mut i: usize = 0;
        while i < self.hashes.len()
            invariant
                i <= self.hashes.len(),
                pairs@.len() == i,
                forall|k: int|
                    0 <= k < i ==> (#[trigger] pairs@[k]).0 == self.hashes@[k].0.value
                        && pairs@[k].1@ == self.hashes@[k].1@,
            decreases self.hashes.len() - i,
        {
            let value = self.hashes[i].0.value;
            let p = self.hashes[i].1.clone();
            pairs.push((value, p));
            i = i + 1;
        }
        assert(pairs_view(pairs@) =~= self@);
        match entries_to_json(&pairs) {
            Ok(text) => text,
            Err(_) => {
                proof {
                    assert(false);
                }
                String::new()
            },
        }
    }

    /// The bound path and the JSON text to write there.
    pub fn save(&self) -> (r: Result<(String, String), StoreError>)
        ensures
            self.bound_path() is None ==> r == Err::<(String, String), StoreError>(StoreError::NoPath),
            self.bound_path() is Some ==> match r {
                Ok((p, text)) => {
                    &&& self.bound_path() == Some(p@)
                    &&& text@ == json_of_entries(self@)
                    &&& entries_of_json(text@) == Some(self@)
                },
                Err(_) => false,
            },
    {
        match &self.path {
            Some(p) => Ok((p.clone(), self.to_json())),
            None => Err(StoreError::NoPath),
        }
    }

    pub fn add_hash(&mut self, hash: &IHash, path: &str)
        ensures
            final(self)@ == old(self)@.push((hash.value, path@)),
            final(self).bound_path() == old(self).bound_path(),
    {
        self.hashes.push((*hash, path.to_string()));
        assert(self@ =~= old(self)@.push((hash.value, path@)));
    }

    /// The path of the first entry at distance zero from `hash`.
    pub fn find(&self, hash: &IHash) -> (r: Option<&str>)
        ensures
            found_first(self@, hash.value, str_view(r)),
    {
        let mut i: usize = 0;
        while i < self.hashes.len()
            invariant
                i <= self.hashes.len(),
                self@.len() == self.hashes.len(),
                forall|j: int| 0 <= j < i ==> hamming(self@[j].0, hash.value) != 0,
            decreases self.hashes.len() - i,
        {
            assert(self@[i as int] == (self.hashes@[i as int].0.value, self.hashes@[i as int].1@));
            if self.hashes[i].0.dist(hash) == 0 {
                return Some(self.hashes[i].1.as_str());
            }
            i = i + 1;
        }
        None
    }

    /// The paths of the `size` entries most similar to any of the queries
    /// (all entries when there are fewer), most similar first.
    pub fn find_many(&self, hash_list: &Vec<IHash>, size: usize) -> (r: Vec<String>)
        requires
            hash_list.len() > 0,
        ensures
            self.lists_best(r@, values(hash_list@), size),
            r.len() <= size,
            r.len() <= self@.len(),
            r.len() == size || r.len() == self@.len(),
    {
        let ghost queries = values(hash_list@);
        let ghost scored = scored_entries(self@, queries);
        let mut items: Vec<(i128, usize)> = Vec::new();
        let mut i: usize = 0;
        while i < self.hashes.len()
            invariant
                i <= self.hashes.len(),
                self@.len() == self.hashes.len(),
                queries == values(hash_list@),
                scored == scored_entries(self@, queries),
                hash_list.len() > 0,
                items@ =~= scored.take(i as int),
            decreases self.hashes.len() - i,
        {
            let h = &self.hashes[i].0;
            assert(self@[i as int].0 == h.value);
            let mut best: u32 = h.dist(&hash_list[0]);
            assert(queries.take(1).drop_last().len() == 0);
            let mut j: usize = 1;
            while j < hash_list.len()
                invariant
                    1 <= j <= hash_list.len(),
                    queries == values(hash_list@),
                    best as nat == best_distance(h.value, queries.take(j as int)),
                    best <= 64,
                decreases hash_list.len() - j,
            {
                let d = h.dist(&hash_list[j]);
                assert(queries.take(j + 1).drop_last() =~= queries.take(j as int));
                if d < best {
                    best = d;
                }
                j = j + 1;
            }
            assert(queries.take(hash_list.len() as int) =~= queries);
            items.push(((100 - best) as i128, i));
            i = i + 1;
        }
        assert(items@ =~= scored);
        let ranked = rank(&items);
        proof {
            lemma_ranking_positions(ranked@, scored);
        }
        let m: usize = if size < ranked.len() {
            size
        } else {
            ranked.len()
        };
        let mut r: Vec<String> = Vec::new();
        let mut k: usize = 0;
        while k < m
            invariant
                k <= m,
                m <= ranked.len(),
                ranked.len() == self@.len(),
                self@.len() == self.hashes.len(),
                r.len() == k,
                forall|x: int| 0 <= x < ranked.len() ==> (#[trigger] ranked@[x]).1 < self@.len(),
                forall|j: int| 0 <= j < k ==> (#[trigger] r@[j])@ == self@[ranked@[j].1 as int].1,
            decreases m - k,
        {
            let at = ranked[k].1;
            assert(self@[at as int].1 == self.hashes@[at as int].1@);
            r.push(self.hashes[at].1.clone());
            k = k + 1;
        }
        r
    }

    /// The paths of the `size` entries most similar to `hash`, most similar first.
    pub fn find_heap(&self, hash: &IHash, size: usize) -> (r: Vec<String>)
        ensures
            self.lists_best(r@, seq![hash.value], size),
            r.len() <= size,
            r.len() <= self@.len(),
            r.len() == size || r.len() == self@.len(),
    {
        let queries = vec![*hash];
        assert(values(queries@) =~= seq![hash.value]);
        self.find_many(&queries, size)
    }
}

} // verus!
