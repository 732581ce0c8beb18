//! The embedding store: records of (id, content text, embedding) with a dimension
//! fixed per store, and deterministic nearest-first ranking.
//!
//! Embedding components are held as the bit patterns of IEEE-754 single-precision
//! values. Distances are handed in as ranking keys: for the non-negative Euclidean
//! distances the store ranks by, the bit pattern of a single-precision value orders
//! exactly as the value does. Equal keys rank by insertion order, earlier first.
use vstd::prelude::*;
use vstd::set_lib::{lemma_int_range, lemma_len_subset, set_int_range};

verus! {

/// Why a store operation failed.
#[derive(Clone, Copy, Debug, PartialEq, Eq, Structural)]
pub enum StoreError {
    /// A vector's length differs from the store's dimension.
    DimensionMismatch { expected: usize, found: usize },
    /// The store was used before it was opened.
    NotInitialized,
    /// Reading or writing the persisted records failed, or they are inconsistent.
    Persistence,
}

/// One stored record; its id is its position in the store.
#[derive(Clone, Debug)]
pub struct EmbeddingRecord {
    pub id: usize,
    pub content: String,
    pub embedding: Vec<u32>,
}

/// Whether record `a` ranks before record `b` under `keys`: a smaller key, or an
/// equal key and an earlier position.
pub open spec fn ranks_before(keys: Seq<u32>, a: int, b: int) -> bool {
    keys[a] < keys[b] || (keys[a] == keys[b] && a < b)
}

/// The number of results a search for `k` returns among `n` records.
pub open spec fn result_count(k: nat, n: nat) -> nat {
    if k < n {
        k
    } else {
        n
    }
}

/// `order` lists the `min(k, n)` positions that rank first under `keys`, in rank order.
pub open spec fn is_ranking(keys: Seq<u32>, k: nat, order: Seq<usize>) -> bool {
    &&& order.len() == result_count(k, keys.len())
    &&& forall|t: int| 0 <= t < order.len() ==> #[trigger] order[t] < keys.len()
    &&& forall|s: int, t: int|
        0 <= s < t < order.len() ==> ranks_before(keys, #[trigger] order[s] as int, #[trigger] order[t] as int)
    &&& forall|j: int, t: int|
        0 <= j < keys.len() && 0 <= t < order.len() && !order.contains(j as usize)
            ==> #[trigger] ranks_before(keys, order[t] as int, j)
}

/// A sequence of fewer than `n` positions misses some position below `n`.
proof fn lemma_some_position_missing(out: Seq<usize>, n: nat)
    requires
        out.len() < n,
        n <= usize::MAX,
    ensures
        exists|j: usize| j < n && !(#[trigger] out.contains(j)),
{
    if forall|j: usize| j < n ==> #[trigger] out.contains(j) {
        let s = out.map_values(|x: usize| x as int);
        assert forall|j: int| set_int_range(0, n as int).contains(j) implies s.to_set().contains(j) by {
            assert(out.contains(j as usize));
            let t = choose|t: int| 0 <= t < out.len() && out[t] == j as usize;
            assert(s[t] == j);
        }
        s.lemma_cardinality_of_set();
        lemma_int_range(0, n as int);
        vstd::seq_lib::seq_to_set_is_finite(s);
        lemma_len_subset(set_int_range(0, n as int), s.to_set());
    }
}

/// A ranking for at least as many results as there are records holds every
/// record, nearest first.
pub proof fn lemma_large_k_returns_all(keys: Seq<u32>, k: nat, order: Seq<usize>)
    requires
        is_ranking(keys, k, order),
        k >= keys.len(),
    ensures
        order.len() == keys.len(),
        forall|j: usize| j < keys.len() ==> #[trigger] order.contains(j),
        forall|s: int, t: int|
            0 <= s < t < order.len() ==> ranks_before(keys, #[trigger] order[s] as int, #[trigger] order[t] as int),
{
    let n = keys.len();
    let s = order.map_values(|x: usize| x as int);
    assert forall|j: usize| j < n implies #[trigger] order.contains(j) by {
        if !order.contains(j) {
            assert(s.no_duplicates()) by {
                assert forall|a: int, b: int|
                    0 <= a < s.len() && 0 <= b < s.len() && a != b implies s[a] != s[b] by {
                    if a < b {
                        assert(ranks_before(keys, order[a] as int, order[b] as int));
                    } else {
                        assert(ranks_before(keys, order[b] as int, order[a] as int));
                    }
                }
            }
            s.unique_seq_to_set();
            lemma_int_range(0, n as int);
            let full = set_int_range(0, n as int);
            let rest = full.remove(j as int);
            assert(full.contains(j as int));
            assert(rest.len() == n - 1);
            assert forall|x: int| s.to_set().contains(x) implies rest.contains(x) by {
                let t = choose|t: int| 0 <= t < s.len() && s[t] == x;
                assert(order[t] < n);
                assert(order[t] != j) by {
                    if order[t] == j {
                        assert(order.contains(j));
                    }
                }
            }
            lemma_len_subset(s.to_set(), rest);
        }
    }
}

/// The first `t` entries of two rankings for the same keys and `k` agree.
proof fn lemma_rankings_agree_up_to(keys: Seq<u32>, k: nat, o1: Seq<usize>, o2: Seq<usize>, t: int)
    requires
        is_ranking(keys, k, o1),
        is_ranking(keys, k, o2),
        0 <= t <= o1.len(),
    ensures
        forall|u: int| 0 <= u < t ==> o1[u] == o2[u],
    decreases t,
{
    if t > 0 {
        lemma_rankings_agree_up_to(keys, k, o1, o2, t - 1);
        let u = t - 1;
        lemma_first_difference_impossible(keys, k, o1, o2, u);
        lemma_first_difference_impossible(keys, k, o2, o1, u);
    }
}

/// Where two rankings agree before position `u`, the entry of the first at `u`
/// does not rank strictly before the entry of the second.
proof fn lemma_first_difference_impossible(keys: Seq<u32>, k: nat, o1: Seq<usize>, o2: Seq<usize>, u: int)
    requires
        is_ranking(keys, k, o1),
        is_ranking(keys, k, o2),
        0 <= u < o1.len(),
        forall|v: int| 0 <= v < u ==> o1[v] == o2[v],
    ensures
        !ranks_before(keys, o1[u] as int, o2[u] as int),
{
    let a = o1[u];
    let b = o2[u];
    if ranks_before(keys, a as int, b as int) {
        if o2.contains(a) {
            let w = choose|w: int| 0 <= w < o2.len() && o2[w] == a;
            if w < u {
                assert(o1[w] == a);
                assert(ranks_before(keys, o1[w] as int, o1[u] as int));
            } else if w > u {
                assert(ranks_before(keys, o2[u] as int, o2[w] as int));
            }
        } else {
            assert(ranks_before(keys, o2[u] as int, a as int));
        }
    }
}

/// There is one ranking for given keys and `k`.
pub proof fn lemma_ranking_unique(keys: Seq<u32>, k: nat, o1: Seq<usize>, o2: Seq<usize>)
    requires
        is_ranking(keys, k, o1),
        is_ranking(keys, k, o2),
    ensures
        o1 == o2,
{
    lemma_rankings_agree_up_to(keys, k, o1, o2, o1.len() as int);
    assert(o1 =~= o2);
}

/// Whether position `i` may come after the ranking so far, whose last entry is `last` if any.
pub open spec fn may_follow(keys: Seq<u32>, has_last: bool, last: int, i: int) -> bool {
    !has_last || ranks_before(keys, last, i)
}

/// The positions of the `k` records that rank first under `keys`, in rank order.
pub fn rank(keys: &Vec<u32>, k: usize) -> (r: Vec<usize>)
    ensures
        is_ranking(keys@, k as nat, r@),
{
    let n = keys.len();
    let m: usize = if k < n { k } else { n };
    let mut out: Vec<usize> = Vec::new();
    while out.len() < m
        invariant
            n == keys.len(),
            m == result_count(k as nat, n as nat),
            out.len() <= m,
            forall|t: int| 0 <= t < out.len() ==> #[trigger] out@[t] < n,
            forall|s: int, t: int|
                0 <= s < t < out.len() ==> ranks_before(keys@, #[trigger] out@[s] as int, #[trigger] out@[t] as int),
            forall|j: int, t: int|
                0 <= j < n && 0 <= t < out.len() && !out@.contains(j as usize)
                    ==> #[trigger] ranks_before(keys@, out@[t] as int, j),
        decreases m - out.len(),
    {
        let has_last = out.len() > 0;
        let last: usize = if has_last { out[out.len() - 1] } else { 0 };
        let mut found = false;
        let mut best: usize = 0;
        let mut j: usize = 0;
        while j < n
            invariant
                n == keys.len(),
                j <= n,
                has_last == (out.len() > 0),
                has_last ==> last == out@[out.len() - 1],
                has_last ==> last < n,
                found ==> best < j,
                found ==> may_follow(keys@, has_last, last as int, best as int),
                found ==> forall|i: int|
                    0 <= i < j && #[trigger] may_follow(keys@, has_last, last as int, i) ==> i
                        == best || ranks_before(keys@, best as int, i),
                !found ==> forall|i: int|
                    0 <= i < j ==> !#[trigger] may_follow(keys@, has_last, last as int, i),
            decreases n - j,
        {
            let after = !has_last || keys[last] < keys[j] || (keys[last] == keys[j] && last < j);
            if after {
                if !found || keys[j] < keys[best] || (keys[j] == keys[best] && j < best) {
                    let ghost old_best = best;
                    let ghost old_found = found;
                    found = true;
                    best = j;
                    assert forall|i: int|
                        0 <= i < j + 1 && #[trigger] may_follow(keys@, has_last, last as int, i)
                            implies i == best || ranks_before(keys@, best as int, i) by {
                        if old_found && i < j {
                            assert(i == old_best || ranks_before(keys@, old_best as int, i));
                        }
                    }
                }
            }
            j += 1;
        }
        proof {
            lemma_some_position_missing(out@, n as nat);
            let w = choose|w: usize| w < n && !out@.contains(w);
            if has_last {
                assert(ranks_before(keys@, out@[out.len() - 1] as int, w as int));
            }
            assert(may_follow(keys@, has_last, last as int, w as int));
            assert(found);
        }
        let ghost prev = out@;
        out.push(best);
        assert(out@[prev.len() as int] == best);
        assert forall|s: int, t: int| 0 <= s < t < out.len() implies ranks_before(
            keys@,
            #[trigger] out@[s] as int,
            #[trigger] out@[t] as int,
        ) by {
            if t == prev.len() && s < prev.len() - 1 {
                assert(ranks_before(keys@, prev[s] as int, prev[prev.len() - 1] as int));
            }
        }
        assert forall|jj: int, t: int|
            0 <= jj < n && 0 <= t < out.len() && !out@.contains(jj as usize)
                implies #[trigger] ranks_before(keys@, out@[t] as int, jj) by {
            assert(!prev.contains(jj as usize)) by {
                if prev.contains(jj as usize) {
                    let q = choose|q: int| 0 <= q < prev.len() && prev[q] == jj as usize;
                    assert(out@[q] == jj as usize);
                }
            }
            if t < prev.len() {
                assert(out@[t] == prev[t]);
            } else {
                assert(out@.contains(best));
                assert(jj != best as int);
                if has_last {
                    assert(ranks_before(keys@, prev[prev.len() - 1] as int, jj));
                }
                assert(may_follow(keys@, has_last, last as int, jj));
            }
        }
    }
    out
}

/// A store whose records all have one dimension.
pub struct EmbeddingStore {
    dimension: usize,
    records: Vec<EmbeddingRecord>,
}

impl EmbeddingStore {
    /// The store's fixed dimension.
    pub closed spec fn dim(&self) -> nat {
        self.dimension as nat
    }

    /// The records' content texts, in insertion order.
    pub closed spec fn contents_view(&self) -> Seq<Seq<char>> {
        self.records@.map_values(|r: EmbeddingRecord| r.content@)
    }

    /// The records' embeddings, in insertion order.
    pub closed spec fn embeddings_view(&self) -> Seq<Seq<u32>> {
        self.records@.map_values(|r: EmbeddingRecord| r.embedding@)
    }

    /// Every record has the store's dimension and its position as its id.
    pub closed spec fn wf(&self) -> bool {
        forall|i: int|
            0 <= i < self.records.len() ==> {
                &&& (#[trigger] self.records@[i]).embedding.len() == self.dimension
                &&& self.records@[i].id == i
            }
    }

    /// An empty store of the given dimension.
    pub fn new(dimension: usize) -> (r: EmbeddingStore)
        ensures
            r.wf(),
            r.dim() == dimension,
            r.contents_view() == Seq::<Seq<char>>::empty(),
            r.embeddings_view() == Seq::<Seq<u32>>::empty(),
    {
        let r = EmbeddingStore { dimension, records: Vec::new() };
        assert(r.contents_view() =~= Seq::<Seq<char>>::empty());
        assert(r.embeddings_view() =~= Seq::<Seq<u32>>::empty());
        r
    }

    /// Reopens a store of the given dimension over records read back from storage.
    /// A record of another dimension is refused with `DimensionMismatch` naming the
    /// first such record's length; otherwise a record whose id is not its position
    /// is refused with `Persistence`.
    pub fn open(dimension: usize, records: Vec<EmbeddingRecord>) -> (r: Result<EmbeddingStore, StoreError>)
        ensures
            (exists|i: int| 0 <= i < records.len() && (#[trigger] records@[i]).embedding@.len() != dimension)
                <==> r matches Err(StoreError::DimensionMismatch { .. }),
            r matches Err(StoreError::DimensionMismatch { expected, found }) ==> {
                &&& expected == dimension
                &&& exists|i: int|
                    0 <= i < records.len() && (#[trigger] records@[i]).embedding@.len() == found && found != dimension
                    && forall|h: int| 0 <= h < i ==> (#[trigger] records@[h]).embedding@.len() == dimension
            },
            r == Err::<EmbeddingStore, StoreError>(StoreError::Persistence) <==> (
                (forall|i: int| 0 <= i < records.len() ==> (#[trigger] records@[i]).embedding@.len() == dimension)
                && exists|i: int| 0 <= i < records.len() && (#[trigger] records@[i]).id != i),
            r is Ok <==> forall|i: int|
                0 <= i < records.len() ==> (#[trigger] records@[i]).embedding@.len() == dimension
                    && records@[i].id == i,
            r matches Ok(st) ==> {
                &&& st.wf()
                &&& st.dim() == dimension
                &&& st.contents_view() == records@.map_values(|x: EmbeddingRecord| x.content@)
                &&& st.embeddings_view() == records@.map_values(|x: EmbeddingRecord| x.embedding@)
            },
    {
        let mut i: usize = 0;
        while i < records.len()
            invariant
                i <= records.len(),
                forall|h: int| 0 <= h < i ==> (#[trigger] records@[h]).embedding@.len() == dimension,
            decreases records.len() - i,
        {
            let found = records[i].embedding.len();
            if found != dimension {
                return Err(StoreError::DimensionMismatch { expected: dimension, found });
            }
            i += 1;
        }
        let mut i: usize = 0;
        while i < records.len()
            invariant
                i <= records.len(),
                forall|h: int| 0 <= h < records.len() ==> (#[trigger] records@[h]).embedding@.len() == dimension,
                forall|h: int| 0 <= h < i ==> (#[trigger] records@[h]).id == h,
            decreases records.len() - i,
        {
            if records[i].id != i {
                return Err(StoreError::Persistence);
            }
            i += 1;
        }
        Ok(EmbeddingStore { dimension, records })
    }

    /// Adds a record and returns its id; a vector of another length than the
    /// store's dimension is refused and the store is left as it was.
    pub fn insert(&mut self, content: String, embedding: Vec<u32>) -> (r: Result<usize, StoreError>)
        requires
            old(self).wf(),
        ensures
            final(self).wf(),
            final(self).dim() == old(self).dim(),
            embedding@.len() != old(self).dim() ==> {
                &&& r == Err::<usize, StoreError>(
                    StoreError::DimensionMismatch {
                        expected: old(self).dim() as usize,
                        found: embedding@.len() as usize,
                    },
                )
                &&& final(self).contents_view() == old(self).contents_view()
                &&& final(self).embeddings_view() == old(self).embeddings_view()
            },
            embedding@.len() == old(self).dim() ==> {
                &&& r == Ok::<usize, StoreError>(old(self).contents_view().len() as usize)
                &&& final(self).contents_view() == old(self).contents_view().push(content@)
                &&& final(self).embeddings_view() == old(self).embeddings_view().push(embedding@)
            },
    {
        if embedding.len() != self.dimension {
            return Err(StoreError::DimensionMismatch { expected: self.dimension, found: embedding.len() });
        }
        let id = self.records.len();
        let ghost old_records = self.records@;
        let ghost c = content@;
        let ghost e = embedding@;
        self.records.push(EmbeddingRecord { id, content, embedding });
        assert(self.contents_view() =~= old_records.map_values(|r: EmbeddingRecord| r.content@).push(c));
        assert(self.embeddings_view() =~= old_records.map_values(|r: EmbeddingRecord| r.embedding@).push(e));
        assert forall|i: int| 0 <= i < self.records.len() implies {
            &&& (#[trigger] self.records@[i]).embedding.len() == self.dimension
            &&& self.records@[i].id == i
        } by {
            if i < old_records.len() {
                assert(self.records@[i] == old_records[i]);
            }
        }
        Ok(id)
    }

    /// The contents of the `k` records nearest the query, nearest first, where
    /// `distance_keys[i]` ranks record `i` by its distance from the query. A query
    /// of another length than the store's dimension is refused.
    pub fn search(&self, query: &Vec<u32>, distance_keys: &Vec<u32>, k: usize) -> (r: Result<Vec<String>, StoreError>)
        requires
            self.wf(),
            distance_keys@.len() == self.contents_view().len(),
        ensures
            query@.len() != self.dim() <==> r == Err::<Vec<String>, StoreError>(
                StoreError::DimensionMismatch {
                    expected: self.dim() as usize,
                    found: query@.len() as usize,
                },
            ),
            query@.len() == self.dim() ==> r is Ok,
            r matches Ok(v) ==> exists|order: Seq<usize>|
                {
                    &&& #[trigger] is_ranking(distance_keys@, k as nat, order)
                    &&& v@.len() == order.len()
                    &&& forall|t: int|
                        0 <= t < order.len() ==> (#[trigger] v@[t])@ == self.contents_view()[order[t] as int]
                },
    {
        if query.len() != self.dimension {
            return Err(StoreError::DimensionMismatch { expected: self.dimension, found: query.len() });
        }
        let order = rank(distance_keys, k);
        let mut out: Vec<String> = Vec::new();
        let mut t: usize = 0;
        while t < order.len()
            invariant
                is_ranking(distance_keys@, k as nat, order@),
                distance_keys@.len() == self.records.len(),
                t <= order.len(),
                out.len() == t,
                forall|u: int| 0 <= u < t ==> (#[trigger] out@[u])@ == self.contents_view()[order@[u] as int],
            decreases order.len() - t,
        {
            assert(order@[t as int] < self.records.len());
            let c = self.records[order[t]].content.clone();
            out.push(c);
            t += 1;
        }
        Ok(out)
    }

    /// The store's dimension.
    pub fn dimension(&self) -> (r: usize)
        ensures
            r == self.dim(),
    {
        self.dimension
    }

    /// The number of stored records.
    pub fn len(&self) -> (r: usize)
        ensures
            r == self.contents_view().len(),
            r == self.embeddings_view().len(),
    {
        self.records.len()
    }
}

} // verus!
