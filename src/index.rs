//! The search index: an immutable map from byte keys to numbers, built once
//! from keys in strictly ascending order and then only read.
use crate::codes::{cmp_bytes, lemma_cmp_bytes_equal, lemma_cmp_bytes_transitive};
use std::cmp::Ordering;
use vstd::prelude::*;
use vstd::slice::slice_to_vec;

verus! {

#[verifier::external_type_specification]
#[verifier::external_body]
#[verifier::reject_recursive_types(W)]
pub struct ExMapBuilder<W>(fst::MapBuilder<W>);

#[verifier::external_type_specification]
#[verifier::external_body]
#[verifier::reject_recursive_types(D)]
pub struct ExFstMap<D>(fst::Map<D>);

#[verifier::external_type_specification]
#[verifier::external_body]
pub struct ExFstError(fst::Error);

/// The pairs inserted into an in-memory builder, in order.
pub uninterp spec fn builder_entries(b: fst::MapBuilder<Vec<u8>>) -> Seq<(Seq<u8>, u64)>;

/// The pairs that a map holds.
pub uninterp spec fn map_contents(m: fst::Map<Vec<u8>>) -> Map<Seq<u8>, u64>;

/// The map was finished by an in-memory builder, so its bytes are well formed.
pub uninterp spec fn map_from_builder(m: fst::Map<Vec<u8>>) -> bool;

/// A key may follow the pairs inserted so far: it is the first one, or it
/// sorts strictly after the last one.
pub open spec fn accepts_next(e: Seq<(Seq<u8>, u64)>, key: Seq<u8>) -> bool {
    e.len() == 0 || cmp_bytes(e.last().0, key) == Ordering::Less
}

/// The map that a sequence of pairs makes, a later pair winning.
pub open spec fn entries_map(e: Seq<(Seq<u8>, u64)>) -> Map<Seq<u8>, u64>
    decreases e.len(),
{
    if e.len() == 0 {
        Map::empty()
    } else {
        entries_map(e.drop_last()).insert(e.last().0, e.last().1)
    }
}

/// Each key sorts strictly before the next one.
pub open spec fn strictly_ascending(e: Seq<(Seq<u8>, u64)>) -> bool {
    forall|i: int| 0 < i < e.len() ==> cmp_bytes(#[trigger] e[i - 1].0, e[i].0) == Ordering::Less
}

/// Relies on `fst::MapBuilder::memory`: a builder, in memory, with nothing
/// inserted.
#[verifier::external_body]
fn new_builder() -> (r: fst::MapBuilder<Vec<u8>>)
    ensures
        builder_entries(r) == Seq::<(Seq<u8>, u64)>::empty(),
{
    fst::MapBuilder::memory()
}

/// Relies on `fst::MapBuilder::insert` on an in-memory builder: a key that
/// sorts after the last one is added; a key equal to or before it is refused
/// before anything changes.
#[verifier::external_body]
fn builder_insert(b: &mut fst::MapBuilder<Vec<u8>>, key: &[u8], val: u64) -> (r: Result<
    (),
    fst::Error,
>)
    ensures
        accepts_next(builder_entries(*old(b)), key@) ==> r is Ok && builder_entries(*final(b))
            == builder_entries(*old(b)).push((key@, val)),
        !accepts_next(builder_entries(*old(b)), key@) ==> r is Err && builder_entries(*final(b))
            == builder_entries(*old(b)),
{
    b.insert(key, val)
}

/// Relies on `fst::MapBuilder::into_map`: the map holds the inserted pairs,
/// in bytes that the builder wrote.
#[verifier::external_body]
fn builder_into_map(b: fst::MapBuilder<Vec<u8>>) -> (r: fst::Map<Vec<u8>>)
    ensures
        map_contents(r) == entries_map(builder_entries(b)),
        map_from_builder(r),
{
    b.into_map()
}

/// Relies on `fst::Map::get`: the value of the key, if the map holds it. It
/// reads the map's bytes without checking them, so only a map that a builder
/// wrote is admitted.
#[verifier::external_body]
fn map_get(m: &fst::Map<Vec<u8>>, key: &[u8]) -> (r: Option<u64>)
    requires
        map_from_builder(*m),
    ensures
        r == (if map_contents(*m).dom().contains(key@) {
            Some(map_contents(*m)[key@])
        } else {
            None::<u64>
        }),
{
    m.get(key)
}

/// Why an index could not be built.
#[derive(Debug, Clone, PartialEq, Eq)]
pub enum IndexError {
    /// This key did not sort strictly after the previous one.
    OutOfOrder(Vec<u8>),
}

/// An index under construction.
pub struct SearchBuilder {
    builder: fst::MapBuilder<Vec<u8>>,
}

impl SearchBuilder {
    /// The pairs inserted so far, in order.
    pub closed spec fn entries(&self) -> Seq<(Seq<u8>, u64)> {
        builder_entries(self.builder)
    }

    pub fn new() -> (r: SearchBuilder)
        ensures
            r.entries() == Seq::<(Seq<u8>, u64)>::empty(),
    {
        SearchBuilder { builder: new_builder() }
    }

    /// Adds a pair; a key that does not sort strictly after the previous one
    /// is refused and nothing changes.
    pub fn insert(&mut self, key: &[u8], val: u64) -> (r: Result<(), IndexError>)
        ensures
            accepts_next(old(self).entries(), key@) ==> r is Ok && final(self).entries() == old(
                self,
            ).entries().push((key@, val)),
            !accepts_next(old(self).entries(), key@) ==> (r matches Err(IndexError::OutOfOrder(k))
                && k@ == key@) && final(self).entries() == old(self).entries(),
    {
        match builder_insert(&mut self.builder, key, val) {
            Ok(()) => Ok(()),
            Err(_) => Err(IndexError::OutOfOrder(slice_to_vec(key))),
        }
    }

    /// The finished index, holding the inserted pairs.
    pub fn finish(self) -> (r: Search)
        ensures
            r.contents() == entries_map(self.entries()),
    {
        Search { map: builder_into_map(self.builder) }
    }
}

/// A finished index, read only. Only a builder makes one.
pub struct Search {
    map: fst::Map<Vec<u8>>,
}

impl Search {
    #[verifier::type_invariant]
    spec fn built(self) -> bool {
        map_from_builder(self.map)
    }

    /// The pairs the index holds.
    pub closed spec fn contents(&self) -> Map<Seq<u8>, u64> {
        map_contents(self.map)
    }

    /// The number stored under `key`, if any.
    pub fn get(&self, key: &[u8]) -> (r: Option<u64>)
        ensures
            r == (if self.contents().dom().contains(key@) {
                Some(self.contents()[key@])
            } else {
                None::<u64>
            }),
    {
        proof {
            use_type_invariant(self);
        }
        map_get(&self.map, key)
    }
}

pub open spec fn pairs_bytes_view(v: Seq<(Vec<u8>, u64)>) -> Seq<(Seq<u8>, u64)> {
    v.map_values(|p: (Vec<u8>, u64)| (p.0@, p.1))
}

/// Builds an index from pairs in the order given. Keys out of order, or
/// repeated, make it fail before any index exists to be read.
pub fn build_index(pairs: &Vec<(Vec<u8>, u64)>) -> (r: Result<Search, IndexError>)
    ensures
        r is Ok <==> strictly_ascending(pairs_bytes_view(pairs@)),
        r matches Ok(s) ==> s.contents() == entries_map(pairs_bytes_view(pairs@)),
{
    let ghost pv = pairs_bytes_view(pairs@);
    let mut b = SearchBuilder::new();
    let mut i: usize = 0;
    while i < pairs.len()
        invariant
            i <= pairs@.len(),
            pv == pairs_bytes_view(pairs@),
            b.entries() == pv.subrange(0, i as int),
            strictly_ascending(pv.subrange(0, i as int)),
        decreases pairs@.len() - i,
    {
        let ghost before = b.entries();
        match b.insert(pairs[i].0.as_slice(), pairs[i].1) {
            Ok(()) => {},
            Err(e) => {
                proof {
                    assert(i > 0);
                    assert(before.last() == pv[i - 1]);
                    assert(cmp_bytes(pv[i - 1].0, pv[i as int].0) != Ordering::Less);
                    assert(!strictly_ascending(pv)) by {
                        assert(cmp_bytes(pv[i as int - 1].0, pv[i as int].0) != Ordering::Less);
                    }
                }
                return Err(e);
            },
        }
        proof {
            assert(pv.subrange(0, i as int + 1) =~= before.push(pv[i as int]));
            let next = pv.subrange(0, i as int + 1);
            assert forall|k: int| 0 < k < next.len() implies cmp_bytes(
                #[trigger] next[k - 1].0,
                next[k].0,
            ) == Ordering::Less by {
                if k < i {
                    assert(next[k - 1] == before[k - 1] && next[k] == before[k]);
                }
            }
        }
        i = i + 1;
    }
    assert(pv.subrange(0, pairs@.len() as int) =~= pv);
    Ok(b.finish())
}

proof fn lemma_ascending_chain(e: Seq<(Seq<u8>, u64)>, i: int, j: int)
    requires
        strictly_ascending(e),
        0 <= i < j < e.len(),
    ensures
        cmp_bytes(e[i].0, e[j].0) == Ordering::Less,
    decreases j - i,
{
    if j > i + 1 {
        lemma_ascending_chain(e, i, j - 1);
        assert(cmp_bytes(e[j - 1].0, e[j].0) == Ordering::Less);
        lemma_cmp_bytes_transitive(e[i].0, e[j - 1].0, e[j].0);
    } else {
        assert(cmp_bytes(e[j - 1].0, e[j].0) == Ordering::Less);
    }
}

/// An index built from strictly ascending pairs finds, under each key, the
/// number that was inserted with it.
pub proof fn lemma_index_finds_each_pair(e: Seq<(Seq<u8>, u64)>, i: int)
    requires
        strictly_ascending(e),
        0 <= i < e.len(),
    ensures
        entries_map(e).dom().contains(e[i].0),
        entries_map(e)[e[i].0] == e[i].1,
    decreases e.len(),
{
    let n = e.len() - 1;
    if i < n {
        let d = e.drop_last();
        assert(strictly_ascending(d)) by {
            assert forall|k: int| 0 < k < d.len() implies cmp_bytes(#[trigger] d[k - 1].0, d[k].0)
                == Ordering::Less by {
                assert(d[k - 1] == e[k - 1] && d[k] == e[k]);
            }
        }
        lemma_index_finds_each_pair(d, i);
        lemma_ascending_chain(e, i, n);
        lemma_cmp_bytes_equal(e[i].0, e[n].0);
        assert(d[i] == e[i]);
    }
}

} // verus!
