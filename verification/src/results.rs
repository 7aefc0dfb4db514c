//! The scan's output: a mapping from matched directory (a `SafePath`)
//! to workspace-type label. Keys are unique; insertion order does not
//! matter for the mapping that comes out.

use vstd::prelude::*;
use vstd::pervasive::VecAdditionalExecFns;

use crate::paths::SafePath;

verus! {

/// The mapping described by a sequence of key/label pairs, a later pair
/// with the same key winning over an earlier one.
pub open spec fn map_of_pairs(ps: Seq<(Seq<char>, Seq<char>)>) -> Map<Seq<char>, Seq<char>>
    decreases ps.len(),
{
    if ps.len() == 0 {
        Map::empty()
    } else {
        map_of_pairs(ps.drop_last()).insert(ps.last().0, ps.last().1)
    }
}

/// No key occurs twice among the pairs.
pub open spec fn distinct_keys(ps: Seq<(Seq<char>, Seq<char>)>) -> bool {
    forall|i: int, j: int| 0 <= i < j < ps.len() ==> ps[i].0 != ps[j].0
}

/// A key is in the mapping exactly when some pair carries it.
pub proof fn lemma_map_of_pairs_contains(ps: Seq<(Seq<char>, Seq<char>)>, k: Seq<char>)
    ensures
        map_of_pairs(ps).contains_key(k) <==> exists|i: int| 0 <= i < ps.len() && ps[i].0 == k,
    decreases ps.len(),
{
    if ps.len() == 0 {
    } else {
        lemma_map_of_pairs_contains(ps.drop_last(), k);
        if ps.last().0 == k {
            assert(ps[ps.len() - 1].0 == k);
        } else {
            if map_of_pairs(ps).contains_key(k) {
                let i = choose|i: int| 0 <= i < ps.drop_last().len() && ps.drop_last()[i].0 == k;
                assert(ps[i].0 == k);
            }
            if exists|i: int| 0 <= i < ps.len() && ps[i].0 == k {
                let i = choose|i: int| 0 <= i < ps.len() && ps[i].0 == k;
                assert(i < ps.len() - 1);
                assert(ps.drop_last()[i].0 == k);
            }
        }
    }
}

/// With distinct keys, each pair's key maps to that pair's label.
pub proof fn lemma_map_of_pairs_at(ps: Seq<(Seq<char>, Seq<char>)>, i: int)
    requires
        distinct_keys(ps),
        0 <= i < ps.len(),
    ensures
        map_of_pairs(ps).contains_key(ps[i].0),
        map_of_pairs(ps)[ps[i].0] == ps[i].1,
    decreases ps.len(),
{
    if i == ps.len() - 1 {
    } else {
        assert(distinct_keys(ps.drop_last()));
        assert(ps.drop_last()[i] == ps[i]);
        lemma_map_of_pairs_at(ps.drop_last(), i);
        assert(ps[i].0 != ps.last().0);
    }
}

/// Determinism of collection: recording the same key/label pairs, each
/// key once, yields the same mapping in whatever order the pairs are
/// recorded.
pub proof fn lemma_insertion_order_irrelevant(
    ps1: Seq<(Seq<char>, Seq<char>)>,
    ps2: Seq<(Seq<char>, Seq<char>)>,
)
    requires
        distinct_keys(ps1),
        distinct_keys(ps2),
        ps1.to_multiset() == ps2.to_multiset(),
    ensures
        map_of_pairs(ps1) == map_of_pairs(ps2),
{
    broadcast use vstd::seq_lib::group_to_multiset_ensures;

    assert forall|x: (Seq<char>, Seq<char>)| ps1.contains(x) <==> ps2.contains(x) by {
        assert(ps1.contains(x) <==> ps1.to_multiset().count(x) > 0);
        assert(ps2.contains(x) <==> ps2.to_multiset().count(x) > 0);
    }
    assert forall|k: Seq<char>|
        map_of_pairs(ps1).contains_key(k) <==> map_of_pairs(ps2).contains_key(k) by {
        lemma_map_of_pairs_contains(ps1, k);
        lemma_map_of_pairs_contains(ps2, k);
        if exists|i: int| 0 <= i < ps1.len() && ps1[i].0 == k {
            let i = choose|i: int| 0 <= i < ps1.len() && ps1[i].0 == k;
            assert(ps1.contains(ps1[i]));
            assert(ps2.contains(ps1[i]));
            let j = choose|j: int| 0 <= j < ps2.len() && ps2[j] == ps1[i];
            assert(ps2[j].0 == k);
        }
        if exists|i: int| 0 <= i < ps2.len() && ps2[i].0 == k {
            let i = choose|i: int| 0 <= i < ps2.len() && ps2[i].0 == k;
            assert(ps2.contains(ps2[i]));
            assert(ps1.contains(ps2[i]));
            let j = choose|j: int| 0 <= j < ps1.len() && ps1[j] == ps2[i];
            assert(ps1[j].0 == k);
        }
    }
    assert forall|k: Seq<char>| #[trigger] map_of_pairs(ps1).contains_key(k) implies map_of_pairs(
        ps1,
    )[k] == map_of_pairs(ps2)[k] by {
        lemma_map_of_pairs_contains(ps1, k);
        let i = choose|i: int| 0 <= i < ps1.len() && ps1[i].0 == k;
        lemma_map_of_pairs_at(ps1, i);
        assert(ps1.contains(ps1[i]));
        assert(ps2.contains(ps1[i]));
        let j = choose|j: int| 0 <= j < ps2.len() && ps2[j] == ps1[i];
        lemma_map_of_pairs_at(ps2, j);
    }
    assert(map_of_pairs(ps1) =~= map_of_pairs(ps2));
}

/// The mapping a scan fills: matched directory to workspace-type label.
///
/// Backed by a vector of pairs whose keys stay distinct, so the pairs
/// describe exactly the mapping given by the view.
pub struct ScanResults {
    entries: Vec<(SafePath, String)>,
}

impl View for ScanResults {
    type V = Map<Seq<char>, Seq<char>>;

    closed spec fn view(&self) -> Map<Seq<char>, Seq<char>> {
        map_of_pairs(self.pairs())
    }
}

impl ScanResults {
    /// The key/label pairs held, as text, in insertion order.
    pub closed spec fn pairs(&self) -> Seq<(Seq<char>, Seq<char>)> {
        Seq::new(self.entries@.len(), |i: int| (self.entries@[i].0@, self.entries@[i].1@))
    }

    #[verifier::type_invariant]
    spec fn inv(&self) -> bool {
        distinct_keys(self.pairs())
    }

    /// An empty result mapping.
    pub fn new() -> (r: ScanResults)
        ensures
            r@ == Map::<Seq<char>, Seq<char>>::empty(),
            r.pairs() == Seq::<(Seq<char>, Seq<char>)>::empty(),
    {
        let r = ScanResults { entries: Vec::new() };
        proof {
            assert(r.pairs() =~= Seq::<(Seq<char>, Seq<char>)>::empty());
        }
        r
    }

    /// How many directories are recorded.
    pub fn len(&self) -> (n: usize)
        ensures
            n == self.pairs().len(),
    {
        self.entries.len()
    }

    /// Read-only access to the recorded pairs.
    pub fn entries(&self) -> (r: &Vec<(SafePath, String)>)
        ensures
            r@.len() == self.pairs().len(),
            forall|i: int|
                0 <= i < r@.len() ==> (#[trigger] r@[i].0@, r@[i].1@) == self.pairs()[i],
    {
        &self.entries
    }

    /// Records `path` with label `label`, replacing any label the path
    /// already carried.
    pub fn insert(&mut self, path: SafePath, label: String)
        ensures
            final(self)@ == old(self)@.insert(path@, label@),
    {
        proof {
            use_type_invariant(&*self);
        }
        let ghost ps = old(self).pairs();
        let mut entries: Vec<(SafePath, String)> = Vec::new();
        core::mem::swap(&mut entries, &mut self.entries);
        proof {
            assert(self.pairs() =~= Seq::<(Seq<char>, Seq<char>)>::empty());
        }
        let mut i: usize = 0;
        while i < entries.len()
            invariant
                0 <= i <= entries@.len(),
                entries@.len() == ps.len(),
                ps == old(self).pairs(),
                self.entries@.len() == 0,
                distinct_keys(ps),
                forall|k: int|
                    0 <= k < entries@.len() ==> (#[trigger] entries@[k].0@, entries@[k].1@)
                        == ps[k],
                forall|k: int| 0 <= k < i ==> entries@[k].0@ != path@,
            decreases entries@.len() - i,
        {
            if entries[i].0.path == path.path {
                proof {
                    assert(entries@[i as int].0@ == ps[i as int].0);
                    assert(ps[i as int].0 == path@);
                }
                entries.set(i, (path, label));
                proof {
                    let qs = Seq::new(
                        entries@.len(),
                        |j: int| (entries@[j].0@, entries@[j].1@),
                    );
                    let rs = ps.update(i as int, (ps[i as int].0, label@));
                    assert forall|j: int| 0 <= j < qs.len() implies qs[j] == rs[j] by {
                        if j == i {
                            assert(qs[j] == (path@, label@));
                        }
                    }
                    assert(qs =~= rs);
                    lemma_insert_replace(ps, i as int, label@);
                }
                self.entries = entries;
                proof {
                    assert(self.pairs() =~= ps.update(i as int, (ps[i as int].0, label@)));
                    assert(old(self)@ == map_of_pairs(ps));
                }
                return ;
            }
            i += 1;
        }
        entries.push((path, label));
        proof {
            let qs = Seq::new(entries@.len(), |j: int| (entries@[j].0@, entries@[j].1@));
            assert(qs.drop_last() =~= ps);
            assert(qs.last() == (path@, label@));
            assert(forall|k: int| 0 <= k < ps.len() ==> ps[k].0 != path@);
            assert(distinct_keys(qs));
        }
        self.entries = entries;
        proof {
            assert(self.pairs().drop_last() =~= ps);
            assert(self.pairs().last() == (path@, label@));
        }
    }

    /// The label recorded for `path`, if any.
    pub fn get(&self, path: &SafePath) -> (r: Option<&String>)
        ensures
            match r {
                Some(label) => self@.contains_key(path@) && self@[path@] == label@,
                None => !self@.contains_key(path@),
            },
    {
        proof {
            use_type_invariant(&*self);
        }
        let mut i: usize = 0;
        while i < self.entries.len()
            invariant
                0 <= i <= self.entries@.len(),
                distinct_keys(self.pairs()),
                forall|k: int| 0 <= k < i ==> self.entries@[k].0@ != path@,
            decreases self.entries@.len() - i,
        {
            if self.entries[i].0.path == path.path {
                proof {
                    lemma_map_of_pairs_at(self.pairs(), i as int);
                }
                return Some(&self.entries[i].1);
            }
            i += 1;
        }
        proof {
            lemma_map_of_pairs_contains(self.pairs(), path@);
        }
        None
    }

    /// Whether `path` is recorded.
    pub fn contains_key(&self, path: &SafePath) -> (r: bool)
        ensures
            r == self@.contains_key(path@),
    {
        match self.get(path) {
            Some(_) => true,
            None => false,
        }
    }

    /// Key uniqueness: the recorded pairs never carry the same
    /// directory twice, and the pairs describe the view exactly. Holds
    /// of every results value that exists at run time, so this function
    /// has nothing to compute.
    pub fn keys_unique(&self)
        ensures
            distinct_keys(self.pairs()),
            self@ == map_of_pairs(self.pairs()),
    {
        proof {
            use_type_invariant(&*self);
        }
    }
}

/// Replacing the label at position `i` updates the mapping at that key
/// alone.
proof fn lemma_insert_replace(ps: Seq<(Seq<char>, Seq<char>)>, i: int, label: Seq<char>)
    requires
        distinct_keys(ps),
        0 <= i < ps.len(),
    ensures
        distinct_keys(ps.update(i, (ps[i].0, label))),
        map_of_pairs(ps.update(i, (ps[i].0, label))) == map_of_pairs(ps).insert(ps[i].0, label),
{
    let qs = ps.update(i, (ps[i].0, label));
    assert(forall|k: int| 0 <= k < ps.len() ==> qs[k].0 == ps[k].0);
    assert(distinct_keys(qs));
    assert forall|k: Seq<char>|
        map_of_pairs(qs).contains_key(k) <==> map_of_pairs(ps).insert(
            ps[i].0,
            label,
        ).contains_key(k) by {
        lemma_map_of_pairs_contains(qs, k);
        lemma_map_of_pairs_contains(ps, k);
    }
    assert forall|k: Seq<char>| #[trigger] map_of_pairs(qs).contains_key(k) implies map_of_pairs(
        qs,
    )[k] == map_of_pairs(ps).insert(ps[i].0, label)[k] by {
        lemma_map_of_pairs_contains(qs, k);
        let j = choose|j: int| 0 <= j < qs.len() && qs[j].0 == k;
        lemma_map_of_pairs_at(qs, j);
        if j == i {
            assert(map_of_pairs(qs)[k] == label);
        } else {
            assert(qs[j] == ps[j]);
            lemma_map_of_pairs_at(ps, j);
            assert(ps[j].0 != ps[i].0);
        }
    }
    assert(map_of_pairs(qs) =~= map_of_pairs(ps).insert(ps[i].0, label));
}

} // verus!
