//! The hstore map container: a unique-key mapping from text to text.
//!
//! The container is backed by a vector of key/value pairs whose keys are
//! pairwise distinct. Its mathematical view is a `Map<Seq<char>, Seq<char>>`
//! obtained by inserting the pairs from first to last, so a later duplicate
//! key would overwrite an earlier one; the well-formedness invariant rules
//! duplicates out of the stored vector itself.

use std::collections::HashMap;
use vstd::prelude::*;
use vstd::pervasive::unreached;
use vstd::pervasive::VecAdditionalExecFns;

verus! {

/// The keys of `s` are pairwise distinct.
pub open spec fn distinct_keys(s: Seq<(Seq<char>, Seq<char>)>) -> bool {
    forall|i: int, j: int| 0 <= i < j < s.len() ==> s[i].0 != s[j].0
}

/// Some pair of `s` has key `k`.
pub open spec fn has_key(s: Seq<(Seq<char>, Seq<char>)>, k: Seq<char>) -> bool {
    exists|i: int| 0 <= i < s.len() && s[i].0 == k
}

/// The first index of `s` whose pair has key `k`.
pub open spec fn key_index(s: Seq<(Seq<char>, Seq<char>)>, k: Seq<char>) -> int
    recommends
        has_key(s, k),
    decreases s.len(),
{
    if s.len() == 0 {
        0
    } else if s[0].0 == k {
        0
    } else {
        1 + key_index(s.drop_first(), k)
    }
}

/// `m` with the pairs of `s` inserted from first to last; a later pair
/// with the same key overwrites an earlier one.
pub open spec fn map_extended(
    m: Map<Seq<char>, Seq<char>>,
    s: Seq<(Seq<char>, Seq<char>)>,
) -> Map<Seq<char>, Seq<char>>
    decreases s.len(),
{
    if s.len() == 0 {
        m
    } else {
        map_extended(m.insert(s[0].0, s[0].1), s.drop_first())
    }
}

/// The map holding exactly the pairs of `s`; a later duplicate key wins.
pub open spec fn seq_to_map(s: Seq<(Seq<char>, Seq<char>)>) -> Map<Seq<char>, Seq<char>> {
    map_extended(Map::empty(), s)
}

/// A pair appended at the end lands in the map as a plain insertion.
pub proof fn lemma_map_extended_push(
    m: Map<Seq<char>, Seq<char>>,
    s: Seq<(Seq<char>, Seq<char>)>,
    p: (Seq<char>, Seq<char>),
)
    ensures
        map_extended(m, s.push(p)) == map_extended(m, s).insert(p.0, p.1),
    decreases s.len(),
{
    let sp = s.push(p);
    assert(sp.len() == s.len() + 1);
    if s.len() == 0 {
        assert(sp[0] == p);
        assert(sp.drop_first() =~= Seq::<(Seq<char>, Seq<char>)>::empty());
        assert(map_extended(m, sp) == map_extended(m.insert(p.0, p.1), sp.drop_first()));
        assert(map_extended(m.insert(p.0, p.1), sp.drop_first()) == m.insert(p.0, p.1));
        assert(map_extended(m, s) == m);
    } else {
        assert(sp[0] == s[0]);
        assert(sp.drop_first() =~= s.drop_first().push(p));
        let m1 = m.insert(s[0].0, s[0].1);
        assert(map_extended(m, sp) == map_extended(m1, sp.drop_first()));
        lemma_map_extended_push(m1, s.drop_first(), p);
        assert(map_extended(m, s) == map_extended(m1, s.drop_first()));
    }
}

/// Inserting a key that `s` does not mention commutes with extending by `s`.
pub proof fn lemma_map_extended_insert_commutes(
    m: Map<Seq<char>, Seq<char>>,
    s: Seq<(Seq<char>, Seq<char>)>,
    k: Seq<char>,
    v: Seq<char>,
)
    requires
        !has_key(s, k),
    ensures
        map_extended(m.insert(k, v), s) == map_extended(m, s).insert(k, v),
    decreases s.len(),
{
    if s.len() == 0 {
    } else {
        let t = s.drop_first();
        assert(forall|i: int| 0 <= i < t.len() ==> t[i] == s[i + 1]);
        assert(!has_key(t, k));
        assert(s[0].0 != k);
        assert(m.insert(k, v).insert(s[0].0, s[0].1) =~= m.insert(s[0].0, s[0].1).insert(k, v));
        lemma_map_extended_insert_commutes(m.insert(s[0].0, s[0].1), t, k, v);
    }
}

/// Pointwise reading of an extended map: a key of `s` maps to the value at
/// its (unique) index, and any other key is untouched.
pub proof fn lemma_map_extended_get(
    m: Map<Seq<char>, Seq<char>>,
    s: Seq<(Seq<char>, Seq<char>)>,
    k: Seq<char>,
)
    requires
        distinct_keys(s),
    ensures
        has_key(s, k) ==> {
            let i = key_index(s, k);
            &&& 0 <= i < s.len()
            &&& s[i].0 == k
            &&& map_extended(m, s).contains_key(k)
            &&& map_extended(m, s)[k] == s[i].1
        },
        !has_key(s, k) ==> (map_extended(m, s).contains_key(k) <==> m.contains_key(k)),
        !has_key(s, k) && m.contains_key(k) ==> map_extended(m, s)[k] == m[k],
    decreases s.len(),
{
    if s.len() == 0 {
    } else {
        let t = s.drop_first();
        assert(forall|i: int| 0 <= i < t.len() ==> t[i] == s[i + 1]);
        assert(distinct_keys(t));
        let m1 = m.insert(s[0].0, s[0].1);
        lemma_map_extended_get(m1, t, k);
        if s[0].0 == k {
            assert(!has_key(t, k));
            assert(s[key_index(s, k)].1 == s[0].1);
        } else {
            if has_key(s, k) {
                let w = choose|i: int| 0 <= i < s.len() && s[i].0 == k;
                assert(t[w - 1].0 == k);
                assert(has_key(t, k));
                let j = key_index(t, k);
                assert(key_index(s, k) == 1 + j);
                assert(s[1 + j] == t[j]);
            } else {
                assert(forall|i: int| 0 <= i < t.len() ==> t[i].0 != k);
                assert(!has_key(t, k));
            }
        }
    }
}

/// Any index of `s` whose pair has key `k` gives the value the map holds
/// for `k`.
pub proof fn lemma_map_extended_value_at(
    m: Map<Seq<char>, Seq<char>>,
    s: Seq<(Seq<char>, Seq<char>)>,
    i: int,
)
    requires
        distinct_keys(s),
        0 <= i < s.len(),
    ensures
        map_extended(m, s).contains_key(s[i].0),
        map_extended(m, s)[s[i].0] == s[i].1,
{
    let k = s[i].0;
    assert(has_key(s, k));
    lemma_map_extended_get(m, s, k);
    let j = key_index(s, k);
    assert(j == i) by {
        if j < i {
            assert(s[j].0 == s[i].0);
        } else if i < j {
            assert(s[i].0 == s[j].0);
        }
    }
}

/// A well-formed pair sequence and its map have the same size.
pub proof fn lemma_seq_to_map_len(s: Seq<(Seq<char>, Seq<char>)>)
    requires
        distinct_keys(s),
    ensures
        seq_to_map(s).dom().finite(),
        seq_to_map(s).dom().len() == s.len(),
    decreases s.len(),
{
    if s.len() == 0 {
        assert(seq_to_map(s).dom() =~= Set::<Seq<char>>::empty());
    } else {
        let t = s.drop_last();
        let p = s.last();
        assert(forall|i: int| 0 <= i < t.len() ==> t[i] == s[i]);
        assert(distinct_keys(t));
        lemma_seq_to_map_len(t);
        assert(s =~= t.push(p));
        lemma_map_extended_push(Map::empty(), t, p);
        assert(!has_key(t, p.0));
        lemma_map_extended_get(Map::empty(), t, p.0);
        assert(!seq_to_map(t).contains_key(p.0));
        assert(seq_to_map(s).dom() =~= seq_to_map(t).dom().insert(p.0));
    }
}

/// A key is in the map exactly when some pair of the sequence carries it.
pub proof fn lemma_seq_to_map_contains(s: Seq<(Seq<char>, Seq<char>)>, k: Seq<char>)
    requires
        distinct_keys(s),
    ensures
        seq_to_map(s).contains_key(k) <==> has_key(s, k),
{
    lemma_map_extended_get(Map::empty(), s, k);
}

/// Overwriting the value at an index acts on the map as a plain insertion
/// of that pair's key.
pub proof fn lemma_map_extended_update(
    m: Map<Seq<char>, Seq<char>>,
    s: Seq<(Seq<char>, Seq<char>)>,
    i: int,
    v: Seq<char>,
)
    requires
        distinct_keys(s),
        0 <= i < s.len(),
    ensures
        map_extended(m, s.update(i, (s[i].0, v))) == map_extended(m, s).insert(s[i].0, v),
    decreases s.len(),
{
    let k = s[i].0;
    let su = s.update(i, (k, v));
    let t = s.drop_first();
    assert(forall|j: int| 0 <= j < t.len() ==> t[j] == s[j + 1]);
    assert(distinct_keys(t));
    if i == 0 {
        assert(su[0] == (k, v));
        assert(su.drop_first() =~= t);
        assert(!has_key(t, k));
        lemma_map_extended_insert_commutes(m, t, k, v);
        lemma_map_extended_insert_commutes(m, t, k, s[0].1);
        assert(map_extended(m, su) == map_extended(m.insert(k, v), t));
        assert(map_extended(m.insert(k, v), t) == map_extended(m, t).insert(k, v));
        assert(map_extended(m, s) == map_extended(m.insert(k, s[0].1), t));
        assert(map_extended(m, t).insert(k, s[0].1).insert(k, v) =~= map_extended(m, t).insert(
            k,
            v,
        ));
    } else {
        assert(su[0] == s[0]);
        assert(su.drop_first() =~= t.update(i - 1, (t[i - 1].0, v)));
        assert(t[i - 1] == s[i]);
        lemma_map_extended_update(m.insert(s[0].0, s[0].1), t, i - 1, v);
    }
}

/// Removing the pair at an index acts on the map as removing its key,
/// provided the accumulator does not hold that key itself.
pub proof fn lemma_map_extended_remove(
    m: Map<Seq<char>, Seq<char>>,
    s: Seq<(Seq<char>, Seq<char>)>,
    i: int,
)
    requires
        distinct_keys(s),
        0 <= i < s.len(),
        !m.contains_key(s[i].0),
    ensures
        map_extended(m, s.remove(i)) == map_extended(m, s).remove(s[i].0),
    decreases s.len(),
{
    let k = s[i].0;
    let sr = s.remove(i);
    let t = s.drop_first();
    assert(forall|j: int| 0 <= j < t.len() ==> t[j] == s[j + 1]);
    assert(distinct_keys(t));
    if i == 0 {
        assert(sr =~= t);
        assert(!has_key(t, k));
        lemma_map_extended_insert_commutes(m, t, k, s[0].1);
        lemma_map_extended_get(m, t, k);
        assert(map_extended(m, s) == map_extended(m.insert(k, s[0].1), t));
        assert(!map_extended(m, t).contains_key(k));
        assert(map_extended(m, t).insert(k, s[0].1).remove(k) =~= map_extended(m, t));
    } else {
        assert(sr[0] == s[0]);
        assert(sr.drop_first() =~= t.remove(i - 1));
        assert(t[i - 1] == s[i]);
        assert(s[0].0 != k);
        lemma_map_extended_remove(m.insert(s[0].0, s[0].1), t, i - 1);
    }
}

/// The character sequences of a vector of string pairs, first to last.
pub open spec fn pairs_view(v: Seq<(String, String)>) -> Seq<(Seq<char>, Seq<char>)> {
    Seq::new(v.len(), |i: int| (v[i].0@, v[i].1@))
}

/// The elements of `s` that the mask `d` selects, in order.
pub open spec fn mask_filter(s: Seq<(String, String)>, d: Seq<bool>) -> Seq<(String, String)>
    recommends
        d.len() == s.len(),
    decreases s.len(),
{
    if s.len() == 0 || d.len() == 0 {
        Seq::empty()
    } else if d[0] {
        seq![s[0]] + mask_filter(s.drop_first(), d.drop_first())
    } else {
        mask_filter(s.drop_first(), d.drop_first())
    }
}

/// Extending the sequence and the mask by one element extends the
/// selection at the end.
proof fn lemma_mask_filter_push(s: Seq<(String, String)>, d: Seq<bool>, a: (String, String), b: bool)
    requires
        d.len() == s.len(),
    ensures
        mask_filter(s.push(a), d.push(b)) == mask_filter(s, d) + (if b {
            seq![a]
        } else {
            Seq::<(String, String)>::empty()
        }),
    decreases s.len(),
{
    let sp = s.push(a);
    let dp = d.push(b);
    let tail = (if b {
        seq![a]
    } else {
        Seq::<(String, String)>::empty()
    });
    if s.len() == 0 {
        assert(sp[0] == a);
        assert(dp[0] == b);
        assert(sp.drop_first() =~= Seq::<(String, String)>::empty());
        assert(dp.drop_first() =~= Seq::<bool>::empty());
        assert(mask_filter(sp.drop_first(), dp.drop_first()) == Seq::<(String, String)>::empty());
        if b {
            assert(mask_filter(sp, dp) =~= seq![a]);
            assert(mask_filter(s, d) + tail =~= seq![a]);
        } else {
            assert(mask_filter(s, d) + tail =~= Seq::<(String, String)>::empty());
        }
    } else {
        assert(sp[0] == s[0]);
        assert(dp[0] == d[0]);
        assert(sp.drop_first() =~= s.drop_first().push(a));
        assert(dp.drop_first() =~= d.drop_first().push(b));
        lemma_mask_filter_push(s.drop_first(), d.drop_first(), a, b);
        if d[0] {
            assert(seq![s[0]] + (mask_filter(s.drop_first(), d.drop_first()) + tail)
                =~= (seq![s[0]] + mask_filter(s.drop_first(), d.drop_first())) + tail);
        }
    }
}

/// A selection from a well-formed pair sequence is well-formed, and
/// mentions no key the original lacks.
proof fn lemma_mask_filter_distinct(s: Seq<(String, String)>, d: Seq<bool>)
    requires
        d.len() == s.len(),
        distinct_keys(pairs_view(s)),
    ensures
        distinct_keys(pairs_view(mask_filter(s, d))),
        forall|k: Seq<char>|
            has_key(pairs_view(mask_filter(s, d)), k) ==> has_key(pairs_view(s), k),
    decreases s.len(),
{
    if s.len() == 0 {
    } else {
        let st = s.drop_first();
        let dt = d.drop_first();
        assert(forall|i: int| 0 <= i < st.len() ==> pairs_view(st)[i] == pairs_view(s)[i + 1]);
        assert(distinct_keys(pairs_view(st)));
        lemma_mask_filter_distinct(st, dt);
        let tf = mask_filter(st, dt);
        if d[0] {
            let r = mask_filter(s, d);
            assert(r == seq![s[0]] + tf);
            assert(pairs_view(r) =~= pairs_view(seq![s[0]]) + pairs_view(tf));
            assert(pairs_view(r)[0] == pairs_view(s)[0]);
            assert(forall|i: int| 0 <= i < tf.len() ==> pairs_view(r)[i + 1] == pairs_view(
                tf,
            )[i]);
            assert(!has_key(pairs_view(tf), pairs_view(s)[0].0)) by {
                if has_key(pairs_view(tf), pairs_view(s)[0].0) {
                    assert(has_key(pairs_view(st), pairs_view(s)[0].0));
                    let w = choose|i: int|
                        0 <= i < pairs_view(st).len() && pairs_view(st)[i].0 == pairs_view(
                            s,
                        )[0].0;
                    assert(pairs_view(s)[w + 1].0 == pairs_view(s)[0].0);
                }
            }
            assert forall|a: int, b: int|
                0 <= a < b < pairs_view(r).len() implies pairs_view(r)[a].0 != pairs_view(
                r,
            )[b].0 by {
                if a == 0 {
                    assert(pairs_view(r)[b] == pairs_view(tf)[b - 1]);
                    assert(has_key(pairs_view(tf), pairs_view(tf)[b - 1].0));
                } else {
                    assert(pairs_view(r)[a] == pairs_view(tf)[a - 1]);
                    assert(pairs_view(r)[b] == pairs_view(tf)[b - 1]);
                }
            }
            assert forall|k: Seq<char>| has_key(pairs_view(r), k) implies has_key(
                pairs_view(s),
                k,
            ) by {
                let j = choose|j: int|
                    0 <= j < pairs_view(r).len() && pairs_view(r)[j].0 == k;
                if j == 0 {
                    assert(pairs_view(s)[0].0 == k);
                } else {
                    assert(pairs_view(tf)[j - 1].0 == k);
                    assert(has_key(pairs_view(tf), k));
                    assert(has_key(pairs_view(st), k));
                    let w = choose|i: int|
                        0 <= i < pairs_view(st).len() && pairs_view(st)[i].0 == k;
                    assert(pairs_view(s)[w + 1].0 == k);
                }
            }
        } else {
            assert(mask_filter(s, d) == tf);
            assert(forall|k: Seq<char>| has_key(pairs_view(st), k) ==> has_key(
                pairs_view(s),
                k,
            )) by {
                assert(forall|i: int| 0 <= i < st.len() ==> pairs_view(st)[i] == pairs_view(
                    s,
                )[i + 1]);
            }
        }
    }
}

/// Relies on `str`'s `==` (its `PartialEq` impl): two string slices compare
/// equal exactly when they consist of the same characters.
#[verifier::external_body]
fn str_eq(a: &str, b: &str) -> (r: bool)
    ensures
        r == (a@ == b@),
{
    a == b
}

/// Relies on `HashMap::into_iter`: iteration yields exactly the map's
/// entries, each one once, in arbitrary order. A map never holds two
/// equal keys, and `String` equality is character equality, so the
/// returned keys also have pairwise distinct character sequences.
#[verifier::external_body]
fn hashmap_pairs(m: HashMap<String, String>) -> (r: Vec<(String, String)>)
    ensures
        r@.len() == m@.dom().len(),
        forall|i: int, j: int| 0 <= i < j < r@.len() ==> r@[i].0@ != r@[j].0@,
        forall|i: int| 0 <= i < r@.len() ==> m@.contains_key((#[trigger] r@[i]).0) && m@[r@[i].0] == r@[i].1,
        forall|k: String| #[trigger] m@.contains_key(k) ==> exists|i: int| 0 <= i < r@.len() && (#[trigger] r@[i]).0 == k,
{
    m.into_iter().collect()
}

/// Relies on `Vec::capacity`: the capacity is at least the length.
#[verifier::external_body]
fn vec_capacity<T>(v: &Vec<T>) -> (r: usize)
    ensures
        r >= v@.len(),
{
    v.capacity()
}

/// Relies on `Vec::shrink_to_fit`: it may shed spare capacity but never
/// changes the contents.
#[verifier::external_body]
fn vec_shrink_to_fit<T>(v: &mut Vec<T>)
    ensures
        final(v)@ == old(v)@,
{
    v.shrink_to_fit()
}

/// A unique-key mapping from text to text, the in-memory form of one
/// hstore value.
#[derive(Debug)]
pub struct Hstore {
    entries: Vec<(String, String)>,
}

impl View for Hstore {
    type V = Map<Seq<char>, Seq<char>>;

    open spec fn view(&self) -> Map<Seq<char>, Seq<char>> {
        seq_to_map(self.kv_seq())
    }
}

impl Hstore {
    /// The stored key/value pairs, first to last.
    pub closed spec fn pair_seq(&self) -> Seq<(String, String)> {
        self.entries@
    }

    /// The stored key/value pairs, as character sequences, first to last.
    pub open spec fn kv_seq(&self) -> Seq<(Seq<char>, Seq<char>)> {
        pairs_view(self.pair_seq())
    }

    /// Well-formed: no two stored pairs share a key.
    pub open spec fn wf(&self) -> bool {
        distinct_keys(self.kv_seq())
    }

    /// Creates an empty map.
    pub fn new() -> (r: Hstore)
        ensures
            r.wf(),
            r@ == Map::<Seq<char>, Seq<char>>::empty(),
            r.kv_seq() == Seq::<(Seq<char>, Seq<char>)>::empty(),
    {
        let r = Hstore { entries: Vec::new() };
        proof {
            assert(r.kv_seq() =~= Seq::<(Seq<char>, Seq<char>)>::empty());
        }
        r
    }

    /// Creates an empty map with room reserved for `capacity` entries.
    pub fn with_capacity(capacity: usize) -> (r: Hstore)
        ensures
            r.wf(),
            r@ == Map::<Seq<char>, Seq<char>>::empty(),
            r.kv_seq() == Seq::<(Seq<char>, Seq<char>)>::empty(),
    {
        let r = Hstore { entries: Vec::with_capacity(capacity) };
        proof {
            assert(r.kv_seq() =~= Seq::<(Seq<char>, Seq<char>)>::empty());
        }
        r
    }

    /// The number of entries.
    pub fn len(&self) -> (n: usize)
        requires
            self.wf(),
        ensures
            n == self.kv_seq().len(),
            n == self@.dom().len(),
    {
        proof {
            lemma_seq_to_map_len(self.kv_seq());
        }
        self.entries.len()
    }

    /// Whether the map has no entries.
    pub fn is_empty(&self) -> (r: bool)
        requires
            self.wf(),
        ensures
            r <==> self.kv_seq().len() == 0,
            r <==> self@ == Map::<Seq<char>, Seq<char>>::empty(),
    {
        proof {
            if self.kv_seq().len() == 0 {
                assert(self@ =~= Map::<Seq<char>, Seq<char>>::empty());
            } else {
                lemma_map_extended_value_at(Map::empty(), self.kv_seq(), 0);
            }
        }
        self.entries.len() == 0
    }

    /// Removes every entry.
    pub fn clear(&mut self)
        ensures
            final(self).wf(),
            final(self)@ == Map::<Seq<char>, Seq<char>>::empty(),
            final(self).kv_seq() == Seq::<(Seq<char>, Seq<char>)>::empty(),
    {
        self.entries.clear();
        proof {
            assert(self.kv_seq() =~= Seq::<(Seq<char>, Seq<char>)>::empty());
        }
    }

    /// The index of the entry holding `k`, if any.
    fn find_index(&self, k: &str) -> (r: Option<usize>)
        ensures
            match r {
                Some(i) => i < self.kv_seq().len() && self.kv_seq()[i as int].0 == k@,
                None => !has_key(self.kv_seq(), k@),
            },
    {
        let n = self.entries.len();
        let mut i: usize = 0;
        while i < n
            invariant
                n == self.entries@.len(),
                i <= n,
                forall|j: int| 0 <= j < i ==> self.kv_seq()[j].0 != k@,
            decreases n - i,
        {
            if str_eq(self.entries[i].0.as_str(), k) {
                return Some(i);
            }
            i = i + 1;
        }
        None
    }

    /// The value stored for `k`, if any.
    pub fn get(&self, k: &str) -> (r: Option<&String>)
        requires
            self.wf(),
        ensures
            match r {
                Some(v) => self@.contains_key(k@) && v@ == self@[k@],
                None => !self@.contains_key(k@),
            },
    {
        match self.find_index(k) {
            Some(i) => {
                proof {
                    lemma_map_extended_value_at(Map::empty(), self.kv_seq(), i as int);
                }
                Some(&self.entries[i].1)
            },
            None => {
                proof {
                    lemma_seq_to_map_contains(self.kv_seq(), k@);
                }
                None
            },
        }
    }

    /// Whether the map holds an entry for `k`.
    pub fn contains_key(&self, k: &str) -> (r: bool)
        requires
            self.wf(),
        ensures
            r == self@.contains_key(k@),
    {
        proof {
            lemma_seq_to_map_contains(self.kv_seq(), k@);
        }
        match self.find_index(k) {
            Some(_) => true,
            None => false,
        }
    }

    /// The value stored for `k`, which the caller has established is
    /// present; absence is a caller error, not a recoverable outcome.
    pub fn index(&self, k: &str) -> (v: &String)
        requires
            self.wf(),
            self@.contains_key(k@),
        ensures
            v@ == self@[k@],
    {
        proof {
            lemma_seq_to_map_contains(self.kv_seq(), k@);
        }
        match self.find_index(k) {
            Some(i) => {
                proof {
                    lemma_map_extended_value_at(Map::empty(), self.kv_seq(), i as int);
                }
                &self.entries[i].1
            },
            None => unreached(),
        }
    }

    /// Stores `v` under `k`, returning the value the key held before, if
    /// any.
    pub fn insert(&mut self, k: String, v: String) -> (prev: Option<String>)
        requires
            old(self).wf(),
        ensures
            final(self).wf(),
            final(self)@ == old(self)@.insert(k@, v@),
            match prev {
                Some(p) => old(self)@.contains_key(k@) && p@ == old(self)@[k@],
                None => !old(self)@.contains_key(k@),
            },
            has_key(old(self).kv_seq(), k@) ==> final(self).kv_seq() == old(self).kv_seq().update(
                key_index(old(self).kv_seq(), k@),
                (k@, v@),
            ),
            !has_key(old(self).kv_seq(), k@) ==> final(self).kv_seq() == old(self).kv_seq().push(
                (k@, v@),
            ),
    {
        let ghost ks = k@;
        let ghost vs = v@;
        let ghost s0 = self.kv_seq();
        let found = self.find_index(k.as_str());
        match found {
            Some(i) => {
                let prev = self.entries[i].1.clone();
                proof {
                    lemma_map_extended_value_at(Map::empty(), s0, i as int);
                    lemma_seq_to_map_contains(s0, ks);
                    lemma_map_extended_get(Map::empty(), s0, ks);
                    let ki = key_index(s0, ks);
                    if ki < i as int {
                        assert(s0[ki].0 == s0[i as int].0);
                    } else {
                        if (i as int) < ki {
                            assert(s0[i as int].0 == s0[ki].0);
                        }
                    }
                    assert(ki == i as int);
                }
                self.entries.set(i, (k, v));
                proof {
                    assert(self.kv_seq() =~= s0.update(i as int, (ks, vs)));
                    lemma_map_extended_update(Map::empty(), s0, i as int, vs);
                    assert(distinct_keys(self.kv_seq())) by {
                        assert(forall|a: int| 0 <= a < s0.len() && a != i as int
                            ==> self.kv_seq()[a] == s0[a]);
                        assert(self.kv_seq()[i as int].0 == s0[i as int].0);
                    }
                }
                Some(prev)
            },
            None => {
                proof {
                    lemma_seq_to_map_contains(s0, ks);
                }
                self.entries.push((k, v));
                proof {
                    assert(self.kv_seq() =~= s0.push((ks, vs)));
                    lemma_map_extended_push(Map::empty(), s0, (ks, vs));
                    assert(distinct_keys(self.kv_seq())) by {
                        assert(forall|a: int| 0 <= a < s0.len() ==> self.kv_seq()[a] == s0[a]);
                        assert(self.kv_seq()[s0.len() as int].0 == ks);
                    }
                }
                None
            },
        }
    }

    /// Builds a map from a sequence of pairs; a later pair overwrites an
    /// earlier one with the same key.
    pub fn from_pairs(pairs: Vec<(String, String)>) -> (r: Hstore)
        ensures
            r.wf(),
            r@ == seq_to_map(pairs_view(pairs@)),
    {
        let mut r = Hstore::new();
        let n = pairs.len();
        let ghost pv = pairs_view(pairs@);
        let mut i: usize = 0;
        while i < n
            invariant
                n == pairs@.len(),
                i <= n,
                pv == pairs_view(pairs@),
                r.wf(),
                r@ == map_extended(Map::<Seq<char>, Seq<char>>::empty(), pv.take(i as int)),
            decreases n - i,
        {
            let k = pairs[i].0.clone();
            let v = pairs[i].1.clone();
            proof {
                assert(pv.take(i as int).push(pv[i as int]) =~= pv.take(i as int + 1));
                lemma_map_extended_push(
                    Map::<Seq<char>, Seq<char>>::empty(),
                    pv.take(i as int),
                    pv[i as int],
                );
            }
            r.insert(k, v);
            i = i + 1;
        }
        proof {
            assert(pv.take(n as int) =~= pv);
        }
        r
    }

    /// Merges a sequence of pairs into the map; a pair overwrites an
    /// existing entry with the same key, and a later pair overwrites an
    /// earlier one.
    pub fn extend(&mut self, pairs: Vec<(String, String)>)
        requires
            old(self).wf(),
        ensures
            final(self).wf(),
            final(self)@ == map_extended(old(self)@, pairs_view(pairs@)),
    {
        let n = pairs.len();
        let ghost m0 = self@;
        let ghost pv = pairs_view(pairs@);
        let mut i: usize = 0;
        while i < n
            invariant
                n == pairs@.len(),
                i <= n,
                pv == pairs_view(pairs@),
                self.wf(),
                self@ == map_extended(m0, pv.take(i as int)),
            decreases n - i,
        {
            let k = pairs[i].0.clone();
            let v = pairs[i].1.clone();
            proof {
                assert(pv.take(i as int).push(pv[i as int]) =~= pv.take(i as int + 1));
                lemma_map_extended_push(m0, pv.take(i as int), pv[i as int]);
            }
            self.insert(k, v);
            i = i + 1;
        }
        proof {
            assert(pv.take(n as int) =~= pv);
        }
    }

    /// Builds a map holding exactly the entries of a standard hash map:
    /// every source entry is present under its key's characters, and
    /// nothing else is.
    pub fn from_hashmap(m: HashMap<String, String>) -> (r: Hstore)
        ensures
            r.wf(),
            r@.dom().len() == m@.dom().len(),
            forall|k: String|
                #[trigger] m@.contains_key(k) ==> r@.contains_key(k@) && r@[k@] == m@[k]@,
            forall|kc: Seq<char>|
                #[trigger] r@.contains_key(kc) ==> exists|k: String|
                    m@.contains_key(k) && k@ == kc && m@[k]@ == r@[kc],
    {
        let ghost mv = m@;
        let pairs = hashmap_pairs(m);
        let ghost ps = pairs@;
        let ghost pv = pairs_view(ps);
        let r = Hstore::from_pairs(pairs);
        proof {
            assert(distinct_keys(pv));
            lemma_seq_to_map_len(pv);
            assert(r@.dom().len() == mv.dom().len());
            assert forall|k: String| mv.contains_key(k) implies r@.contains_key(k@) && r@[k@]
                == mv[k]@ by {
                let i = choose|i: int| 0 <= i < ps.len() && (#[trigger] ps[i]).0 == k;
                assert(pv[i] == (ps[i].0@, ps[i].1@));
                lemma_map_extended_value_at(Map::empty(), pv, i);
            }
            assert forall|kc: Seq<char>| r@.contains_key(kc) implies exists|k: String|
                mv.contains_key(k) && k@ == kc && mv[k]@ == r@[kc] by {
                lemma_seq_to_map_contains(pv, kc);
                let j = choose|j: int| 0 <= j < pv.len() && pv[j].0 == kc;
                assert(pv[j] == (ps[j].0@, ps[j].1@));
                lemma_map_extended_value_at(Map::empty(), pv, j);
                assert(mv.contains_key(ps[j].0) && ps[j].0@ == kc && mv[ps[j].0]@ == r@[kc]);
            }
        }
        r
    }

    /// The keys, in storage order.
    pub fn keys(&self) -> (r: Vec<String>)
        ensures
            r@.len() == self.kv_seq().len(),
            forall|i: int| 0 <= i < r@.len() ==> r@[i]@ == self.kv_seq()[i].0,
    {
        let n = self.entries.len();
        let mut r: Vec<String> = Vec::new();
        let mut i: usize = 0;
        while i < n
            invariant
                n == self.entries@.len(),
                i <= n,
                r@.len() == i,
                forall|j: int| 0 <= j < i ==> r@[j]@ == self.kv_seq()[j].0,
            decreases n - i,
        {
            r.push(self.entries[i].0.clone());
            i = i + 1;
        }
        r
    }

    /// The values, in storage order.
    pub fn values(&self) -> (r: Vec<String>)
        ensures
            r@.len() == self.kv_seq().len(),
            forall|i: int| 0 <= i < r@.len() ==> r@[i]@ == self.kv_seq()[i].1,
    {
        let n = self.entries.len();
        let mut r: Vec<String> = Vec::new();
        let mut i: usize = 0;
        while i < n
            invariant
                n == self.entries@.len(),
                i <= n,
                r@.len() == i,
                forall|j: int| 0 <= j < i ==> r@[j]@ == self.kv_seq()[j].1,
            decreases n - i,
        {
            r.push(self.entries[i].1.clone());
            i = i + 1;
        }
        r
    }

    /// A copy of the entries, in storage order.
    pub fn iter(&self) -> (r: Vec<(String, String)>)
        ensures
            pairs_view(r@) == self.kv_seq(),
    {
        let n = self.entries.len();
        let mut r: Vec<(String, String)> = Vec::new();
        let mut i: usize = 0;
        while i < n
            invariant
                n == self.entries@.len(),
                i <= n,
                r@.len() == i,
                forall|j: int| 0 <= j < i ==> pairs_view(r@)[j] == self.kv_seq()[j],
            decreases n - i,
        {
            r.push((self.entries[i].0.clone(), self.entries[i].1.clone()));
            i = i + 1;
        }
        proof {
            assert(pairs_view(r@) =~= self.kv_seq());
        }
        r
    }

    /// Removes and returns all entries, in storage order; the map is empty
    /// afterwards.
    pub fn drain(&mut self) -> (r: Vec<(String, String)>)
        ensures
            pairs_view(r@) == old(self).kv_seq(),
            final(self).wf(),
            final(self)@ == Map::<Seq<char>, Seq<char>>::empty(),
            final(self).kv_seq() == Seq::<(Seq<char>, Seq<char>)>::empty(),
    {
        let r = self.iter();
        self.clear();
        r
    }

    /// Reserves room for at least `additional` more entries.
    pub fn reserve(&mut self, additional: usize)
        ensures
            final(self).kv_seq() == old(self).kv_seq(),
            final(self)@ == old(self)@,
            final(self).wf() == old(self).wf(),
    {
        self.entries.reserve(additional);
    }

    /// The number of entries the map can hold without reallocating.
    pub fn capacity(&self) -> (r: usize)
        ensures
            r >= self.kv_seq().len(),
    {
        vec_capacity(&self.entries)
    }

    /// Sheds spare storage; the contents are unchanged.
    pub fn shrink_to_fit(&mut self)
        ensures
            final(self).kv_seq() == old(self).kv_seq(),
            final(self)@ == old(self)@,
            final(self).wf() == old(self).wf(),
    {
        vec_shrink_to_fit(&mut self.entries);
        proof {
            assert(self.kv_seq() =~= old(self).kv_seq());
        }
    }

    /// Keeps exactly the entries for which the predicate answers true,
    /// asked once per entry in storage order with the entry's key and
    /// value.
    pub fn retain<F: Fn(&String, &String) -> bool>(&mut self, f: F)
        requires
            old(self).wf(),
            forall|k: String, v: String| #[trigger] f.requires((&k, &v)),
        ensures
            final(self).wf(),
            exists|d: Seq<bool>|
                {
                    &&& d.len() == old(self).pair_seq().len()
                    &&& (forall|j: int|
                        0 <= j < d.len() ==> #[trigger] f.ensures(
                            (&old(self).pair_seq()[j].0, &old(self).pair_seq()[j].1),
                            d[j],
                        ))
                    &&& final(self).pair_seq() == mask_filter(old(self).pair_seq(), d)
                },
    {
        let ghost s0 = self.entries@;
        let mut kept: Vec<(String, String)> = Vec::new();
        let ghost mut d: Seq<bool> = Seq::empty();
        let n = self.entries.len();
        let mut i: usize = 0;
        while i < n
            invariant
                n == self.entries@.len(),
                self.entries@ == s0,
                distinct_keys(pairs_view(s0)),
                i <= n,
                d.len() == i,
                forall|k: String, v: String| #[trigger] f.requires((&k, &v)),
                forall|j: int| 0 <= j < i ==> #[trigger] f.ensures((&s0[j].0, &s0[j].1), d[j]),
                kept@ == mask_filter(s0.take(i as int), d),
            decreases n - i,
        {
            let keep = f(&self.entries[i].0, &self.entries[i].1);
            proof {
                lemma_mask_filter_push(s0.take(i as int), d, s0[i as int], keep);
                assert(s0.take(i as int).push(s0[i as int]) =~= s0.take(i as int + 1));
            }
            if keep {
                kept.push((self.entries[i].0.clone(), self.entries[i].1.clone()));
            }
            proof {
                d = d.push(keep);
                assert(kept@ =~= mask_filter(s0.take(i as int + 1), d));
            }
            i = i + 1;
        }
        proof {
            assert(s0.take(n as int) =~= s0);
        }
        self.entries = kept;
        proof {
            lemma_mask_filter_distinct(s0, d);
            assert(d.len() == s0.len());
            assert(self.pair_seq() == mask_filter(s0, d));
        }
    }

    /// A mutable borrow of the value stored for `k`, if any. The key set
    /// is untouched however the caller rewrites the value, so the map
    /// stays well-formed.
    pub fn get_mut(&mut self, k: &str) -> (r: Option<&mut String>)
        requires
            old(self).wf(),
        ensures
            old(self)@.contains_key(k@) <==> r is Some,
            r is None ==> final(self).kv_seq() == old(self).kv_seq(),
            r matches Some(v) ==> {
                &&& (*v)@ == old(self)@[k@]
                &&& final(self).wf()
                &&& final(self).kv_seq() == old(self).kv_seq().update(
                    key_index(old(self).kv_seq(), k@),
                    (k@, (*final(v))@),
                )
                &&& final(self)@ == old(self)@.insert(k@, (*final(v))@)
            },
    {
        let ghost s0 = self.kv_seq();
        proof {
            lemma_seq_to_map_contains(s0, k@);
        }
        match self.find_index(k) {
            Some(i) => {
                proof {
                    lemma_map_extended_value_at(Map::empty(), s0, i as int);
                    lemma_map_extended_get(Map::empty(), s0, k@);
                    let ki = key_index(s0, k@);
                    if ki < i as int {
                        assert(s0[ki].0 == s0[i as int].0);
                    } else {
                        if (i as int) < ki {
                            assert(s0[i as int].0 == s0[ki].0);
                        }
                    }
                    assert(ki == i as int);
                }
                let v = &mut self.entries[i].1;
                proof {
                    assert(after_borrow(*self).kv_seq() =~= s0.update(
                        i as int,
                        (k@, (*final(v))@),
                    ));
                    assert(distinct_keys(after_borrow(*self).kv_seq())) by {
                        let sn = after_borrow(*self).kv_seq();
                        assert(forall|a: int| 0 <= a < s0.len() && a != i as int ==> sn[a]
                            == s0[a]);
                        assert(sn[i as int].0 == s0[i as int].0);
                    }
                    lemma_map_extended_update(Map::empty(), s0, i as int, (*final(v))@);
                }
                Some(v)
            },
            None => None,
        }
    }

    /// Whether the two maps hold exactly the same entries, regardless of
    /// storage order.
    pub fn map_eq(&self, other: &Hstore) -> (r: bool)
        requires
            self.wf(),
            other.wf(),
        ensures
            r == (self@ == other@),
    {
        let n = self.entries.len();
        let m = other.entries.len();
        proof {
            lemma_seq_to_map_len(self.kv_seq());
            lemma_seq_to_map_len(other.kv_seq());
        }
        if n != m {
            proof {
                assert(self@.dom().len() != other@.dom().len());
            }
            return false;
        }
        let mut i: usize = 0;
        while i < n
            invariant
                self.wf(),
                other.wf(),
                n == self.entries@.len(),
                i <= n,
                forall|j: int| 0 <= j < i ==> other@.contains_key(#[trigger] self.kv_seq()[j].0)
                    && other@[self.kv_seq()[j].0] == self.kv_seq()[j].1,
            decreases n - i,
        {
            let found = other.get(self.entries[i].0.as_str());
            match found {
                Some(v) => {
                    if !str_eq(v.as_str(), self.entries[i].1.as_str()) {
                        proof {
                            lemma_map_extended_value_at(Map::empty(), self.kv_seq(), i as int);
                            let k = self.kv_seq()[i as int].0;
                            assert(self@[k] != other@[k]);
                        }
                        return false;
                    }
                },
                None => {
                    proof {
                        lemma_map_extended_value_at(Map::empty(), self.kv_seq(), i as int);
                    }
                    return false;
                },
            }
            i = i + 1;
        }
        proof {
            lemma_seq_to_map_len(self.kv_seq());
            lemma_seq_to_map_len(other.kv_seq());
            assert forall|k: Seq<char>| self@.dom().contains(k) implies other@.dom().contains(
                k,
            ) by {
                lemma_seq_to_map_contains(self.kv_seq(), k);
                let j = choose|j: int|
                    0 <= j < self.kv_seq().len() && self.kv_seq()[j].0 == k;
                assert(other@.contains_key(self.kv_seq()[j].0));
            }
            vstd::set_lib::lemma_subset_equality(self@.dom(), other@.dom());
            assert forall|k: Seq<char>| self@.dom().contains(k) implies self@[k]
                == other@[k] by {
                lemma_seq_to_map_contains(self.kv_seq(), k);
                let j = choose|j: int|
                    0 <= j < self.kv_seq().len() && self.kv_seq()[j].0 == k;
                lemma_map_extended_value_at(Map::empty(), self.kv_seq(), j);
            }
            assert(self@ =~= other@);
        }
        true
    }

    /// Removes the entry for `k`, returning its value if the key was
    /// present.
    pub fn remove(&mut self, k: &str) -> (prev: Option<String>)
        requires
            old(self).wf(),
        ensures
            final(self).wf(),
            final(self)@ == old(self)@.remove(k@),
            match prev {
                Some(p) => old(self)@.contains_key(k@) && p@ == old(self)@[k@],
                None => !old(self)@.contains_key(k@),
            },
    {
        let ghost s0 = self.kv_seq();
        match self.find_index(k) {
            Some(i) => {
                proof {
                    lemma_map_extended_value_at(Map::empty(), s0, i as int);
                }
                let pair = self.entries.remove(i);
                proof {
                    assert(self.kv_seq() =~= s0.remove(i as int));
                    lemma_map_extended_remove(Map::empty(), s0, i as int);
                    assert(distinct_keys(self.kv_seq())) by {
                        let sr = self.kv_seq();
                        assert forall|a: int, b: int| 0 <= a < b < sr.len() implies sr[a].0
                            != sr[b].0 by {
                            let a0: int = if a < i as int {
                                a
                            } else {
                                a + 1
                            };
                            let b0: int = if b < i as int {
                                b
                            } else {
                                b + 1
                            };
                            assert(sr[a] == s0[a0]);
                            assert(sr[b] == s0[b0]);
                        }
                    }
                }
                Some(pair.1)
            },
            None => {
                proof {
                    lemma_seq_to_map_contains(s0, k@);
                    assert(old(self)@.remove(k@) =~= old(self)@);
                }
                None
            },
        }
    }
}

impl Default for Hstore {
    /// The empty map.
    fn default() -> (r: Hstore)
        ensures
            r.wf(),
            r@ == Map::<Seq<char>, Seq<char>>::empty(),
            r.kv_seq() == Seq::<(Seq<char>, Seq<char>)>::empty(),
    {
        Hstore::new()
    }
}

impl Clone for Hstore {
    /// Copies every entry; the copy has the same contents, in the same
    /// storage order.
    fn clone(&self) -> (r: Hstore)
        ensures
            r.kv_seq() == self.kv_seq(),
            r@ == self@,
            r.wf() == self.wf(),
    {
        Hstore { entries: self.iter() }
    }
}

} // verus!
