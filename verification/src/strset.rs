//! A set of strings kept as a strictly ascending list.
use vstd::prelude::*;
use crate::text::{chars_of, chars_eq, pattern_matches, prefix_pattern_matches, lex_less, lex_lt, lemma_lex_irreflexive,
    lemma_lex_asymmetric, lemma_lex_transitive, lemma_lex_total};

verus! {

/// The character sequences of a list of strings.
pub open spec fn views(v: Seq<String>) -> Seq<Seq<char>> {
    v.map_values(|s: String| s@)
}

/// Strictly ascending in lexicographic order (so also free of duplicates).
pub open spec fn sorted(s: Seq<Seq<char>>) -> bool {
    forall|i: int, j: int| 0 <= i < j < s.len() ==> lex_lt(#[trigger] s[i], #[trigger] s[j])
}

/// Two strictly ascending lists that hold the same elements are equal.
pub proof fn lemma_sorted_unique(a: Seq<Seq<char>>, b: Seq<Seq<char>>)
    requires
        sorted(a),
        sorted(b),
        a.to_set() == b.to_set(),
    ensures
        a == b,
    decreases a.len(),
{
    assert forall|x: Seq<char>| a.contains(x) <==> b.contains(x) by {
        assert(a.to_set().contains(x) == a.contains(x));
        assert(b.to_set().contains(x) == b.contains(x));
    }
    if a.len() == 0 {
        if b.len() > 0 {
            assert(b.contains(b[0]));
        }
        assert(a =~= b);
    } else if b.len() == 0 {
        assert(a.contains(a[0]));
    } else {
        // the first elements are the least of each list, so they agree
        let x = a[0];
        let y = b[0];
        assert(a.contains(x));
        let j = choose|j: int| 0 <= j < b.len() && b[j] == x;
        assert(b.contains(y));
        let i = choose|i: int| 0 <= i < a.len() && a[i] == y;
        if x != y {
            if j > 0 {
                assert(lex_lt(b[0], b[j]));
            }
            if i > 0 {
                assert(lex_lt(a[0], a[i]));
            }
            lemma_lex_asymmetric(x, y);
        }
        let a1 = a.drop_first();
        let b1 = b.drop_first();
        assert forall|z: Seq<char>| a1.contains(z) <==> b1.contains(z) by {
            if a1.contains(z) {
                let k = choose|k: int| 0 <= k < a1.len() && a1[k] == z;
                assert(lex_lt(a[0], a[k + 1]));
                lemma_lex_irreflexive(z);
                assert(a.contains(z));
                let m = choose|m: int| 0 <= m < b.len() && b[m] == z;
                assert(m != 0);
                assert(b1[m - 1] == z);
            }
            if b1.contains(z) {
                let k = choose|k: int| 0 <= k < b1.len() && b1[k] == z;
                assert(lex_lt(b[0], b[k + 1]));
                lemma_lex_irreflexive(z);
                assert(b.contains(z));
                let m = choose|m: int| 0 <= m < a.len() && a[m] == z;
                assert(m != 0);
                assert(a1[m - 1] == z);
            }
        }
        assert(a1.to_set() =~= b1.to_set());
        assert forall|i: int, j: int| 0 <= i < j < a1.len() implies lex_lt(#[trigger] a1[i], #[trigger] a1[j]) by {
            assert(a1[i] == a[i + 1] && a1[j] == a[j + 1]);
        }
        assert forall|i: int, j: int| 0 <= i < j < b1.len() implies lex_lt(#[trigger] b1[i], #[trigger] b1[j]) by {
            assert(b1[i] == b[i + 1] && b1[j] == b[j + 1]);
        }
        lemma_sorted_unique(a1, b1);
        assert forall|k: int| 0 <= k < a.len() implies a[k] == b[k] by {
            if k > 0 {
                assert(a[k] == a1[k - 1]);
                assert(b[k] == b1[k - 1]);
            }
        }
        assert(a =~= b);
    }
}

/// Whether some entry of `entries` is a prefix pattern that `name` matches.
pub open spec fn any_pattern(entries: Seq<Seq<char>>, name: Seq<char>) -> bool {
    exists|i: int| 0 <= i < entries.len() && prefix_pattern_matches(#[trigger] entries[i], name)
}

/// A set of strings; its view lists the elements in ascending order.
pub struct StrSet {
    items: Vec<String>,
}

impl View for StrSet {
    type V = Seq<Seq<char>>;

    closed spec fn view(&self) -> Seq<Seq<char>> {
        views(self.items@)
    }
}

impl StrSet {
    #[verifier::type_invariant]
    spec fn inv(self) -> bool {
        sorted(views(self.items@))
    }

    /// The empty set.
    pub fn new() -> (s: StrSet)
        ensures
            s@ == Seq::<Seq<char>>::empty(),
    {
        StrSet { items: Vec::new() }
    }

    /// The first index whose element is not below `x`, and whether it is `x`.
    fn locate(&self, x: &[char]) -> (r: (usize, bool))
        ensures
            r.0 <= self@.len(),
            forall|k: int| 0 <= k < r.0 ==> lex_lt(#[trigger] self@[k], x@),
            r.0 < self@.len() ==> !lex_lt(self@[r.0 as int], x@),
            r.1 == (r.0 < self@.len() && self@[r.0 as int] == x@),
            r.1 == self@.contains(x@),
    {
        proof { use_type_invariant(self); }
        let mut i: usize = 0;
        while i < self.items.len()
            invariant
                i <= self@.len(),
                self@.len() == self.items@.len(),
                self@ == views(self.items@),
                sorted(self@),
                forall|k: int| 0 <= k < i ==> lex_lt(#[trigger] self@[k], x@),
            decreases self.items.len() - i,
        {
            let cur = chars_of(self.items[i].as_str());
            if !lex_less(cur.as_slice(), x) {
                let eq = chars_eq(cur.as_slice(), x);
                proof {
                    if !eq {
                        assert forall|k: int| 0 <= k < self@.len() implies self@[k] != x@ by {
                            if k < i {
                                lemma_lex_irreflexive(x@);
                            } else if k > i {
                                lemma_lex_total(self@[i as int], x@);
                                assert(lex_lt(self@[i as int], self@[k]));
                                if self@[k] == x@ {
                                    lemma_lex_asymmetric(self@[i as int], x@);
                                }
                            }
                        }
                    }
                }
                return (i, eq);
            }
            i = i + 1;
        }
        proof {
            assert forall|k: int| 0 <= k < self@.len() implies self@[k] != x@ by {
                lemma_lex_irreflexive(x@);
            }
        }
        (i, false)
    }

    /// Whether `x` is an element.
    pub fn contains(&self, x: &str) -> (r: bool)
        ensures
            r == self@.contains(x@),
            sorted(self@),
    {
        proof { use_type_invariant(self); }
        let v = chars_of(x);
        self.locate(v.as_slice()).1
    }

    /// Adds `x`; returns whether it was absent before.
    pub fn insert(&mut self, x: String) -> (added: bool)
        ensures
            added == !old(self)@.contains(x@),
            final(self)@.to_set() == old(self)@.to_set().insert(x@),
            sorted(final(self)@),
    {
        proof { use_type_invariant(&*self); }
        let v = chars_of(x.as_str());
        let (pos, found) = self.locate(v.as_slice());
        if found {
            return false;
        }
        let ghost old_view = self@;
        let mut items: Vec<String> = Vec::new();
        std::mem::swap(&mut items, &mut self.items);
        assert(views(items@) == old_view);
        items.insert(pos, x);
        proof {
            let nv = views(items@);
            assert(nv =~= old_view.insert(pos as int, v@));
            assert forall|i: int, j: int| 0 <= i < j < nv.len() implies lex_lt(
                #[trigger] nv[i],
                #[trigger] nv[j],
            ) by {
                if j < pos {
                } else if i < pos && j == pos {
                } else if i < pos && j > pos {
                    assert(lex_lt(old_view[i], v@));
                    lemma_lex_total(old_view[pos as int], v@);
                    assert(lex_lt(v@, old_view[pos as int]) || old_view[pos as int] == v@);
                    if j - 1 > pos {
                        assert(lex_lt(old_view[pos as int], old_view[j - 1]));
                        lemma_lex_transitive(v@, old_view[pos as int], old_view[j - 1]);
                    }
                } else if i == pos {
                    lemma_lex_total(old_view[pos as int], v@);
                    if j - 1 > pos {
                        assert(lex_lt(old_view[pos as int], old_view[j - 1]));
                        lemma_lex_transitive(v@, old_view[pos as int], old_view[j - 1]);
                    }
                } else {
                    assert(nv[i] == old_view[i - 1]);
                    assert(nv[j] == old_view[j - 1]);
                }
            }
            assert forall|z: Seq<char>| nv.contains(z) <==> old_view.contains(z) || z == v@ by {
                if nv.contains(z) {
                    let k = choose|k: int| 0 <= k < nv.len() && nv[k] == z;
                    if k < pos {
                        assert(old_view[k] == z);
                    } else if k > pos {
                        assert(old_view[k - 1] == z);
                    }
                }
                if old_view.contains(z) {
                    let k = choose|k: int| 0 <= k < old_view.len() && old_view[k] == z;
                    if k < pos {
                        assert(nv[k] == z);
                    } else {
                        assert(nv[k + 1] == z);
                    }
                }
                if z == v@ {
                    assert(nv[pos as int] == z);
                }
            }
            assert(nv.to_set() =~= old_view.to_set().insert(v@));
        }
        self.items = items;
        true
    }

    /// Removes `x`; returns whether it was present.
    pub fn remove(&mut self, x: &str) -> (removed: bool)
        ensures
            removed == old(self)@.contains(x@),
            final(self)@.to_set() == old(self)@.to_set().remove(x@),
            sorted(final(self)@),
    {
        proof { use_type_invariant(&*self); }
        let v = chars_of(x);
        let (pos, found) = self.locate(v.as_slice());
        if !found {
            proof {
                assert(old(self)@.to_set().remove(x@) =~= old(self)@.to_set());
            }
            return false;
        }
        let ghost old_view = self@;
        let mut items: Vec<String> = Vec::new();
        std::mem::swap(&mut items, &mut self.items);
        assert(views(items@) == old_view);
        items.remove(pos);
        proof {
            let nv = views(items@);
            assert(nv =~= old_view.remove(pos as int));
            assert forall|i: int, j: int| 0 <= i < j < nv.len() implies lex_lt(
                #[trigger] nv[i],
                #[trigger] nv[j],
            ) by {
                let oi = if i < pos { i } else { i + 1 };
                let oj = if j < pos { j } else { j + 1 };
                assert(nv[i] == old_view[oi]);
                assert(nv[j] == old_view[oj]);
            }
            assert forall|z: Seq<char>| nv.contains(z) <==> old_view.contains(z) && z != x@ by {
                if nv.contains(z) {
                    let k = choose|k: int| 0 <= k < nv.len() && nv[k] == z;
                    let ok = if k < pos { k } else { k + 1 };
                    assert(old_view[ok] == z);
                    if ok < pos {
                        assert(lex_lt(old_view[ok], old_view[pos as int]));
                    } else {
                        assert(lex_lt(old_view[pos as int], old_view[ok]));
                    }
                    lemma_lex_irreflexive(z);
                }
                if old_view.contains(z) && z != x@ {
                    let k = choose|k: int| 0 <= k < old_view.len() && old_view[k] == z;
                    let nk = if k < pos { k } else { k - 1 };
                    assert(nv[nk] == z);
                }
            }
            assert(nv.to_set() =~= old_view.to_set().remove(v@));
        }
        self.items = items;
        true
    }

    /// Removes every element.
    pub fn clear(&mut self)
        ensures
            final(self)@ == Seq::<Seq<char>>::empty(),
    {
        self.items = Vec::new();
        assert(self@ =~= Seq::<Seq<char>>::empty());
    }

    /// The number of elements.
    pub fn len(&self) -> (n: usize)
        ensures
            n == self@.len(),
    {
        self.items.len()
    }

    /// Whether the set has no element.
    pub fn is_empty(&self) -> (r: bool)
        ensures
            r == (self@.len() == 0),
    {
        self.items.len() == 0
    }

    /// The elements, in ascending order.
    pub fn sorted_vec(&self) -> (v: Vec<String>)
        ensures
            views(v@) == self@,
            sorted(views(v@)),
    {
        proof { use_type_invariant(self); }
        let mut v: Vec<String> = Vec::new();
        let mut i: usize = 0;
        while i < self.items.len()
            invariant
                i <= self.items@.len(),
                v@.len() == i,
                forall|k: int| 0 <= k < i ==> (#[trigger] v@[k])@ == self.items@[k]@,
            decreases self.items.len() - i,
        {
            let c = self.items[i].clone();
            v.push(c);
            i = i + 1;
        }
        assert(views(v@) =~= views(self.items@));
        v
    }

    /// Whether some element is a prefix pattern that `name` matches.
    pub fn any_pattern_matches(&self, name: &[char]) -> (r: bool)
        ensures
            r == any_pattern(self@, name@),
    {
        let mut i: usize = 0;
        while i < self.items.len()
            invariant
                i <= self.items@.len(),
                self@ == views(self.items@),
                forall|k: int| 0 <= k < i ==> !prefix_pattern_matches(#[trigger] self@[k], name@),
            decreases self.items.len() - i,
        {
            let e = chars_of(self.items[i].as_str());
            if pattern_matches(e.as_slice(), name) {
                assert(prefix_pattern_matches(self@[i as int], name@));
                return true;
            }
            i = i + 1;
        }
        false
    }

    /// The element at position `i` of the ascending list.
    pub fn get(&self, i: usize) -> (s: &String)
        requires
            i < self@.len(),
        ensures
            s@ == self@[i as int],
    {
        &self.items[i]
    }
}

} // verus!
