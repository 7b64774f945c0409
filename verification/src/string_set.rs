//! An ordered set of strings, kept as a strictly ascending vector.
//!
//! Pull requests record the channels they have landed in as such a set: it
//! only ever grows, and membership, insertion and difference are all the
//! engine asks of it.  Keeping the members strictly sorted makes the stored
//! form canonical, so equal sets are stored identically.

use vstd::prelude::*;

use crate::text::{
    lemma_lex_le_antisymmetric, lemma_lex_le_total, lemma_lex_lt_transitive, lex_lt, str_eq,
    str_lex_lt,
};

verus! {

/// A set of strings; the view is the set of character sequences its members
/// denote.
#[derive(Debug)]
pub struct StringSet {
    items: Vec<String>,
}

impl View for StringSet {
    type V = Set<Seq<char>>;

    closed spec fn view(&self) -> Set<Seq<char>> {
        self.items@.map_values(|s: String| s@).to_set()
    }
}

impl StringSet {
    /// The members, in strictly ascending lexicographic order.
    pub closed spec fn elems(&self) -> Seq<String> {
        self.items@
    }

    #[verifier::type_invariant]
    spec fn sorted(&self) -> bool {
        forall|i: int, j: int|
            0 <= i < j < self.items@.len() ==> lex_lt(self.items@[i]@, self.items@[j]@)
    }

    /// Membership in the view is membership among the members.
    pub proof fn lemma_elems(&self)
        ensures
            forall|k: Seq<char>|
                self@.contains(k) == exists|i: int| 0 <= i < self.elems().len() && self.elems()[i]@ == k,
    {
        let m = self.items@.map_values(|s: String| s@);
        assert forall|k: Seq<char>|
            self@.contains(k) == exists|i: int|
                0 <= i < self.elems().len() && self.elems()[i]@ == k by {
            if self@.contains(k) {
                let i = choose|i: int| 0 <= i < m.len() && m[i] == k;
                assert(self.elems()[i]@ == k);
            }
            if exists|i: int| 0 <= i < self.elems().len() && self.elems()[i]@ == k {
                let i = choose|i: int| 0 <= i < self.elems().len() && self.elems()[i]@ == k;
                assert(m[i] == k);
                assert(m.contains(k));
            }
        }
    }

    /// The empty set.
    pub fn new() -> (r: StringSet)
        ensures
            r@ == Set::<Seq<char>>::empty(),
            r.elems() == Seq::<String>::empty(),
    {
        let r = StringSet { items: Vec::new() };
        proof {
            assert(r.items@.map_values(|s: String| s@).to_set() =~= Set::<Seq<char>>::empty());
        }
        r
    }

    /// How many members the set has.
    pub fn len(&self) -> (r: usize)
        ensures
            r == self.elems().len(),
    {
        self.items.len()
    }

    pub fn is_empty(&self) -> (r: bool)
        ensures
            r == (self.elems().len() == 0),
            r == (self@ =~= Set::<Seq<char>>::empty()),
    {
        proof {
            self.lemma_elems();
            if self.elems().len() > 0 {
                assert(self@.contains(self.elems()[0]@));
            }
        }
        self.items.len() == 0
    }

    /// The member at position `i`, in ascending order.
    pub fn at(&self, i: usize) -> (r: &String)
        requires
            i < self.elems().len(),
        ensures
            r@ == self.elems()[i as int]@,
            self@.contains(r@),
    {
        proof {
            self.lemma_elems();
        }
        &self.items[i]
    }

    /// Whether `s` is a member.
    pub fn contains(&self, s: &str) -> (r: bool)
        ensures
            r == self@.contains(s@),
    {
        let mut i: usize = 0;
        while i < self.items.len()
            invariant
                0 <= i <= self.items@.len(),
                forall|k: int| 0 <= k < i ==> self.items@[k]@ != s@,
            decreases self.items@.len() - i,
        {
            if str_eq(self.items[i].as_str(), s) {
                proof {
                    let m = self.items@.map_values(|x: String| x@);
                    assert(m[i as int] == s@);
                    assert(m.contains(s@));
                }
                return true;
            }
            i = i + 1;
        }
        proof {
            let m = self.items@.map_values(|x: String| x@);
            if self@.contains(s@) {
                let j = choose|j: int| 0 <= j < m.len() && m[j] == s@;
                assert(self.items@[j]@ == s@);
            }
        }
        false
    }

    /// Adds `s`; the set of members grows by at most that one string.
    pub fn insert(&mut self, s: String)
        ensures
            final(self)@ == old(self)@.insert(s@),
    {
        proof {
            use_type_invariant(&*self);
        }
        let ghost old_items: Seq<String> = self.items@;
        let mut items: Vec<String> = Vec::new();
        core::mem::swap(&mut items, &mut self.items);
        let mut i: usize = 0;
        while i < items.len()
            invariant
                0 <= i <= items@.len(),
                items@ == old_items,
                forall|k: int| 0 <= k < i ==> lex_lt(items@[k]@, s@),
            ensures
                0 <= i <= items@.len(),
                items@ == old_items,
                forall|k: int| 0 <= k < i ==> lex_lt(items@[k]@, s@),
                i < items@.len() ==> !lex_lt(items@[i as int]@, s@),
            decreases items@.len() - i,
        {
            if !str_lex_lt(items[i].as_str(), &s) {
                break;
            }
            i = i + 1;
        }
        // `i` is now the insertion point: everything before it is strictly
        // below `s`, and the element at it (if any) is not.
        if i < items.len() && str_eq(items[i].as_str(), &s) {
            proof {
                let m = old_items.map_values(|x: String| x@);
                assert(m[i as int] == s@);
                assert(m.contains(s@));
                assert(old(self)@.contains(s@));
                assert(old(self)@.insert(s@) =~= old(self)@);
            }
            self.items = items;
            return;
        }
        proof {
            if i < old_items.len() {
                // The member at the insertion point is strictly above `s`.
                lemma_lex_le_total(s@, old_items[i as int]@);
                assert(old_items[i as int]@ != s@);
                assert(lex_lt(s@, old_items[i as int]@));
            }
            assert forall|a: int, b: int|
                0 <= a < b < old_items.insert(i as int, s).len() implies lex_lt(
                old_items.insert(i as int, s)[a]@,
                old_items.insert(i as int, s)[b]@,
            ) by {
                let n = old_items.insert(i as int, s);
                if a < i && b == i {
                } else if a == i && b > i {
                    if b - 1 > i {
                        lemma_lex_lt_transitive(s@, old_items[i as int]@, old_items[b - 1]@);
                    }
                } else {
                }
            }
        }
        items.insert(i, s);
        proof {
            let n = items@;
            let m = n.map_values(|x: String| x@);
            let om = old_items.map_values(|x: String| x@);
            assert forall|k: Seq<char>| m.to_set().contains(k) == old(self)@.insert(s@).contains(
                k,
            ) by {
                if m.to_set().contains(k) {
                    let a = choose|a: int| 0 <= a < m.len() && m[a] == k;
                    if a < i {
                        assert(om[a] == k);
                        assert(om.contains(k));
                    } else if a == i {
                    } else {
                        assert(om[a - 1] == k);
                        assert(om.contains(k));
                    }
                }
                if old(self)@.insert(s@).contains(k) {
                    if k == s@ {
                        assert(m[i as int] == k);
                        assert(m.contains(k));
                    } else {
                        let a = choose|a: int| 0 <= a < om.len() && om[a] == k;
                        if a < i {
                            assert(m[a] == k);
                        } else {
                            assert(m[a + 1] == k);
                        }
                        assert(m.contains(k));
                    }
                }
            }
            assert(n.map_values(|x: String| x@).to_set() =~= old(self)@.insert(s@));
        }
        self.items = items;
    }

    /// The members of `self` that are not members of `other`, ascending.
    pub fn difference(&self, other: &StringSet) -> (r: Vec<String>)
        ensures
            r@.map_values(|x: String| x@).to_set() == self@.difference(other@),
            forall|i: int, j: int| 0 <= i < j < r@.len() ==> lex_lt(r@[i]@, r@[j]@),
            forall|i: int| 0 <= i < r@.len() ==> self@.contains(r@[i]@) && !other@.contains(r@[i]@),
    {
        proof {
            use_type_invariant(&*self);
            self.lemma_elems();
        }
        let mut r: Vec<String> = Vec::new();
        let mut i: usize = 0;
        while i < self.items.len()
            invariant
                0 <= i <= self.items@.len(),
                self.elems() == self.items@,
                forall|a: int, b: int|
                    0 <= a < b < self.items@.len() ==> lex_lt(self.items@[a]@, self.items@[b]@),
                r@.map_values(|x: String| x@).to_set() =~= self.items@.subrange(
                    0,
                    i as int,
                ).map_values(|x: String| x@).to_set().difference(other@),
                forall|a: int| 0 <= a < r@.len() ==> self@.contains(r@[a]@) && !other@.contains(r@[a]@),
                forall|a: int|
                    0 <= a < r@.len() ==> exists|b: int|
                        0 <= b < i && #[trigger] r@[a]@ == #[trigger] self.items@[b]@,
                forall|a: int, b: int| 0 <= a < b < r@.len() ==> lex_lt(r@[a]@, r@[b]@),
            decreases self.items@.len() - i,
        {
            let present = other.contains(self.items[i].as_str());
            let ghost r_old = r@;
            if !present {
                let item = clone_string(&self.items[i]);
                proof {
                    let m = self.items@.map_values(|x: String| x@);
                    assert(m[i as int] == self.items@[i as int]@);
                    assert(m.contains(self.items@[i as int]@));
                    assert(self@.contains(self.items@[i as int]@));
                    assert forall|a: int| 0 <= a < r_old.len() implies lex_lt(
                        r_old[a]@,
                        self.items@[i as int]@,
                    ) by {
                        let b = choose|b: int|
                            0 <= b < i && #[trigger] r_old[a]@ == #[trigger] self.items@[b]@;
                    }
                }
                r.push(item);
            }
            proof {
                let cur = self.items@[i as int]@;
                let pre = self.items@.subrange(0, i as int).map_values(|x: String| x@);
                let post = self.items@.subrange(0, i + 1).map_values(|x: String| x@);
                let mr_old = r_old.map_values(|x: String| x@);
                let mr = r@.map_values(|x: String| x@);
                assert forall|k: Seq<char>| mr.to_set().contains(k) == (mr_old.to_set().contains(k)
                    || (!present && k == cur)) by {
                    if !present {
                        assert(r@ == r_old.push(self.items@[i as int]));
                        if mr.to_set().contains(k) {
                            let a = choose|a: int| 0 <= a < mr.len() && mr[a] == k;
                            if a < r_old.len() {
                                assert(mr_old[a] == k);
                                assert(mr_old.contains(k));
                            } else {
                                assert(k == cur);
                            }
                        }
                        if mr_old.to_set().contains(k) {
                            let a = choose|a: int| 0 <= a < mr_old.len() && mr_old[a] == k;
                            assert(mr[a] == k);
                            assert(mr.contains(k));
                        }
                        if k == cur {
                            assert(mr[r_old.len() as int] == k);
                            assert(mr.contains(k));
                        }
                    } else {
                        assert(mr == mr_old);
                    }
                }
                assert forall|k: Seq<char>| post.to_set().contains(k) == (pre.to_set().contains(k)
                    || k == cur) by {
                    if post.to_set().contains(k) {
                        let a = choose|a: int| 0 <= a < post.len() && post[a] == k;
                        if a < i {
                            assert(pre[a] == k);
                            assert(pre.contains(k));
                        } else {
                            assert(k == cur);
                        }
                    }
                    if pre.to_set().contains(k) {
                        let a = choose|a: int| 0 <= a < pre.len() && pre[a] == k;
                        assert(post[a] == k);
                        assert(post.contains(k));
                    }
                    if k == cur {
                        assert(post[i as int] == k);
                        assert(post.contains(k));
                    }
                }
                assert(present == other@.contains(cur));
                assert(mr.to_set() =~= post.to_set().difference(other@));
            }
            i = i + 1;
        }
        proof {
            assert(self.items@.subrange(0, self.items@.len() as int) =~= self.items@);
        }
        r
    }
}

/// Clones a string; the copy denotes the same characters.
pub fn clone_string(s: &String) -> (r: String)
    ensures
        r == *s,
{
    s.clone()
}

} // verus!
