//! The trie node: a token value, an occurrence counter, and the children in
//! insertion order. Child values are unique, so a node is a mapping from
//! token value to child node; keeping the children in a vector fixes the
//! insertion order, which the prediction's tie-break relies on.

use vstd::prelude::*;

verus! {

broadcast use vstd::std_specs::vec::axiom_vec_index_decreases;

/// The tokens of `toks` from position `start` on.
pub open spec fn chain_from(toks: Seq<Seq<char>>, start: int) -> Seq<Seq<char>> {
    toks.subrange(start, toks.len() as int)
}

/// Whether `c` is a non-empty prefix of `s`.
pub open spec fn is_nonempty_prefix_of(c: Seq<Seq<char>>, s: Seq<Seq<char>>) -> bool {
    &&& 0 < c.len() <= s.len()
    &&& forall|i: int| 0 <= i < c.len() ==> c[i] == s[i]
}

/// One when the condition holds, zero otherwise.
pub open spec fn count_if(b: bool) -> nat {
    if b {
        1nat
    } else {
        0nat
    }
}

/// A prefix check steps past a shared first token.
pub proof fn lemma_prefix_step(c: Seq<Seq<char>>, s: Seq<Seq<char>>)
    requires
        c.len() > 1,
        s.len() > 0,
        c[0] == s[0],
    ensures
        is_nonempty_prefix_of(c, s) == is_nonempty_prefix_of(c.skip(1), s.skip(1)),
{
    if is_nonempty_prefix_of(c, s) {
        assert forall|i: int| 0 <= i < c.skip(1).len() implies c.skip(1)[i] == s.skip(1)[i] by {
            assert(c[i + 1] == s[i + 1]);
        }
        assert(is_nonempty_prefix_of(c.skip(1), s.skip(1)));
    }
    if is_nonempty_prefix_of(c.skip(1), s.skip(1)) {
        assert forall|i: int| 0 <= i < c.len() implies c[i] == s[i] by {
            if i > 0 {
                assert(c.skip(1)[i - 1] == s.skip(1)[i - 1]);
            }
        }
        assert(is_nonempty_prefix_of(c, s));
    }
}

/// Peeling the first token off a chain suffix.
pub proof fn lemma_chain_from_step(toks: Seq<Seq<char>>, start: int)
    requires
        0 <= start < toks.len(),
    ensures
        chain_from(toks, start).len() == toks.len() - start,
        chain_from(toks, start)[0] == toks[start],
        chain_from(toks, start).skip(1) == chain_from(toks, start + 1),
{
    assert(chain_from(toks, start).skip(1) =~= chain_from(toks, start + 1));
}

/// One trie node. `occurrences` counts how many times the path from the
/// context's root to this node was inserted; the root itself keeps it at 0.
pub struct Token {
    pub value: String,
    pub occurrences: usize,
    pub children: Vec<Token>,
}

impl Token {
    /// Whether some child carries the value `v`.
    pub open spec fn has_child(self, v: Seq<char>) -> bool {
        exists|i: int| 0 <= i < self.children@.len() && self.children@[i].value@ == v
    }

    /// The index of the child carrying `v` (meaningful only when unique).
    pub open spec fn child_ix(self, v: Seq<char>) -> int {
        choose|i: int| 0 <= i < self.children@.len() && self.children@[i].value@ == v
    }

    /// The child carrying `v`.
    pub open spec fn child(self, v: Seq<char>) -> Token {
        self.children@[self.child_ix(v)]
    }

    /// The node reached from `self` by following the path `chain`, if that
    /// path exists in the trie.
    pub open spec fn descend(self, chain: Seq<Seq<char>>) -> Option<Token>
        decreases chain.len(),
    {
        if chain.len() == 0 {
            Some(self)
        } else if self.has_child(chain[0]) {
            self.child(chain[0]).descend(chain.skip(1))
        } else {
            None
        }
    }

    /// How often the path `chain` below `self` was inserted: the occurrence
    /// count of the node it leads to, or zero when the path is absent.
    pub open spec fn occ(self, chain: Seq<Seq<char>>) -> nat {
        match self.descend(chain) {
            Some(node) => node.occurrences as nat,
            None => 0,
        }
    }

    /// Well-formed: child values are unique, every child was inserted at
    /// least once, and the children are themselves well-formed.
    pub open spec fn wf(self) -> bool
        decreases self,
    {
        &&& (forall|i: int, j: int|
            0 <= i < j < self.children@.len() ==> (#[trigger] self.children@[i]).value@
                != (#[trigger] self.children@[j]).value@)
        &&& (forall|i: int|
            0 <= i < self.children@.len() ==> (#[trigger] self.children@[i]).occurrences >= 1)
        &&& (forall|i: int| 0 <= i < self.children@.len() ==> (#[trigger] self.children@[i]).wf())
    }

    /// Every occurrence count strictly below `self` is at most `m`.
    pub open spec fn sub_occ_le(self, m: nat) -> bool
        decreases self,
    {
        forall|i: int|
            0 <= i < self.children@.len() ==> (#[trigger] self.children@[i]).occurrences <= m
                && self.children@[i].sub_occ_le(m)
    }

    /// In a well-formed node the child lookup is pinned: the child found at
    /// index `i` is the one that `child_ix` and `child` denote.
    pub proof fn lemma_child_at(self, i: int)
        requires
            self.wf(),
            0 <= i < self.children@.len(),
        ensures
            self.has_child(self.children@[i].value@),
            self.child_ix(self.children@[i].value@) == i,
            self.child(self.children@[i].value@) == self.children@[i],
    {
        let v = self.children@[i].value@;
        assert(self.has_child(v));
        let j = self.child_ix(v);
        if j != i {
            if j < i {
                assert(self.children@[j].value@ != self.children@[i].value@);
            } else {
                assert(self.children@[i].value@ != self.children@[j].value@);
            }
        }
    }

    /// A larger bound also holds.
    pub proof fn lemma_sub_occ_le_mono(self, a: nat, b: nat)
        requires
            self.sub_occ_le(a),
            a <= b,
        ensures
            self.sub_occ_le(b),
        decreases self,
    {
        assert forall|i: int| 0 <= i < self.children@.len()
            implies (#[trigger] self.children@[i]).occurrences <= b
                && self.children@[i].sub_occ_le(b) by {
            self.children@[i].lemma_sub_occ_le_mono(a, b);
        }
    }

    /// One unfolding step of `occ` along a non-empty chain.
    pub proof fn lemma_occ_unfold(self, c: Seq<Seq<char>>)
        requires
            c.len() > 0,
        ensures
            self.occ(c) == if self.has_child(c[0]) {
                self.child(c[0]).occ(c.skip(1))
            } else {
                0nat
            },
    {
    }

    /// `wf` looks only at the children, never at a node's own value or count.
    pub proof fn lemma_wf_same_children(self, other: Token)
        requires
            self.children@ == other.children@,
            self.wf(),
        ensures
            other.wf(),
    {
    }

    /// `sub_occ_le` looks only at the children.
    pub proof fn lemma_sub_occ_same_children(self, other: Token, m: nat)
        requires
            self.children@ == other.children@,
            self.sub_occ_le(m),
        ensures
            other.sub_occ_le(m),
    {
    }

    /// `occ` along a non-empty chain looks only at the children.
    pub proof fn lemma_occ_same_children(self, other: Token, c: Seq<Seq<char>>)
        requires
            self.children@ == other.children@,
            self.wf(),
            c.len() > 0,
        ensures
            other.occ(c) == self.occ(c),
    {
        self.lemma_occ_unfold(c);
        other.lemma_occ_unfold(c);
        let v = c[0];
        if self.has_child(v) {
            let i = self.child_ix(v);
            assert(0 <= i < self.children@.len() && self.children@[i].value@ == v);
            assert(other.has_child(v));
            let j = other.child_ix(v);
            assert(0 <= j < other.children@.len() && other.children@[j].value@ == v);
            if i != j {
                if i < j {
                    assert(self.children@[i].value@ != self.children@[j].value@);
                } else {
                    assert(self.children@[j].value@ != self.children@[i].value@);
                }
            }
            assert(self.child(v) == other.child(v));
        } else {
            assert(!other.has_child(v));
        }
    }

    /// Descending along a concatenation descends along both parts in turn.
    pub proof fn lemma_descend_append(self, a: Seq<Seq<char>>, b: Seq<Seq<char>>)
        ensures
            self.descend(a + b) == match self.descend(a) {
                Some(n) => n.descend(b),
                None => None::<Token>,
            },
        decreases a.len(),
    {
        if a.len() == 0 {
            assert(a + b =~= b);
        } else {
            let ab = a + b;
            assert(ab.len() > 0);
            assert(ab[0] == a[0]);
            if self.has_child(a[0]) {
                self.child(a[0]).lemma_descend_append(a.skip(1), b);
                assert(ab.skip(1) =~= a.skip(1) + b);
            }
        }
    }

    /// The child holding `value`, or `None` when no child does.
    pub fn get_child<'a>(&'a self, value: &String) -> (r: Option<&'a Token>)
        requires
            self.wf(),
        ensures
            match r {
                Some(c) => self.has_child(value@) && *c == self.child(value@),
                None => !self.has_child(value@),
            },
    {
        let n = self.children.len();
        let mut i: usize = 0;
        while i < n
            invariant
                n == self.children@.len(),
                i <= n,
                self.wf(),
                forall|j: int| 0 <= j < i ==> (#[trigger] self.children@[j]).value@ != value@,
            decreases n - i,
        {
            if self.children[i].value == *value {
                proof {
                    self.lemma_child_at(i as int);
                }
                return Some(&self.children[i]);
            }
            i += 1;
        }
        None
    }

    /// If a child carrying `child_value` exists, raise its occurrence count
    /// by one; otherwise append a fresh child with count one. Returns the
    /// child's index.
    pub fn insert_or_bump(&mut self, child_value: &String) -> (i: usize)
        requires
            old(self).wf(),
            old(self).has_child(child_value@) ==> old(self).child(
                child_value@,
            ).occurrences < usize::MAX,
        ensures
            final(self).wf(),
            final(self).value == old(self).value,
            final(self).occurrences == old(self).occurrences,
            i < final(self).children@.len(),
            final(self).children@[i as int].value@ == child_value@,
            old(self).has_child(child_value@) ==> {
                &&& i as int == old(self).child_ix(child_value@)
                &&& final(self).children@.len() == old(self).children@.len()
                &&& final(self).children@[i as int].occurrences == old(self).children@[i as int].occurrences + 1
                &&& final(self).children@[i as int].children@ == old(self).children@[i as int].children@
                &&& forall|j: int|
                    0 <= j < old(self).children@.len() && j != i as int
                        ==> final(self).children@[j] == old(self).children@[j]
            },
            !old(self).has_child(child_value@) ==> {
                &&& i as int == old(self).children@.len()
                &&& final(self).children@.len() == old(self).children@.len() + 1
                &&& forall|j: int|
                    0 <= j < old(self).children@.len() ==> final(self).children@[j] == old(
                        self,
                    ).children@[j]
                &&& final(self).children@[i as int].occurrences == 1
                &&& final(self).children@[i as int].children@.len() == 0
            },
    {
        let n = self.children.len();
        let mut k: usize = 0;
        while k < n
            invariant
                *self == *old(self),
                n == self.children@.len(),
                k <= n,
                self.wf(),
                old(self).has_child(child_value@) ==> old(self).child(
                    child_value@,
                ).occurrences < usize::MAX,
                forall|j: int| 0 <= j < k ==> (#[trigger] self.children@[j]).value@ != child_value@,
            decreases n - k,
        {
            if self.children[k].value == *child_value {
                proof {
                    self.lemma_child_at(k as int);
                }
                let mut c = self.children.remove(k);
                proof {
                    assert(old(self).has_child(child_value@));
                    assert(old(self).child(child_value@).occurrences < usize::MAX);
                    assert(c == old(self).child(child_value@));
                    assert(c.occurrences < usize::MAX);
                }
                c.occurrences = c.occurrences + 1;
                proof {
                    old(self).children@[k as int].lemma_wf_same_children(c);
                }
                self.children.insert(k, c);
                proof {
                    assert(self.children@ =~= old(self).children@.update(k as int, c));
                    assert forall|a: int, b: int|
                        0 <= a < b < self.children@.len() implies (
                    #[trigger] self.children@[a]).value@ != (#[trigger] self.children@[b]).value@ by {
                        assert(old(self).children@[a].value@ != old(self).children@[b].value@);
                    }
                }
                return k;
            }
            k += 1;
        }
        let fresh = Token { value: child_value.clone(), occurrences: 1, children: Vec::new() };
        proof {
            assert(fresh.children@.len() == 0);
            assert(fresh.wf());
        }
        self.children.push(fresh);
        n
    }

    /// Insert the chain `toks[start..]` below `self`: each token of the
    /// chain, in order, is looked up or created one level deeper, and its
    /// occurrence count rises by one. Exactly the counts of the chain's
    /// non-empty prefixes change.
    pub fn insert_chain(&mut self, toks: &Vec<String>, start: usize)
        requires
            old(self).wf(),
            start <= toks@.len(),
            old(self).sub_occ_le((usize::MAX - 1) as nat),
        ensures
            final(self).wf(),
            final(self).value == old(self).value,
            final(self).occurrences == old(self).occurrences,
            forall|c: Seq<Seq<char>>| #[trigger] final(self).occ(c) == old(self).occ(c)
                + count_if(is_nonempty_prefix_of(c, chain_from(toks.deep_view(), start as int))),
            forall|m: nat| #[trigger] old(self).sub_occ_le(m) ==> final(self).sub_occ_le(m + 1),
        decreases toks@.len() - start,
    {
        let ghost dv = toks.deep_view();
        let ghost chain = chain_from(dv, start as int);
        if start >= toks.len() {
            proof {
                assert(chain.len() == 0);
                assert forall|c: Seq<Seq<char>>| #[trigger] self.occ(c) == old(self).occ(c)
                    + count_if(is_nonempty_prefix_of(c, chain)) by {
                    assert(!is_nonempty_prefix_of(c, chain));
                }
                assert forall|m: nat| #[trigger] old(self).sub_occ_le(m) implies self.sub_occ_le(
                    m + 1,
                ) by {
                    old(self).lemma_sub_occ_le_mono(m, m + 1);
                }
            }
            return ;
        }
        let ghost v = dv[start as int];
        proof {
            assert(v == toks@[start as int]@);
            lemma_chain_from_step(dv, start as int);
        }
        let i = self.insert_or_bump(&toks[start]);
        let ghost s0 = *old(self);
        let ghost s1 = *self;
        let mut child = self.children.remove(i);
        let ghost c1 = child;
        proof {
            assert(c1 == s1.children@[i as int]);
            assert(c1.wf());
            if s0.has_child(v) {
                let co = s0.child(v);
                assert(co.sub_occ_le((usize::MAX - 1) as nat));
                co.lemma_sub_occ_same_children(c1, (usize::MAX - 1) as nat);
            } else {
                assert(c1.children@.len() == 0);
                assert(c1.sub_occ_le((usize::MAX - 1) as nat));
            }
        }
        child.insert_chain(toks, start + 1);
        self.children.insert(i, child);
        proof {
            let sf = *self;
            let chain2 = chain_from(dv, start as int + 1);
            assert(chain.skip(1) == chain2);
            assert(sf.children@ =~= s1.children@.update(i as int, child));

            // Well-formedness of the result.
            assert(child.value@ == v);
            assert forall|a: int, b: int| 0 <= a < b < sf.children@.len() implies (
            #[trigger] sf.children@[a]).value@ != (#[trigger] sf.children@[b]).value@ by {
                assert(s1.children@[a].value@ != s1.children@[b].value@);
                assert(sf.children@[a].value@ == s1.children@[a].value@);
                assert(sf.children@[b].value@ == s1.children@[b].value@);
            }
            assert(sf.wf());
            sf.lemma_child_at(i as int);
            assert(sf.child(v) == child);

            // The occurrence counts of exactly the chain's prefixes rose.
            assert forall|c: Seq<Seq<char>>| #[trigger] sf.occ(c) == s0.occ(c) + count_if(
                is_nonempty_prefix_of(c, chain),
            ) by {
                if c.len() == 0 {
                    assert(!is_nonempty_prefix_of(c, chain));
                    assert(sf.occ(c) == sf.occurrences);
                    assert(s0.occ(c) == s0.occurrences);
                } else {
                    let w = c[0];
                    let d = c.skip(1);
                    s0.lemma_occ_unfold(c);
                    sf.lemma_occ_unfold(c);
                    if w == v {
                        assert(sf.has_child(v));
                        assert(sf.occ(c) == child.occ(d));
                        assert(child.occ(d) == c1.occ(d) + count_if(
                            is_nonempty_prefix_of(d, chain2),
                        ));
                        if s0.has_child(v) {
                            let co = s0.child(v);
                            assert(s0.occ(c) == co.occ(d));
                            assert(c1.occurrences == co.occurrences + 1);
                            assert(c1.children@ == co.children@);
                            if d.len() == 0 {
                                assert(c1.occ(d) == c1.occurrences);
                                assert(co.occ(d) == co.occurrences);
                                assert(!is_nonempty_prefix_of(d, chain2));
                                assert(is_nonempty_prefix_of(c, chain));
                            } else {
                                co.lemma_occ_same_children(c1, d);
                                lemma_prefix_step(c, chain);
                            }
                        } else {
                            assert(s0.occ(c) == 0);
                            assert(c1.occurrences == 1);
                            assert(c1.children@.len() == 0);
                            if d.len() == 0 {
                                assert(c1.occ(d) == 1);
                                assert(!is_nonempty_prefix_of(d, chain2));
                                assert(is_nonempty_prefix_of(c, chain));
                            } else {
                                c1.lemma_occ_unfold(d);
                                assert(!c1.has_child(d[0]));
                                assert(c1.occ(d) == 0);
                                lemma_prefix_step(c, chain);
                            }
                        }
                    } else {
                        assert(!is_nonempty_prefix_of(c, chain));
                        if s0.has_child(w) {
                            let j = s0.child_ix(w);
                            assert(0 <= j < s0.children@.len() && s0.children@[j].value@ == w);
                            assert(j != i as int);
                            assert(sf.children@[j] == s0.children@[j]);
                            sf.lemma_child_at(j);
                            assert(sf.child(w) == s0.child(w));
                            assert(sf.occ(c) == sf.child(w).occ(d));
                            assert(s0.occ(c) == s0.child(w).occ(d));
                        } else {
                            assert forall|j: int| 0 <= j < sf.children@.len() implies (
                            #[trigger] sf.children@[j]).value@ != w by {
                                if j == i as int {
                                    assert(sf.children@[j].value@ == v);
                                } else {
                                    assert(sf.children@[j].value@ == s0.children@[j].value@);
                                }
                            }
                            assert(!sf.has_child(w));
                            assert(sf.occ(c) == 0);
                            assert(s0.occ(c) == 0);
                        }
                    }
                }
            }

            // Every bound on the counts below grows by at most one.
            assert forall|m: nat| #[trigger] s0.sub_occ_le(m) implies sf.sub_occ_le(m + 1) by {
                if s0.has_child(v) {
                    let co = s0.child(v);
                    assert(co.occurrences <= m);
                    co.lemma_sub_occ_same_children(c1, m);
                } else {
                    assert(c1.sub_occ_le(m));
                }
                assert(c1.sub_occ_le(m));
                assert(child.sub_occ_le(m + 1));
                assert(c1.occurrences <= m + 1);
                assert forall|j: int| 0 <= j < sf.children@.len() implies (
                #[trigger] sf.children@[j]).occurrences <= m + 1 && sf.children@[j].sub_occ_le(
                    m + 1,
                ) by {
                    if j == i as int {
                        assert(sf.children@[j] == child);
                        assert(child.occurrences == c1.occurrences);
                    } else {
                        assert(sf.children@[j] == s0.children@[j]);
                        assert(s0.children@[j].occurrences <= m);
                        s0.children@[j].lemma_sub_occ_le_mono(m, m + 1);
                    }
                }
                assert(sf.sub_occ_le(m + 1));
            }
        }
    }
}

} // verus!
