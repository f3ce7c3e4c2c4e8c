//! The pool of contexts: one `Context` per distinct token value that starts
//! a suffix of the training sequence. Built once by inserting every suffix,
//! read-only afterwards.

use vstd::prelude::*;
use crate::node::chain_from;
use crate::node::count_if;
use crate::node::is_nonempty_prefix_of;
use crate::context::Context;
use crate::context::CreateError;

verus! {

/// How many of the first `s` suffixes of `toks` start with `key` and then
/// carry `c` as a non-empty prefix of their remainder.
pub open spec fn suffix_occ_upto(
    toks: Seq<Seq<char>>,
    key: Seq<char>,
    c: Seq<Seq<char>>,
    s: int,
) -> nat
    decreases s,
{
    if s <= 0 {
        0nat
    } else {
        suffix_occ_upto(toks, key, c, s - 1) + count_if(
            toks[s - 1] == key && is_nonempty_prefix_of(c, chain_from(toks, s)),
        )
    }
}

/// How many suffixes of `toks` start with `key` and then carry `c` as a
/// non-empty prefix of their remainder: the occurrence count that the
/// finished pool assigns to the path `c` in the context keyed `key`.
pub open spec fn suffix_occurrences(toks: Seq<Seq<char>>, key: Seq<char>, c: Seq<Seq<char>>) -> nat {
    suffix_occ_upto(toks, key, c, toks.len() as int)
}

/// The position of the first suffix of `toks` that starts with `key`; the
/// longest chain folded into the context keyed `key` starts there.
pub open spec fn first_start(toks: Seq<Seq<char>>, key: Seq<char>) -> int
    decreases toks.len(),
{
    if toks.len() == 0 {
        0
    } else if toks[0] == key {
        0
    } else {
        1 + first_start(toks.skip(1), key)
    }
}

/// `first_start` lies at or before every position carrying `key`, and
/// itself carries `key`.
pub proof fn lemma_first_start_le(toks: Seq<Seq<char>>, key: Seq<char>, t: int)
    requires
        0 <= t < toks.len(),
        toks[t] == key,
    ensures
        0 <= first_start(toks, key) <= t,
        toks[first_start(toks, key)] == key,
    decreases t,
{
    if toks[0] == key {
    } else {
        assert(toks.skip(1)[t - 1] == toks[t]);
        lemma_first_start_le(toks.skip(1), key, t - 1);
        let f = first_start(toks.skip(1), key);
        assert(toks.skip(1)[f] == toks[f + 1]);
    }
}

/// Where no earlier position carries `key`, `first_start` is exactly the
/// position at hand.
pub proof fn lemma_first_start_at(toks: Seq<Seq<char>>, key: Seq<char>, s: int)
    requires
        0 <= s < toks.len(),
        toks[s] == key,
        forall|u: int| 0 <= u < s ==> toks[u] != key,
    ensures
        first_start(toks, key) == s,
    decreases s,
{
    if s == 0 {
    } else {
        assert(toks.skip(1)[s - 1] == toks[s]);
        assert forall|u: int| 0 <= u < s - 1 implies toks.skip(1)[u] != key by {
            assert(toks.skip(1)[u] == toks[u + 1]);
        }
        lemma_first_start_at(toks.skip(1), key, s - 1);
    }
}

/// Before the first suffix keyed `key` is reached, its count is zero.
pub proof fn lemma_suffix_occ_absent(toks: Seq<Seq<char>>, key: Seq<char>, c: Seq<Seq<char>>, s: int)
    requires
        0 <= s <= toks.len(),
        forall|t: int| 0 <= t < s ==> toks[t] != key,
    ensures
        suffix_occ_upto(toks, key, c, s) == 0,
    decreases s,
{
    if s > 0 {
        lemma_suffix_occ_absent(toks, key, c, s - 1);
    }
}

/// The pool: a set of contexts with pairwise distinct root values, each
/// keyed by its own root's value.
pub struct PoolContexts {
    pub contexts: Vec<Context>,
}

impl PoolContexts {
    /// Whether some context is keyed `k`.
    pub open spec fn spec_has(self, k: Seq<char>) -> bool {
        exists|i: int| 0 <= i < self.contexts@.len() && self.contexts@[i].root.value@ == k
    }

    /// The index of the context keyed `k` (meaningful only when unique).
    pub open spec fn spec_ix(self, k: Seq<char>) -> int {
        choose|i: int| 0 <= i < self.contexts@.len() && self.contexts@[i].root.value@ == k
    }

    /// The context keyed `k`.
    pub open spec fn spec_get(self, k: Seq<char>) -> Context {
        self.contexts@[self.spec_ix(k)]
    }

    /// Well-formed: keys are pairwise distinct and every context is.
    pub open spec fn wf(self) -> bool {
        &&& forall|i: int, j: int|
            0 <= i < j < self.contexts@.len() ==> (#[trigger] self.contexts@[i]).root.value@ != (
            #[trigger] self.contexts@[j]).root.value@
        &&& forall|i: int| 0 <= i < self.contexts@.len() ==> (#[trigger] self.contexts@[i]).wf()
    }

    /// In a well-formed pool the lookup is pinned: the context found at
    /// index `i` is the one that `spec_ix` and `spec_get` denote.
    pub proof fn lemma_ctx_at(self, i: int)
        requires
            self.wf(),
            0 <= i < self.contexts@.len(),
        ensures
            self.spec_has(self.contexts@[i].root.value@),
            self.spec_ix(self.contexts@[i].root.value@) == i,
            self.spec_get(self.contexts@[i].root.value@) == self.contexts@[i],
    {
        let k = self.contexts@[i].root.value@;
        assert(self.spec_has(k));
        let j = self.spec_ix(k);
        if j != i {
            if j < i {
                assert(self.contexts@[j].root.value@ != self.contexts@[i].root.value@);
            } else {
                assert(self.contexts@[i].root.value@ != self.contexts@[j].root.value@);
            }
        }
    }

    /// An empty pool.
    pub fn new() -> (r: PoolContexts)
        ensures
            r.wf(),
            r.contexts@.len() == 0,
            forall|k: Seq<char>| !r.spec_has(k),
    {
        PoolContexts { contexts: Vec::new() }
    }

    /// The index of the context keyed `key`, or `None` when no context is.
    fn find_ix(&self, key: &String) -> (r: Option<usize>)
        requires
            self.wf(),
        ensures
            match r {
                Some(i) => self.spec_has(key@) && i as int == self.spec_ix(key@),
                None => !self.spec_has(key@),
            },
    {
        let n = self.contexts.len();
        let mut i: usize = 0;
        while i < n
            invariant
                n == self.contexts@.len(),
                i <= n,
                self.wf(),
                forall|j: int|
                    0 <= j < i ==> (#[trigger] self.contexts@[j]).root.value@ != key@,
            decreases n - i,
        {
            if self.contexts[i].root.value == *key {
                proof {
                    self.lemma_ctx_at(i as int);
                }
                return Some(i);
            }
            i += 1;
        }
        None
    }

    /// The context keyed `key`, or `None` when no context is.
    pub fn get<'a>(&'a self, key: &String) -> (r: Option<&'a Context>)
        requires
            self.wf(),
        ensures
            match r {
                Some(c) => self.spec_has(key@) && *c == self.spec_get(key@),
                None => !self.spec_has(key@),
            },
    {
        match self.find_ix(key) {
            Some(i) => Some(&self.contexts[i]),
            None => None,
        }
    }

    /// Build the pool from a whole token sequence: every suffix of the
    /// sequence contributes one chain to the context keyed by the suffix's
    /// first token. An empty sequence is refused. Afterwards the context
    /// keyed `k` counts, on each path `c`, exactly the suffixes that start
    /// with `k` and continue with `c`.
    pub fn create_pool(tokens: &Vec<String>) -> (r: Result<PoolContexts, CreateError>)
        ensures
            tokens@.len() == 0 <==> r is Err,
            r is Err ==> r->Err_0 == CreateError::EmptyInput,
            tokens@.len() > 0 ==> {
                let pool = r->Ok_0;
                &&& r is Ok
                &&& pool.wf()
                &&& forall|k: Seq<char>| #[trigger] pool.spec_has(k) <==> tokens.deep_view().contains(k)
                &&& forall|k: Seq<char>, c: Seq<Seq<char>>| pool.spec_has(k)
                    ==> #[trigger] pool.spec_get(k).root.occ(c) == suffix_occurrences(
                    tokens.deep_view(),
                    k,
                    c,
                )
                &&& forall|k: Seq<char>| #[trigger] pool.spec_has(k) ==> pool.spec_get(k).depth
                    == tokens.deep_view().len() - 1 - first_start(tokens.deep_view(), k)
            },
    {
        let ghost dv = tokens.deep_view();
        let n = tokens.len();
        if n == 0 {
            return Err(CreateError::EmptyInput);
        }
        let mut pool = PoolContexts::new();
        let mut s: usize = 0;
        while s < n
            invariant
                n == tokens@.len(),
                dv == tokens.deep_view(),
                s <= n,
                pool.wf(),
                forall|k: Seq<char>| #[trigger] pool.spec_has(k) <==> exists|t: int|
                    0 <= t < s && dv[t] == k,
                forall|k: Seq<char>, c: Seq<Seq<char>>| pool.spec_has(k)
                    ==> #[trigger] pool.spec_get(k).root.occ(c) == suffix_occ_upto(
                    dv,
                    k,
                    c,
                    s as int,
                ),
                forall|k: Seq<char>| #[trigger] pool.spec_has(k) ==> pool.spec_get(k).depth == n
                    - 1 - first_start(dv, k),
                forall|i: int| 0 <= i < pool.contexts@.len() ==> (
                #[trigger] pool.contexts@[i]).root.sub_occ_le(s as nat),
            decreases n - s,
        {
            let ghost key = dv[s as int];
            let ghost pre = pool;
            proof {
                assert(key == tokens@[s as int]@);
            }
            match pool.find_ix(&tokens[s]) {
                Some(ix) => {
                    let mut ctx = pool.contexts.remove(ix);
                    proof {
                        pre.lemma_ctx_at(ix as int);
                        assert(ctx.wf());
                        assert(ctx.root.sub_occ_le(s as nat));
                        ctx.root.lemma_sub_occ_le_mono(s as nat, (usize::MAX - 1) as nat);
                    }
                    let ghost cpre = ctx;
                    ctx.add_from(tokens, s);
                    pool.contexts.insert(ix, ctx);
                    proof {
                        assert(pool.contexts@ =~= pre.contexts@.update(ix as int, ctx));
                        assert(ctx.root.value@ == key);
                        Self::lemma_pool_step_update(pre, pool, dv, s as int, ix as int, cpre, ctx);
                    }
                },
                None => {
                    let ctx = Context::create_from(tokens, s);
                    pool.contexts.push(ctx);
                    proof {
                        assert(pool.contexts@ =~= pre.contexts@.push(ctx));
                        assert(ctx.root.value@ == key);
                        Self::lemma_pool_step_push(pre, pool, dv, s as int, ctx);
                    }
                },
            }
            s += 1;
        }
        proof {
            assert forall|k: Seq<char>| #[trigger] pool.spec_has(k) <==> dv.contains(k) by {
                if dv.contains(k) {
                    let t = choose|t: int| 0 <= t < dv.len() && dv[t] == k;
                    assert(0 <= t < n && dv[t] == k);
                }
            }
        }
        Ok(pool)
    }

    /// One pool-building step that folds a suffix into the existing
    /// context at `ix` keeps every invariant of the loop.
    proof fn lemma_pool_step_update(
        pre: PoolContexts,
        post: PoolContexts,
        dv: Seq<Seq<char>>,
        s: int,
        ix: int,
        cpre: Context,
        cpost: Context,
    )
        requires
            pre.wf(),
            0 <= s < dv.len(),
            0 <= ix < pre.contexts@.len(),
            cpre == pre.contexts@[ix],
            cpre.root.value@ == dv[s],
            cpost.wf(),
            cpost.root.value == cpre.root.value,
            cpost.depth == vstd::math::max(cpre.depth as int, dv.len() - s - 1),
            forall|c: Seq<Seq<char>>| #[trigger] cpost.root.occ(c) == cpre.root.occ(c) + count_if(
                is_nonempty_prefix_of(c, chain_from(dv, s + 1)),
            ),
            forall|m: nat| #[trigger] cpre.root.sub_occ_le(m) ==> cpost.root.sub_occ_le(m + 1),
            post.contexts@ == pre.contexts@.update(ix, cpost),
            forall|k: Seq<char>| #[trigger] pre.spec_has(k) <==> exists|t: int|
                0 <= t < s && dv[t] == k,
            forall|k: Seq<char>, c: Seq<Seq<char>>| pre.spec_has(k)
                ==> #[trigger] pre.spec_get(k).root.occ(c) == suffix_occ_upto(dv, k, c, s),
            forall|k: Seq<char>| #[trigger] pre.spec_has(k) ==> pre.spec_get(k).depth == dv.len()
                - 1 - first_start(dv, k),
            forall|i: int| 0 <= i < pre.contexts@.len() ==> (
            #[trigger] pre.contexts@[i]).root.sub_occ_le(s as nat),
        ensures
            post.wf(),
            forall|k: Seq<char>| #[trigger] post.spec_has(k) <==> exists|t: int|
                0 <= t < s + 1 && dv[t] == k,
            forall|k: Seq<char>, c: Seq<Seq<char>>| post.spec_has(k)
                ==> #[trigger] post.spec_get(k).root.occ(c) == suffix_occ_upto(dv, k, c, s + 1),
            forall|k: Seq<char>| #[trigger] post.spec_has(k) ==> post.spec_get(k).depth == dv.len()
                - 1 - first_start(dv, k),
            forall|i: int| 0 <= i < post.contexts@.len() ==> (
            #[trigger] post.contexts@[i]).root.sub_occ_le((s + 1) as nat),
    {
        let key = dv[s];
        assert forall|a: int, b: int| 0 <= a < b < post.contexts@.len() implies (
        #[trigger] post.contexts@[a]).root.value@ != (#[trigger] post.contexts@[b]).root.value@ by {
            assert(pre.contexts@[a].root.value@ != pre.contexts@[b].root.value@);
        }
        assert(post.wf());

        // Key membership is unchanged: the key at `s` was already present.
        assert forall|k: Seq<char>| #[trigger] post.spec_has(k) <==> exists|t: int|
            0 <= t < s + 1 && dv[t] == k by {
            assert(forall|i: int|
                0 <= i < post.contexts@.len() ==> (#[trigger] post.contexts@[i]).root.value@ == pre.contexts@[i].root.value@);
            if post.spec_has(k) {
                let i = post.spec_ix(k);
                assert(pre.contexts@[i].root.value@ == k);
                assert(pre.spec_has(k));
                let t = choose|t: int| 0 <= t < s && dv[t] == k;
                assert(0 <= t < s + 1 && dv[t] == k);
            }
            if exists|t: int| 0 <= t < s + 1 && dv[t] == k {
                let t = choose|t: int| 0 <= t < s + 1 && dv[t] == k;
                if t < s {
                    assert(pre.spec_has(k));
                    let i = pre.spec_ix(k);
                    assert(post.contexts@[i].root.value@ == k);
                    assert(post.spec_has(k));
                } else {
                    assert(k == key);
                    assert(post.contexts@[ix].root.value@ == key);
                    assert(post.spec_has(k));
                }
            }
        }

        // Counts: the context at `ix` gained this suffix's contribution,
        // every other context gained nothing.
        assert forall|k: Seq<char>, c: Seq<Seq<char>>| post.spec_has(k) implies
            #[trigger] post.spec_get(k).root.occ(c) == suffix_occ_upto(dv, k, c, s + 1) by {
            let i = post.spec_ix(k);
            assert(0 <= i < post.contexts@.len() && post.contexts@[i].root.value@ == k);
            post.lemma_ctx_at(i);
            assert(pre.contexts@[i].root.value@ == k);
            pre.lemma_ctx_at(i);
            assert(pre.spec_has(k));
            assert(pre.spec_get(k) == pre.contexts@[i]);
            assert(pre.contexts@[i].root.occ(c) == suffix_occ_upto(dv, k, c, s));
            if i == ix {
                assert(k == key);
                assert(post.spec_get(k) == cpost);
                assert(cpost.root.occ(c) == suffix_occ_upto(dv, k, c, s) + count_if(
                    is_nonempty_prefix_of(c, chain_from(dv, s + 1)),
                ));
                assert(suffix_occ_upto(dv, k, c, s + 1) == suffix_occ_upto(dv, k, c, s)
                    + count_if(dv[s] == k && is_nonempty_prefix_of(c, chain_from(dv, s + 1))));
            } else {
                assert(k != key);
                assert(post.spec_get(k) == pre.contexts@[i]);
                assert(suffix_occ_upto(dv, k, c, s + 1) == suffix_occ_upto(dv, k, c, s)
                    + count_if(dv[s] == k && is_nonempty_prefix_of(c, chain_from(dv, s + 1))));
            }
        }

        // Depths: the folded-in chain is shorter than the first one was.
        assert forall|k: Seq<char>| #[trigger] post.spec_has(k) implies post.spec_get(k).depth
            == dv.len() - 1 - first_start(dv, k) by {
            let i = post.spec_ix(k);
            assert(0 <= i < post.contexts@.len() && post.contexts@[i].root.value@ == k);
            post.lemma_ctx_at(i);
            assert(pre.contexts@[i].root.value@ == k);
            pre.lemma_ctx_at(i);
            assert(pre.spec_has(k));
            assert(pre.spec_get(k) == pre.contexts@[i]);
            if i == ix {
                assert(k == key);
                assert(cpre.depth == dv.len() - 1 - first_start(dv, k));
                let t = choose|t: int| 0 <= t < s && dv[t] == k;
                lemma_first_start_le(dv, k, t);
                assert(first_start(dv, k) <= t < s);
                assert(post.spec_get(k) == cpost);
            } else {
                assert(post.spec_get(k) == pre.contexts@[i]);
            }
        }

        // Bounds: each count below a root rose by at most one.
        assert forall|i: int| 0 <= i < post.contexts@.len() implies (
        #[trigger] post.contexts@[i]).root.sub_occ_le((s + 1) as nat) by {
            if i == ix {
                assert(cpre.root.sub_occ_le(s as nat));
            } else {
                assert(post.contexts@[i] == pre.contexts@[i]);
                pre.contexts@[i].root.lemma_sub_occ_le_mono(s as nat, (s + 1) as nat);
            }
        }
    }

    /// One pool-building step that opens a new context keeps every
    /// invariant of the loop.
    proof fn lemma_pool_step_push(
        pre: PoolContexts,
        post: PoolContexts,
        dv: Seq<Seq<char>>,
        s: int,
        ctx: Context,
    )
        requires
            pre.wf(),
            0 <= s < dv.len(),
            !pre.spec_has(dv[s]),
            ctx.wf(),
            ctx.root.value@ == dv[s],
            ctx.depth == dv.len() - s - 1,
            forall|c: Seq<Seq<char>>| #[trigger] ctx.root.occ(c) == count_if(
                is_nonempty_prefix_of(c, chain_from(dv, s + 1)),
            ),
            ctx.root.sub_occ_le(1),
            post.contexts@ == pre.contexts@.push(ctx),
            forall|k: Seq<char>| #[trigger] pre.spec_has(k) <==> exists|t: int|
                0 <= t < s && dv[t] == k,
            forall|k: Seq<char>, c: Seq<Seq<char>>| pre.spec_has(k)
                ==> #[trigger] pre.spec_get(k).root.occ(c) == suffix_occ_upto(dv, k, c, s),
            forall|k: Seq<char>| #[trigger] pre.spec_has(k) ==> pre.spec_get(k).depth == dv.len()
                - 1 - first_start(dv, k),
            forall|i: int| 0 <= i < pre.contexts@.len() ==> (
            #[trigger] pre.contexts@[i]).root.sub_occ_le(s as nat),
        ensures
            post.wf(),
            forall|k: Seq<char>| #[trigger] post.spec_has(k) <==> exists|t: int|
                0 <= t < s + 1 && dv[t] == k,
            forall|k: Seq<char>, c: Seq<Seq<char>>| post.spec_has(k)
                ==> #[trigger] post.spec_get(k).root.occ(c) == suffix_occ_upto(dv, k, c, s + 1),
            forall|k: Seq<char>| #[trigger] post.spec_has(k) ==> post.spec_get(k).depth == dv.len()
                - 1 - first_start(dv, k),
            forall|i: int| 0 <= i < post.contexts@.len() ==> (
            #[trigger] post.contexts@[i]).root.sub_occ_le((s + 1) as nat),
    {
        let key = dv[s];
        let m = pre.contexts@.len() as int;
        assert forall|a: int, b: int| 0 <= a < b < post.contexts@.len() implies (
        #[trigger] post.contexts@[a]).root.value@ != (#[trigger] post.contexts@[b]).root.value@ by {
            if b < m {
                assert(pre.contexts@[a].root.value@ != pre.contexts@[b].root.value@);
            } else {
                assert(post.contexts@[b] == ctx);
                assert(pre.contexts@[a].root.value@ != key) by {
                    if pre.contexts@[a].root.value@ == key {
                        assert(pre.spec_has(key));
                    }
                }
            }
        }
        assert(post.wf());

        assert forall|k: Seq<char>| #[trigger] post.spec_has(k) <==> exists|t: int|
            0 <= t < s + 1 && dv[t] == k by {
            if post.spec_has(k) {
                let i = post.spec_ix(k);
                if i < m {
                    assert(pre.spec_has(k));
                    let t = choose|t: int| 0 <= t < s && dv[t] == k;
                    assert(0 <= t < s + 1 && dv[t] == k);
                } else {
                    assert(k == key);
                    assert(0 <= s < s + 1 && dv[s] == k);
                }
            }
            if exists|t: int| 0 <= t < s + 1 && dv[t] == k {
                let t = choose|t: int| 0 <= t < s + 1 && dv[t] == k;
                if t < s {
                    assert(pre.spec_has(k));
                    let i = pre.spec_ix(k);
                    assert(post.contexts@[i].root.value@ == k);
                    assert(post.spec_has(k));
                } else {
                    assert(post.contexts@[m].root.value@ == k);
                    assert(post.spec_has(k));
                }
            }
        }

        assert forall|k: Seq<char>, c: Seq<Seq<char>>| post.spec_has(k) implies
            #[trigger] post.spec_get(k).root.occ(c) == suffix_occ_upto(dv, k, c, s + 1) by {
            let i = post.spec_ix(k);
            assert(0 <= i < post.contexts@.len() && post.contexts@[i].root.value@ == k);
            post.lemma_ctx_at(i);
            if i < m {
                assert(pre.contexts@[i].root.value@ == k);
                pre.lemma_ctx_at(i);
                assert(pre.spec_get(k) == pre.contexts@[i]);
                assert(pre.contexts@[i].root.occ(c) == suffix_occ_upto(dv, k, c, s));
                assert(k != key) by {
                    if k == key {
                        assert(pre.spec_has(key));
                    }
                }
                assert(post.spec_get(k) == pre.contexts@[i]);
                assert(suffix_occ_upto(dv, k, c, s + 1) == suffix_occ_upto(dv, k, c, s)
                    + count_if(dv[s] == k && is_nonempty_prefix_of(c, chain_from(dv, s + 1))));
            } else {
                assert(k == key);
                assert(post.spec_get(k) == ctx);
                assert(!pre.spec_has(key));
                assert forall|t: int| 0 <= t < s implies dv[t] != key by {
                    if dv[t] == key {
                        assert(pre.spec_has(key));
                    }
                }
                lemma_suffix_occ_absent(dv, key, c, s);
                assert(suffix_occ_upto(dv, k, c, s + 1) == suffix_occ_upto(dv, k, c, s)
                    + count_if(dv[s] == k && is_nonempty_prefix_of(c, chain_from(dv, s + 1))));
            }
        }

        assert forall|k: Seq<char>| #[trigger] post.spec_has(k) implies post.spec_get(k).depth
            == dv.len() - 1 - first_start(dv, k) by {
            let i = post.spec_ix(k);
            assert(0 <= i < post.contexts@.len() && post.contexts@[i].root.value@ == k);
            post.lemma_ctx_at(i);
            if i < m {
                assert(pre.contexts@[i].root.value@ == k);
                pre.lemma_ctx_at(i);
                assert(pre.spec_has(k));
                assert(post.spec_get(k) == pre.spec_get(k));
            } else {
                assert(k == key);
                assert(post.spec_get(k) == ctx);
                assert forall|u: int| 0 <= u < s implies dv[u] != key by {
                    if dv[u] == key {
                        assert(pre.spec_has(key));
                    }
                }
                lemma_first_start_at(dv, key, s);
            }
        }

        assert forall|i: int| 0 <= i < post.contexts@.len() implies (
        #[trigger] post.contexts@[i]).root.sub_occ_le((s + 1) as nat) by {
            if i < m {
                pre.contexts@[i].root.lemma_sub_occ_le_mono(s as nat, (s + 1) as nat);
            } else {
                assert(post.contexts@[i] == ctx);
                ctx.root.lemma_sub_occ_le_mono(1, (s + 1) as nat);
            }
        }
    }
}

} // verus!
