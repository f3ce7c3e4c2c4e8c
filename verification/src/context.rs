//! One trie rooted at a fixed token value. `create` starts it from a chain,
//! `add` folds one more chain in, and `find_possible_next` walks a prefix
//! and returns the most frequently observed continuation.

use vstd::prelude::*;
use crate::node::Token;
use crate::node::chain_from;
use crate::node::count_if;
use crate::node::is_nonempty_prefix_of;

verus! {

/// Error for operations that need at least one token.
#[derive(Debug, PartialEq, Eq, Structural)]
pub enum CreateError {
    EmptyInput,
}

/// The tokens of a chain after its first one; the first token names the
/// context and is not part of the inserted chain.
pub open spec fn rest_of(toks: Seq<Seq<char>>) -> Seq<Seq<char>> {
    if toks.len() == 0 {
        Seq::empty()
    } else {
        chain_from(toks, 1)
    }
}

/// The occurrence count at `b`, where `-1` stands for "no child yet" and
/// counts as zero.
pub open spec fn occ_at_ix(s: Seq<Token>, b: int) -> nat {
    if b == -1 {
        0nat
    } else {
        s[b].occurrences as nat
    }
}

/// The index of the predicted child among the first `j` children: the one
/// with the strictly greatest occurrence count, the earliest inserted on a
/// tie, or `-1` when no count beats zero.
pub open spec fn best_upto(s: Seq<Token>, j: int) -> int
    decreases j,
{
    if j <= 0 {
        -1
    } else {
        let b = best_upto(s, j - 1);
        if s[j - 1].occurrences > occ_at_ix(s, b) {
            j - 1
        } else {
            b
        }
    }
}

/// The index of the predicted child among all children.
pub open spec fn best_ix(s: Seq<Token>) -> int {
    best_upto(s, s.len() as int)
}

/// The predicted token value: the value of the predicted child, or the
/// empty-string sentinel when there is none.
pub open spec fn best_value(s: Seq<Token>) -> Seq<char> {
    if best_ix(s) == -1 {
        Seq::empty()
    } else {
        s[best_ix(s)].value@
    }
}

/// The prediction lies in range, beats no later child, and strictly beats
/// every earlier one; `-1` arises only when every count is zero.
pub proof fn lemma_best_upto_props(s: Seq<Token>, j: int)
    requires
        0 <= j <= s.len(),
    ensures
        -1 <= best_upto(s, j) < j,
        forall|k: int| 0 <= k < j ==> (#[trigger] s[k].occurrences) as nat <= occ_at_ix(
            s,
            best_upto(s, j),
        ),
        forall|k: int| 0 <= k < best_upto(s, j) ==> (#[trigger] s[k].occurrences) < s[best_upto(
            s,
            j,
        )].occurrences,
        best_upto(s, j) != -1 ==> s[best_upto(s, j)].occurrences >= 1,
    decreases j,
{
    if j > 0 {
        lemma_best_upto_props(s, j - 1);
    }
}

/// When one child's count strictly beats every other child's, the
/// prediction picks exactly that child.
pub proof fn lemma_strict_max_is_chosen(s: Seq<Token>, i: int)
    requires
        0 <= i < s.len(),
        s[i].occurrences >= 1,
        forall|k: int| 0 <= k < s.len() && k != i ==> (#[trigger] s[k].occurrences)
            < s[i].occurrences,
    ensures
        best_ix(s) == i,
        best_value(s) == s[i].value@,
{
    lemma_best_upto_props(s, s.len() as int);
    let b = best_ix(s);
    if b == -1 {
        assert(s[i].occurrences as nat <= occ_at_ix(s, -1));
    } else if b != i {
        assert(s[b].occurrences < s[i].occurrences);
        assert(s[i].occurrences as nat <= occ_at_ix(s, b));
    }
}

/// The root counts exactly `k` insertions of `chain` and nothing else.
pub open spec fn counts_chain_times(root: Token, chain: Seq<Seq<char>>, k: nat) -> bool {
    forall|p: Seq<Seq<char>>| #[trigger] root.occ(p) == k * count_if(
        is_nonempty_prefix_of(p, chain),
    )
}

/// A context fresh from `create` counts its chain once: every node along
/// the chain carries count one, and no other path carries any.
pub proof fn lemma_create_counts_once(ctx: Context, toks: Seq<Seq<char>>)
    requires
        forall|c: Seq<Seq<char>>| #[trigger] ctx.root.occ(c) == count_if(
            is_nonempty_prefix_of(c, rest_of(toks)),
        ),
    ensures
        counts_chain_times(ctx.root, rest_of(toks), 1),
{
}

/// Folding the same chain in once more raises the count on every node
/// along it from `k` to `k + 1` and leaves every other path untouched.
pub proof fn lemma_add_counts_again(pre: Context, post: Context, chain: Seq<Seq<char>>, k: nat)
    requires
        counts_chain_times(pre.root, chain, k),
        forall|c: Seq<Seq<char>>| #[trigger] post.root.occ(c) == pre.root.occ(c) + count_if(
            is_nonempty_prefix_of(c, chain),
        ),
    ensures
        counts_chain_times(post.root, chain, k + 1),
{
    assert forall|p: Seq<Seq<char>>| #[trigger] post.root.occ(p) == (k + 1) * count_if(
        is_nonempty_prefix_of(p, chain),
    ) by {
        if is_nonempty_prefix_of(p, chain) {
            assert(k * 1nat == k) by (nonlinear_arith);
            assert((k + 1) * 1nat == k + 1) by (nonlinear_arith);
        } else {
            assert(k * 0nat == 0nat) by (nonlinear_arith);
            assert((k + 1) * 0nat == 0nat) by (nonlinear_arith);
        }
    }
}

/// One trie rooted at a fixed token value. `depth` is the length of the
/// longest chain folded in so far.
pub struct Context {
    pub root: Token,
    pub depth: usize,
}

impl Context {
    /// Well-formed: the trie below the root is well-formed and the root's
    /// own count is unused and stays zero.
    pub open spec fn wf(self) -> bool {
        &&& self.root.wf()
        &&& self.root.occurrences == 0
    }

    /// An empty context rooted at `root`: no chain inserted yet.
    pub fn new(root: String) -> (r: Context)
        ensures
            r.wf(),
            r.root.value == root,
            r.root.children@.len() == 0,
            r.depth == 0,
            forall|c: Seq<Seq<char>>| c.len() > 0 ==> #[trigger] r.root.occ(c) == 0,
            r.root.sub_occ_le(0),
    {
        let t = Token { value: root, occurrences: 0, children: Vec::new() };
        proof {
            assert(t.wf());
            assert(t.sub_occ_le(0));
            assert forall|c: Seq<Seq<char>>| c.len() > 0 implies #[trigger] t.occ(c) == 0 by {
                t.lemma_occ_unfold(c);
                assert(!t.has_child(c[0]));
            }
        }
        Context { root: t, depth: 0 }
    }

    /// A context built from the suffix `tokens[start..]`: rooted at
    /// `tokens[start]`, with the following tokens inserted as one chain.
    pub(crate) fn create_from(tokens: &Vec<String>, start: usize) -> (r: Context)
        requires
            start < tokens@.len(),
        ensures
            r.wf(),
            r.root.value@ == tokens.deep_view()[start as int],
            r.depth == tokens@.len() - start - 1,
            forall|c: Seq<Seq<char>>| #[trigger] r.root.occ(c) == count_if(
                is_nonempty_prefix_of(c, chain_from(tokens.deep_view(), start as int + 1)),
            ),
            r.root.sub_occ_le(1),
    {
        let n = tokens.len();
        let mut ctx = Context::new(tokens[start].clone());
        proof {
            ctx.root.lemma_sub_occ_le_mono(0, (usize::MAX - 1) as nat);
        }
        ctx.root.insert_chain(tokens, start + 1);
        ctx.depth = n - start - 1;
        proof {
            assert(ctx.root.sub_occ_le(1));
            assert forall|c: Seq<Seq<char>>| #[trigger] ctx.root.occ(c) == count_if(
                is_nonempty_prefix_of(c, chain_from(tokens.deep_view(), start as int + 1)),
            ) by {
                if c.len() == 0 {
                    assert(!is_nonempty_prefix_of(
                        c,
                        chain_from(tokens.deep_view(), start as int + 1),
                    ));
                }
            }
        }
        ctx
    }

    /// Build a context from a whole token sequence: the first token becomes
    /// the root value, the remaining ones one chain. An empty sequence is
    /// refused.
    pub fn create(tokens: &Vec<String>) -> (r: Result<Context, CreateError>)
        ensures
            tokens@.len() == 0 <==> r is Err,
            r is Err ==> r->Err_0 == CreateError::EmptyInput,
            tokens@.len() > 0 ==> {
                let ctx = r->Ok_0;
                &&& r is Ok
                &&& ctx.wf()
                &&& ctx.root.value@ == tokens.deep_view()[0]
                &&& ctx.depth == tokens@.len() - 1
                &&& forall|c: Seq<Seq<char>>| #[trigger] ctx.root.occ(c) == count_if(
                    is_nonempty_prefix_of(c, rest_of(tokens.deep_view())),
                )
                &&& ctx.root.sub_occ_le(1)
            },
    {
        if tokens.len() == 0 {
            return Err(CreateError::EmptyInput);
        }
        Ok(Self::create_from(tokens, 0))
    }

    /// Fold the suffix chain `tokens[start + 1..]` into this context; the
    /// token at `start` is the root's and is discarded.
    pub(crate) fn add_from(&mut self, tokens: &Vec<String>, start: usize)
        requires
            old(self).wf(),
            start < tokens@.len(),
            old(self).root.sub_occ_le((usize::MAX - 1) as nat),
        ensures
            final(self).wf(),
            final(self).root.value == old(self).root.value,
            final(self).depth == vstd::math::max(
                old(self).depth as int,
                tokens@.len() - start - 1,
            ),
            forall|c: Seq<Seq<char>>| #[trigger] final(self).root.occ(c) == old(self).root.occ(c)
                + count_if(
                is_nonempty_prefix_of(c, chain_from(tokens.deep_view(), start as int + 1)),
            ),
            forall|m: nat| #[trigger] old(self).root.sub_occ_le(m) ==> final(self).root.sub_occ_le(
                m + 1,
            ),
    {
        let n = tokens.len();
        self.root.insert_chain(tokens, start + 1);
        let rest = n - start - 1;
        if rest > self.depth {
            self.depth = rest;
        }
    }

    /// Fold one more chain into this context. The first token of `tokens`
    /// is discarded — the caller passes a chain starting with the root's
    /// value — and the rest is inserted; `depth` becomes the length of the
    /// longest chain inserted so far.
    pub fn add(&mut self, tokens: &Vec<String>)
        requires
            old(self).wf(),
            old(self).root.sub_occ_le((usize::MAX - 1) as nat),
        ensures
            final(self).wf(),
            final(self).root.value == old(self).root.value,
            final(self).depth == vstd::math::max(
                old(self).depth as int,
                rest_of(tokens.deep_view()).len() as int,
            ),
            forall|c: Seq<Seq<char>>| #[trigger] final(self).root.occ(c) == old(self).root.occ(c)
                + count_if(is_nonempty_prefix_of(c, rest_of(tokens.deep_view()))),
            forall|m: nat| #[trigger] old(self).root.sub_occ_le(m) ==> final(self).root.sub_occ_le(
                m + 1,
            ),
    {
        if tokens.len() == 0 {
            proof {
                assert(rest_of(tokens.deep_view()).len() == 0);
                assert forall|c: Seq<Seq<char>>| #[trigger] self.root.occ(c) == old(
                    self,
                ).root.occ(c) + count_if(is_nonempty_prefix_of(c, rest_of(tokens.deep_view())))
                    by {
                    assert(!is_nonempty_prefix_of(c, rest_of(tokens.deep_view())));
                }
                assert forall|m: nat| #[trigger] old(self).root.sub_occ_le(m) implies self
                    .root.sub_occ_le(m + 1) by {
                    old(self).root.lemma_sub_occ_le_mono(m, m + 1);
                }
            }
            return ;
        }
        self.add_from(tokens, 0);
    }

    /// The direct child of `node` with the strictly greatest occurrence
    /// count; the earliest inserted wins a tie, and the empty-string
    /// sentinel stands for "no children".
    fn major_occurrences(node: &Token) -> (r: String)
        ensures
            r@ == best_value(node.children@),
    {
        let ghost s = node.children@;
        let n = node.children.len();
        let mut best: Option<usize> = None;
        let mut j: usize = 0;
        while j < n
            invariant
                n == s.len(),
                s == node.children@,
                j <= n,
                match best {
                    Option::None => best_upto(s, j as int) == -1,
                    Option::Some(b) => b < n && best_upto(s, j as int) == b as int,
                },
            decreases n - j,
        {
            let cur: usize = match best {
                Option::None => 0,
                Option::Some(b) => node.children[b].occurrences,
            };
            proof {
                assert(cur as nat == occ_at_ix(s, best_upto(s, j as int)));
            }
            if node.children[j].occurrences > cur {
                best = Some(j);
            }
            proof {
                assert(best_upto(s, j as int + 1) == if s[j as int].occurrences > occ_at_ix(
                    s,
                    best_upto(s, j as int),
                ) {
                    j as int
                } else {
                    best_upto(s, j as int)
                });
            }
            j += 1;
        }
        match best {
            Option::None => String::new(),
            Option::Some(b) => node.children[b].value.clone(),
        }
    }

    /// Walk the trie along `tokens` — the first token is the root's and is
    /// discarded — and predict the continuation: the value of the reached
    /// node's child with the strictly greatest occurrence count, earliest
    /// inserted on a tie. The empty-string sentinel signals "no
    /// prediction", both for a prefix with no matching path and for a node
    /// without children.
    pub fn find_possible_next(&self, tokens: &Vec<String>) -> (r: String)
        requires
            self.wf(),
        ensures
            match self.root.descend(rest_of(tokens.deep_view())) {
                Some(node) => r@ == best_value(node.children@),
                None => r@ == Seq::<char>::empty(),
            },
    {
        let ghost dv = tokens.deep_view();
        let ghost rest = rest_of(dv);
        if tokens.len() == 0 {
            proof {
                assert(rest.len() == 0);
                assert(self.root.descend(rest) == Some(self.root));
            }
            return Self::major_occurrences(&self.root);
        }
        let mut current: &Token = &self.root;
        let mut i: usize = 1;
        while i < tokens.len()
            invariant
                self.wf(),
                current.wf(),
                1 <= i <= tokens@.len(),
                dv == tokens.deep_view(),
                rest == rest_of(dv),
                rest.len() == tokens@.len() - 1,
                self.root.descend(rest.subrange(0, i - 1)) == Some(*current),
            decreases tokens@.len() - i,
        {
            let ghost w = rest[i - 1];
            proof {
                assert(w == dv[i as int]);
                assert(w == tokens@[i as int]@);
            }
            match current.get_child(&tokens[i]) {
                Some(c) => {
                    proof {
                        let pre = rest.subrange(0, i - 1);
                        let one = seq![w];
                        assert(rest.subrange(0, i as int) =~= pre + one);
                        self.root.lemma_descend_append(pre, one);
                        assert(one.len() == 1 && one[0] == w);
                        assert(current.has_child(w));
                        assert(one.skip(1) =~= Seq::<Seq<char>>::empty());
                        assert(current.child(w).descend(one.skip(1)) == Some(current.child(w)));
                        assert(current.descend(one) == Some(current.child(w)));
                        let ix = current.child_ix(w);
                        assert(current.children@[ix].wf());
                        assert(self.root.descend(rest.subrange(0, i as int)) == Some(*c));
                    }
                    current = c;
                }
                None => {
                    proof {
                        let pre = rest.subrange(0, i - 1);
                        let post = rest.subrange(i - 1, rest.len() as int);
                        assert(rest =~= pre + post);
                        self.root.lemma_descend_append(pre, post);
                        assert(post.len() > 0 && post[0] == w);
                        assert(current.descend(post) is None);
                    }
                    return String::new();
                },
            }
            i += 1;
        }
        proof {
            assert(rest.subrange(0, i - 1) =~= rest);
        }
        Self::major_occurrences(current)
    }
}

} // verus!
