//! The chain itself: the node store, the interning registry, and the
//! line-ingestion algorithm that threads start -> word ... word -> end
//! through the graph.

use crate::edges::contains_target;
use crate::edges::lemma_entry_wt;
use crate::edges::lemma_wt_absent;
use crate::edges::lemma_wt_le_total;
use crate::edges::total;
use crate::edges::wt;
use crate::edges::MarkovConns;
use crate::registry::dash_contents;
use crate::registry::dash_get;
use crate::registry::dash_intern;
use crate::registry::dash_new;
use crate::text::tokenize;
use crate::text::tokens_of;
use crate::token::MarkovToken;
use crate::token::Tok;
use vstd::prelude::*;

verus! {

/// The node index of the start sentinel.
pub const ROOT_ID: usize = 0;

/// The node index of the end sentinel.
pub const END_ID: usize = 1;

/// One vertex of the chain: its identity token and its outgoing edges.
pub struct MarkovNode {
    pub value: MarkovToken,
    pub conns: MarkovConns,
}

impl MarkovNode {
    /// A fresh node with no outgoing transitions.
    pub fn new(token: MarkovToken) -> (r: Self)
        ensures
            r.value == token,
            r.conns@ == Seq::<(usize, u32)>::empty(),
            r.conns.wf(),
            !r.conns.is_frozen(),
    {
        MarkovNode { value: token, conns: MarkovConns::empty() }
    }
}

/// The whole chain: every node ever created, indexed by node id, and the
/// registry interning word text to node id. Index 0 is the start sentinel,
/// index 1 the end sentinel; every later node is a word.
pub struct MarkovAllNodes {
    nodes: Vec<MarkovNode>,
    words: dashmap::DashMap<String, usize>,
}

impl MarkovAllNodes {
    /// Number of nodes created so far.
    pub closed spec fn n_nodes(self) -> int {
        self.nodes@.len() as int
    }

    /// The token of node `i`.
    pub closed spec fn tok(self, i: int) -> Tok {
        self.nodes@[i].value@
    }

    /// The outgoing edge list of node `i`, in first-insertion order.
    pub closed spec fn edges(self, i: int) -> Seq<(usize, u32)> {
        self.nodes@[i].conns@
    }

    /// The interned word -> node-id mapping.
    pub closed spec fn registry(self) -> Map<Seq<char>, usize> {
        dash_contents(self.words)
    }

    /// Whether node `i`'s edge set has been frozen for sampling.
    pub closed spec fn node_frozen(self, i: int) -> bool {
        self.nodes@[i].conns.is_frozen()
    }

    /// Well-formedness of node `i`'s edge set.
    pub closed spec fn conns_wf(self, i: int) -> bool {
        self.nodes@[i].conns.wf()
    }

    /// No edge set is frozen yet: the chain is in its construction phase.
    pub open spec fn all_unfrozen(self) -> bool {
        forall|i: int| 0 <= i < self.n_nodes() ==> !#[trigger] self.node_frozen(i)
    }

    /// Every edge set is frozen: the chain is ready for sampling.
    pub open spec fn all_frozen(self) -> bool {
        forall|i: int| 0 <= i < self.n_nodes() ==> #[trigger] self.node_frozen(i)
    }

    /// The node id a token resolves to, or -1 for a word never interned.
    pub open spec fn id_of(self, a: Tok) -> int {
        match a {
            Tok::Root => 0,
            Tok::End => 1,
            Tok::Value(w) => if self.registry().contains_key(w) {
                self.registry()[w] as int
            } else {
                -1
            },
        }
    }

    /// Whether a token names a node of this chain.
    pub open spec fn has_tok(self, a: Tok) -> bool {
        0 <= self.id_of(a) < self.n_nodes()
    }

    /// Transition weight from node `s` to node `t`, by id.
    pub open spec fn weight(self, s: int, t: usize) -> nat {
        if 0 <= s < self.n_nodes() {
            wt(self.edges(s), t)
        } else {
            0
        }
    }

    /// Transition weight between two tokens: the number of times the
    /// transition was recorded, 0 for tokens the chain does not hold.
    pub open spec fn weight_tok(self, a: Tok, b: Tok) -> nat {
        if self.has_tok(a) && self.has_tok(b) {
            self.weight(self.id_of(a), self.id_of(b) as usize)
        } else {
            0
        }
    }

    /// Total outgoing weight of the node a token resolves to.
    pub open spec fn tok_total(self, a: Tok) -> nat {
        if self.has_tok(a) {
            total(self.edges(self.id_of(a)))
        } else {
            0
        }
    }

    /// Structural invariant: sentinels at indices 0 and 1; every other node
    /// is a word; the registry and the word nodes are in bijection; every
    /// edge set is well-formed and points inside the node store; the end
    /// sentinel has no outgoing edges.
    pub open spec fn wf0(self) -> bool {
        &&& self.n_nodes() >= 2
        &&& self.tok(0) == Tok::Root
        &&& self.tok(1) == Tok::End
        &&& forall|i: int| 2 <= i < self.n_nodes() ==> (#[trigger] self.tok(i)) is Value
        &&& forall|w: Seq<char>|
            #[trigger] self.registry().contains_key(w) ==> 2 <= self.registry()[w]
                < self.n_nodes() && self.tok(self.registry()[w] as int) == Tok::Value(w)
        &&& forall|i: int|
            2 <= i < self.n_nodes() ==> self.registry().contains_key(
                (#[trigger] self.tok(i))->Value_0,
            ) && self.registry()[self.tok(i)->Value_0] == i as usize
        &&& forall|i: int| 0 <= i < self.n_nodes() ==> #[trigger] self.conns_wf(i)
        &&& forall|i: int, k: int|
            0 <= i < self.n_nodes() && 0 <= k < self.edges(i).len() ==> (
            #[trigger] self.edges(i)[k]).0 < self.n_nodes()
        &&& self.edges(1).len() == 0
    }

    /// Every node some edge reaches either is the end sentinel or has an
    /// outgoing edge of its own, except possibly the node `cur` (used while a
    /// line is in mid-thread; `cur == -1` names no node, so the graph is
    /// fully closed).
    pub open spec fn closed_except(self, cur: int) -> bool {
        forall|i: int, k: int|
            0 <= i < self.n_nodes() && 0 <= k < self.edges(i).len() ==> ((
            #[trigger] self.edges(i)[k]).0 == 1 || self.edges(self.edges(i)[k].0 as int).len()
                > 0 || self.edges(i)[k].0 as int == cur)
    }

    /// Every node some edge reaches can continue: a walk only stops at the
    /// end sentinel.
    pub open spec fn closed_graph(self) -> bool {
        self.closed_except(-1)
    }

    /// Chain invariant: the structural invariant, and a fully closed graph,
    /// so a walk can always continue until it samples the end sentinel.
    pub open spec fn wf(self) -> bool {
        self.wf0() && self.closed_graph()
    }

    /// A fresh chain: just the two sentinels, no words, no transitions.
    pub fn new() -> (r: Self)
        ensures
            r.wf(),
            r.all_unfrozen(),
            r.n_nodes() == 2,
            r.registry() == Map::<Seq<char>, usize>::empty(),
            r.edges(0).len() == 0,
            forall|a: Tok, b: Tok| r.weight_tok(a, b) == 0,
            forall|a: Tok| r.tok_total(a) == 0,
            r.ends_reachable(),
    {
        let mut nodes: Vec<MarkovNode> = Vec::new();
        nodes.push(MarkovNode::new(MarkovToken::Root));
        nodes.push(MarkovNode::new(MarkovToken::End));
        let words = dash_new();
        let r = MarkovAllNodes { nodes, words };
        proof {
            assert forall|a: Tok, b: Tok| r.weight_tok(a, b) == 0 by {
                if r.has_tok(a) && r.has_tok(b) {
                    lemma_wt_absent(r.edges(r.id_of(a)), r.id_of(b) as usize);
                }
            }
            assert forall|a: Tok| r.tok_total(a) == 0 by {
                if r.has_tok(a) {
                    assert(r.edges(r.id_of(a)).len() == 0);
                }
            }
        }
        r
    }

    /// Returns the interned node id for `word`, creating and registering a
    /// fresh word node on first sight. Existing nodes, edges, and weights are
    /// untouched either way.
    pub fn node(&mut self, word: &str) -> (id: usize)
        requires
            old(self).wf0(),
            old(self).all_unfrozen(),
        ensures
            final(self).wf0(),
            old(self).closed_graph() ==> final(self).closed_graph(),
            final(self).all_unfrozen(),
            final(self).registry().contains_key(word@),
            id == final(self).registry()[word@],
            final(self).tok(id as int) == Tok::Value(word@),
            2 <= id < final(self).n_nodes(),
            old(self).n_nodes() <= final(self).n_nodes() <= old(self).n_nodes() + 1,
            forall|i: int|
                0 <= i < old(self).n_nodes() ==> final(self).tok(i) == old(self).tok(i)
                    && final(self).edges(i) == old(self).edges(i) && final(self).node_frozen(i)
                    == old(self).node_frozen(i),
            old(self).registry().contains_key(word@) ==> final(self).registry() == old(
                self,
            ).registry() && final(self).n_nodes() == old(self).n_nodes(),
            !old(self).registry().contains_key(word@) ==> final(self).registry() == old(
                self,
            ).registry().insert(word@, (old(self).n_nodes()) as usize) && final(self).n_nodes()
                == old(self).n_nodes() + 1 && final(self).edges(id as int).len() == 0,
            forall|a: Tok, b: Tok| final(self).weight_tok(a, b) == old(self).weight_tok(a, b),
            forall|a: Tok| final(self).tok_total(a) == old(self).tok_total(a),
    {
        let n = self.nodes.len();
        let ghost prev = *self;
        let id = dash_intern(&mut self.words, word, n);
        if id == n {
            self.nodes.push(MarkovNode::new(MarkovToken::Value(word.to_owned())));
            proof {
                assert(!prev.registry().contains_key(word@));
                assert(self.registry() == prev.registry().insert(word@, n as usize));
                assert(self.n_nodes() == prev.n_nodes() + 1);
                assert(forall|i: int|
                    0 <= i < prev.n_nodes() ==> self.nodes@[i] == prev.nodes@[i]);
                assert(self.tok(n as int) == Tok::Value(word@));
                assert forall|w2: Seq<char>| #[trigger]
                    self.registry().contains_key(w2) implies 2 <= self.registry()[w2]
                    < self.n_nodes() && self.tok(self.registry()[w2] as int) == Tok::Value(
                    w2,
                ) by {
                    if w2 != word@ {
                        assert(prev.registry().contains_key(w2));
                    }
                }
                assert forall|i: int| 2 <= i < self.n_nodes() implies self.registry()
                    .contains_key((#[trigger] self.tok(i))->Value_0) && self.registry()[self.tok(
                    i,
                )->Value_0] == i as usize by {
                    if i < n {
                        assert(self.tok(i) == prev.tok(i));
                        assert(prev.registry().contains_key(prev.tok(i)->Value_0)
                            && prev.registry()[prev.tok(i)->Value_0] == i as usize);
                        assert(prev.tok(i)->Value_0 != word@);
                    }
                }
                assert forall|i: int| 0 <= i < self.n_nodes() implies #[trigger] self.conns_wf(
                    i,
                ) by {
                    if i < n {
                        assert(prev.conns_wf(i));
                    }
                }
                assert forall|i: int, k: int|
                    0 <= i < self.n_nodes() && 0 <= k < self.edges(i).len() implies (
                #[trigger] self.edges(i)[k]).0 < self.n_nodes() by {
                    if i < n {
                        assert(self.edges(i) == prev.edges(i));
                    } else {
                        assert(self.edges(i).len() == 0);
                    }
                }
                assert(self.edges(1) == prev.edges(1));
                if prev.closed_graph() {
                    assert forall|i: int, k: int|
                        0 <= i < self.n_nodes() && 0 <= k < self.edges(i).len() implies ((
                    #[trigger] self.edges(i)[k]).0 == 1 || self.edges(
                        self.edges(i)[k].0 as int,
                    ).len() > 0 || self.edges(i)[k].0 as int == -1) by {
                        if i < n {
                            assert(self.edges(i) == prev.edges(i));
                            let t = prev.edges(i)[k].0;
                            if t != 1 {
                                assert(self.edges(t as int) == prev.edges(t as int));
                            }
                        } else {
                            assert(self.edges(i).len() == 0);
                        }
                    }
                }
                assert forall|i: int|
                    0 <= i < self.n_nodes() implies !#[trigger] self.node_frozen(i) by {
                    if i < n {
                        assert(!prev.node_frozen(i));
                    }
                }
                assert(self.wf0());
                self.lemma_weights_preserved(prev);
            }
        } else {
            proof {
                assert(self.registry() == prev.registry());
                assert(self.nodes@ == prev.nodes@);
                self.lemma_wf_same(prev);
                assert forall|i: int|
                    0 <= i < self.n_nodes() implies !#[trigger] self.node_frozen(i) by {
                    assert(!prev.node_frozen(i));
                }
                self.lemma_weights_preserved(prev);
            }
        }
        id
    }

    /// Well-formedness carries over between two states with the same node
    /// store and the same registry entries.
    proof fn lemma_wf_same(self, prev: Self)
        requires
            prev.wf0(),
            self.nodes@ == prev.nodes@,
            self.registry() == prev.registry(),
        ensures
            self.wf0(),
            prev.closed_graph() ==> self.closed_graph(),
    {
        assert(self.n_nodes() == prev.n_nodes());
        assert(self.tok(0) == prev.tok(0));
        assert(self.tok(1) == prev.tok(1));
        assert forall|i: int| 2 <= i < self.n_nodes() implies (#[trigger] self.tok(i)) is Value by {
            assert(self.tok(i) == prev.tok(i));
        }
        assert forall|w: Seq<char>| #[trigger]
            self.registry().contains_key(w) implies 2 <= self.registry()[w] < self.n_nodes()
            && self.tok(self.registry()[w] as int) == Tok::Value(w) by {
            assert(prev.registry().contains_key(w));
            assert(self.tok(self.registry()[w] as int) == prev.tok(prev.registry()[w] as int));
        }
        assert forall|i: int| 2 <= i < self.n_nodes() implies self.registry().contains_key((
        #[trigger] self.tok(i))->Value_0) && self.registry()[self.tok(i)->Value_0]
            == i as usize by {
            assert(self.tok(i) == prev.tok(i));
            assert(prev.registry().contains_key(prev.tok(i)->Value_0));
        }
        assert forall|i: int| 0 <= i < self.n_nodes() implies #[trigger] self.conns_wf(i) by {
            assert(prev.conns_wf(i));
        }
        assert forall|i: int, k: int|
            0 <= i < self.n_nodes() && 0 <= k < self.edges(i).len() implies (
        #[trigger] self.edges(i)[k]).0 < self.n_nodes() by {
            assert(self.edges(i) == prev.edges(i));
        }
        assert(self.edges(1) == prev.edges(1));
        if prev.closed_graph() {
            assert forall|i: int, k: int|
                0 <= i < self.n_nodes() && 0 <= k < self.edges(i).len() implies ((
            #[trigger] self.edges(i)[k]).0 == 1 || self.edges(self.edges(i)[k].0 as int).len()
                > 0 || self.edges(i)[k].0 as int == -1) by {
                assert(self.edges(i) == prev.edges(i));
                let t = prev.edges(i)[k].0;
                if t != 1 {
                    assert(self.edges(t as int) == prev.edges(t as int));
                }
            }
        }
    }

    /// Weights and totals depend only on the registry entries, tokens and
    /// edge lists that two chain states share.
    proof fn lemma_weights_preserved(self, prev: Self)
        requires
            prev.wf0(),
            self.wf0(),
            prev.n_nodes() <= self.n_nodes(),
            forall|i: int|
                0 <= i < prev.n_nodes() ==> self.tok(i) == prev.tok(i) && self.edges(i)
                    == prev.edges(i),
            forall|i: int| prev.n_nodes() <= i < self.n_nodes() ==> self.edges(i).len() == 0,
            forall|w: Seq<char>|
                #[trigger] prev.registry().contains_key(w) ==> self.registry().contains_key(w)
                    && self.registry()[w] == prev.registry()[w],
            forall|w: Seq<char>|
                #[trigger] self.registry().contains_key(w)
                    && !prev.registry().contains_key(w) ==> prev.n_nodes() <= self.registry()[w],
        ensures
            forall|a: Tok, b: Tok| self.weight_tok(a, b) == prev.weight_tok(a, b),
            forall|a: Tok| self.tok_total(a) == prev.tok_total(a),
    {
        assert forall|a: Tok, b: Tok| self.weight_tok(a, b) == prev.weight_tok(a, b) by {
            if prev.has_tok(a) && prev.has_tok(b) {
                assert(self.id_of(a) == prev.id_of(a));
                assert(self.id_of(b) == prev.id_of(b));
            } else if self.has_tok(a) && self.has_tok(b) {
                if !prev.has_tok(a) {
                    assert(self.edges(self.id_of(a)).len() == 0);
                    lemma_wt_absent(self.edges(self.id_of(a)), self.id_of(b) as usize);
                } else {
                    assert(!prev.has_tok(b));
                    assert(self.id_of(b) >= prev.n_nodes());
                    assert(self.edges(self.id_of(a)) == prev.edges(prev.id_of(a)));
                    lemma_wt_bounded_targets(
                        prev.edges(prev.id_of(a)),
                        prev,
                        prev.id_of(a),
                        self.id_of(b) as usize,
                    );
                }
            }
        }
        assert forall|a: Tok| self.tok_total(a) == prev.tok_total(a) by {
            if prev.has_tok(a) {
                assert(self.id_of(a) == prev.id_of(a));
            } else if self.has_tok(a) {
                assert(self.edges(self.id_of(a)).len() == 0);
            }
        }
    }

    /// Non-creating lookup of a word's node id.
    pub fn try_node(&self, word: &str) -> (r: Option<usize>)
        requires
            self.wf(),
        ensures
            r is Some <==> self.registry().contains_key(word@),
            r is Some ==> r->0 == self.registry()[word@] && self.tok(r->0 as int) == Tok::Value(
                word@,
            ) && 2 <= r->0 < self.n_nodes(),
    {
        dash_get(&self.words, word)
    }

    /// The recorded weight of the transition between two tokens; 0 when no
    /// such transition was ever recorded.
    pub fn transition_weight(&self, from: &MarkovToken, to: &MarkovToken) -> (w: u32)
        requires
            self.wf(),
        ensures
            w as nat == self.weight_tok(from@, to@),
    {
        let a: usize = match from {
            MarkovToken::Root => ROOT_ID,
            MarkovToken::End => END_ID,
            MarkovToken::Value(s) => {
                match dash_get(&self.words, s.as_str()) {
                    Some(id) => id,
                    None => {
                        proof {
                            assert(!self.has_tok(from@));
                        }
                        return 0;
                    },
                }
            },
        };
        let b: usize = match to {
            MarkovToken::Root => ROOT_ID,
            MarkovToken::End => END_ID,
            MarkovToken::Value(s) => {
                match dash_get(&self.words, s.as_str()) {
                    Some(id) => id,
                    None => {
                        proof {
                            assert(!self.has_tok(to@));
                        }
                        return 0;
                    },
                }
            },
        };
        proof {
            assert(self.id_of(from@) == a as int);
            assert(self.id_of(to@) == b as int);
        }
        proof {
            assert(self.conns_wf(a as int));
        }
        let n = self.nodes[a].conns.len();
        let mut i: usize = 0;
        while i < n
            invariant
                0 <= i <= n,
                self.wf(),
                a < self.n_nodes(),
                b == self.id_of(to@),
                a == self.id_of(from@),
                n == self.edges(a as int).len(),
                forall|k: int| 0 <= k < i ==> (#[trigger] self.edges(a as int)[k]).0 != b,
            decreases n - i,
        {
            let e = self.nodes[a].conns.entry_at(i);
            if e.0 == b {
                proof {
                    assert(self.conns_wf(a as int));
                    lemma_entry_wt(self.edges(a as int), i as int);
                }
                return e.1;
            }
            i += 1;
        }
        proof {
            assert(!contains_target(self.edges(a as int), b));
            lemma_wt_absent(self.edges(a as int), b);
        }
        0
    }
}

/// A weight over targets that all lie below a bound is zero at any target at
/// or above the bound.
proof fn lemma_wt_bounded_targets(s: Seq<(usize, u32)>, c: MarkovAllNodes, i: int, t: usize)
    requires
        c.wf0(),
        0 <= i < c.n_nodes(),
        s == c.edges(i),
        t as int >= c.n_nodes(),
    ensures
        wt(s, t) == 0,
{
    assert(forall|k: int| 0 <= k < s.len() ==> ((#[trigger] s[k]).0 as int) < c.n_nodes());
    assert(!contains_target(s, t));
    lemma_wt_absent(s, t);
}


/// The source token of the `j`-th transition a line with words `ws` records:
/// the start sentinel before the first word, the preceding word after.
pub open spec fn src_tok(ws: Seq<Seq<char>>, j: int) -> Tok {
    if j == 0 {
        Tok::Root
    } else {
        Tok::Value(ws[j - 1])
    }
}

/// The target token of the `j`-th transition: the `j`-th word, or the end
/// sentinel once the words are exhausted.
pub open spec fn dst_tok(ws: Seq<Seq<char>>, j: int) -> Tok {
    if j == ws.len() {
        Tok::End
    } else {
        Tok::Value(ws[j])
    }
}

/// The transitions ingesting a line with surviving words `ws` records: none
/// at all for a line with no surviving words, else start -> w1, w1 -> w2,
/// ..., wk -> end.
pub open spec fn line_pairs(ws: Seq<Seq<char>>) -> Seq<(Tok, Tok)> {
    if ws.len() == 0 {
        Seq::empty()
    } else {
        Seq::new(ws.len() + 1, |j: int| (src_tok(ws, j), dst_tok(ws, j)))
    }
}

/// How many entries of `ps` are exactly the pair `(a, b)`.
pub open spec fn pair_count(ps: Seq<(Tok, Tok)>, a: Tok, b: Tok) -> nat
    decreases ps.len(),
{
    if ps.len() == 0 {
        0
    } else {
        pair_count(ps.drop_last(), a, b) + if ps.last() == (a, b) {
            1nat
        } else {
            0
        }
    }
}

/// Counting one more pair of the prefix.
proof fn lemma_pair_count_take(ps: Seq<(Tok, Tok)>, j: int, a: Tok, b: Tok)
    requires
        0 <= j < ps.len(),
    ensures
        pair_count(ps.take(j + 1), a, b) == pair_count(ps.take(j), a, b) + if ps[j] == (a, b) {
            1nat
        } else {
            0
        },
{
    assert(ps.take(j + 1).drop_last() =~= ps.take(j));
    assert(ps.take(j + 1).last() == ps[j]);
}

impl MarkovAllNodes {
    /// A token resolves to node `i` exactly when it is node `i`'s token.
    proof fn lemma_tok_id(self, a: Tok, i: int)
        requires
            self.wf0(),
            0 <= i < self.n_nodes(),
        ensures
            (self.has_tok(a) && self.id_of(a) == i) <==> a == self.tok(i),
    {
        if self.has_tok(a) && self.id_of(a) == i {
            match a {
                Tok::Root => {},
                Tok::End => {},
                Tok::Value(w) => {
                    assert(self.registry().contains_key(w));
                },
            }
        }
        vstd::std_specs::vec::axiom_spec_len(&self.nodes);
        if a == self.tok(i) {
            if i == 0 {
                assert(self.id_of(a) == 0);
            } else if i == 1 {
                assert(self.id_of(a) == 1);
            } else {
                assert(self.tok(i) is Value);
                let w = self.tok(i)->Value_0;
                assert(self.registry().contains_key(w));
                assert(self.registry()[w] == i as usize);
                assert(self.id_of(a) == i);
            }
        }
    }

    /// How token-level weights move when one edge `cur -> tgt` is recorded.
    proof fn lemma_weight_tok_after_connect(self, pre: Self, cur: usize, tgt: usize)
        requires
            pre.wf0(),
            self.registry() == pre.registry(),
            self.n_nodes() == pre.n_nodes(),
            forall|i: int| 0 <= i < pre.n_nodes() ==> self.tok(i) == pre.tok(i),
            forall|i: int|
                0 <= i < pre.n_nodes() && i != cur as int ==> self.edges(i) == pre.edges(i),
            cur < pre.n_nodes(),
            tgt < pre.n_nodes(),
            wt(self.edges(cur as int), tgt) == wt(pre.edges(cur as int), tgt) + 1,
            forall|u: usize|
                u != tgt ==> wt(self.edges(cur as int), u) == wt(pre.edges(cur as int), u),
            total(self.edges(cur as int)) == total(pre.edges(cur as int)) + 1,
        ensures
            forall|a: Tok, b: Tok|
                self.weight_tok(a, b) == pre.weight_tok(a, b) + if a == pre.tok(cur as int) && b
                    == pre.tok(tgt as int) {
                    1nat
                } else {
                    0
                },
            forall|a: Tok|
                self.tok_total(a) == pre.tok_total(a) + if a == pre.tok(cur as int) {
                    1nat
                } else {
                    0
                },
    {
        assert forall|a: Tok, b: Tok|
            self.weight_tok(a, b) == pre.weight_tok(a, b) + if a == pre.tok(cur as int) && b
                == pre.tok(tgt as int) {
                1nat
            } else {
                0
            } by {
            pre.lemma_tok_id(a, cur as int);
            pre.lemma_tok_id(b, tgt as int);
            assert(self.id_of(a) == pre.id_of(a));
            assert(self.id_of(b) == pre.id_of(b));
            if pre.has_tok(a) && pre.has_tok(b) {
                if pre.id_of(a) == cur as int {
                    if pre.id_of(b) == tgt as int {
                    } else {
                        assert(wt(self.edges(cur as int), pre.id_of(b) as usize) == wt(
                            pre.edges(cur as int),
                            pre.id_of(b) as usize,
                        ));
                    }
                } else {
                    assert(self.edges(pre.id_of(a)) == pre.edges(pre.id_of(a)));
                }
            }
        }
        assert forall|a: Tok|
            self.tok_total(a) == pre.tok_total(a) + if a == pre.tok(cur as int) {
                1nat
            } else {
                0
            } by {
            pre.lemma_tok_id(a, cur as int);
            assert(self.id_of(a) == pre.id_of(a));
            if pre.has_tok(a) && pre.id_of(a) != cur as int {
                assert(self.edges(pre.id_of(a)) == pre.edges(pre.id_of(a)));
            }
        }
    }

    /// Records one transition between two existing nodes, by id.
    fn connect_ids(&mut self, cur: usize, tgt: usize)
        requires
            old(self).wf0(),
            old(self).all_unfrozen(),
            cur < old(self).n_nodes(),
            tgt < old(self).n_nodes(),
            cur != 1,
            total(old(self).edges(cur as int)) < u32::MAX,
        ensures
            final(self).wf0(),
            final(self).all_unfrozen(),
            final(self).registry() == old(self).registry(),
            final(self).n_nodes() == old(self).n_nodes(),
            forall|i: int|
                0 <= i < old(self).n_nodes() ==> final(self).tok(i) == old(self).tok(i),
            forall|i: int|
                0 <= i < old(self).n_nodes() && i != cur as int ==> final(self).edges(i) == old(
                    self,
                ).edges(i),
            final(self).edges(cur as int).len() >= 1,
            forall|a: Tok, b: Tok|
                final(self).weight_tok(a, b) == old(self).weight_tok(a, b) + if a == old(
                    self,
                ).tok(cur as int) && b == old(self).tok(tgt as int) {
                    1nat
                } else {
                    0
                },
            forall|a: Tok|
                final(self).tok_total(a) == old(self).tok_total(a) + if a == old(self).tok(
                    cur as int,
                ) {
                    1nat
                } else {
                    0
                },
            old(self).closed_except(cur as int) ==> final(self).closed_except(tgt as int),
    {
        let ghost prev = *self;
        proof {
            assert(prev.conns_wf(cur as int));
            assert(!prev.node_frozen(cur as int));
        }
        let node = &mut self.nodes[cur];
        node.conns.connect(tgt);
        proof {
            assert(self.nodes@.len() == prev.nodes@.len());
            assert(forall|i: int|
                0 <= i < prev.n_nodes() && i != cur as int ==> self.nodes@[i] == prev.nodes@[i]);
            assert(self.nodes@[cur as int].value == prev.nodes@[cur as int].value);
            assert(self.registry() == prev.registry());
            assert forall|i: int| 2 <= i < self.n_nodes() implies (#[trigger] self.tok(i)) is Value by {
                assert(self.tok(i) == prev.tok(i));
            }
            assert forall|w: Seq<char>| #[trigger]
                self.registry().contains_key(w) implies 2 <= self.registry()[w] < self.n_nodes()
                && self.tok(self.registry()[w] as int) == Tok::Value(w) by {
                assert(prev.registry().contains_key(w));
                assert(self.tok(self.registry()[w] as int) == prev.tok(
                    prev.registry()[w] as int,
                ));
            }
            assert forall|i: int| 2 <= i < self.n_nodes() implies self.registry().contains_key((
            #[trigger] self.tok(i))->Value_0) && self.registry()[self.tok(i)->Value_0]
                == i as usize by {
                assert(self.tok(i) == prev.tok(i));
                assert(prev.registry().contains_key(prev.tok(i)->Value_0));
            }
            assert forall|i: int| 0 <= i < self.n_nodes() implies #[trigger] self.conns_wf(i) by {
                if i != cur as int {
                    assert(prev.conns_wf(i));
                }
            }
            assert forall|i: int, k: int|
                0 <= i < self.n_nodes() && 0 <= k < self.edges(i).len() implies (
            #[trigger] self.edges(i)[k]).0 < self.n_nodes() by {
                if i != cur as int {
                    assert(self.edges(i) == prev.edges(i));
                } else {
                    if k < prev.edges(i).len() {
                        assert(self.edges(i)[k].0 == prev.edges(i)[k].0);
                    } else {
                        assert(self.edges(i)[k] == (tgt, 1u32));
                    }
                }
            }
            assert(self.edges(1) == prev.edges(1));
            assert(self.wf0());
            assert forall|i: int|
                0 <= i < self.n_nodes() implies !#[trigger] self.node_frozen(i) by {
                if i != cur as int {
                    assert(!prev.node_frozen(i));
                }
            }
            self.lemma_weight_tok_after_connect(prev, cur, tgt);
            if prev.closed_except(cur as int) {
                assert forall|i: int, k: int|
                    0 <= i < self.n_nodes() && 0 <= k < self.edges(i).len() implies ((
                #[trigger] self.edges(i)[k]).0 == 1 || self.edges(
                    self.edges(i)[k].0 as int,
                ).len() > 0 || self.edges(i)[k].0 as int == tgt as int) by {
                    let t = self.edges(i)[k].0;
                    if i != cur as int {
                        assert(self.edges(i) == prev.edges(i));
                        assert(prev.edges(i)[k].0 == 1 || prev.edges(
                            prev.edges(i)[k].0 as int,
                        ).len() > 0 || prev.edges(i)[k].0 as int == cur as int);
                        if t != 1 && t as int != tgt as int {
                            if t as int == cur as int {
                                assert(self.edges(cur as int).len() >= 1);
                            } else {
                                assert(self.edges(t as int) == prev.edges(t as int));
                            }
                        }
                    } else {
                        if k < prev.edges(cur as int).len() {
                            assert(self.edges(i)[k].0 == prev.edges(i)[k].0);
                            assert(prev.edges(i)[k].0 == 1 || prev.edges(
                                prev.edges(i)[k].0 as int,
                            ).len() > 0 || prev.edges(i)[k].0 as int == cur as int);
                            if t != 1 && t as int != tgt as int {
                                if t as int == cur as int {
                                    assert(self.edges(cur as int).len() >= 1);
                                } else {
                                    assert(self.edges(t as int) == prev.edges(t as int));
                                }
                            }
                        } else {
                            assert(self.edges(i)[k] == (tgt, 1u32));
                        }
                    }
                }
            }
        }
    }
}


impl MarkovAllNodes {
    /// Whether the chain has room to count one more line with surviving
    /// words `ws`: every source node the line touches can take the line's
    /// `ws.len() + 1` increments without overflowing its counter.
    pub open spec fn can_absorb(self, ws: Seq<Seq<char>>) -> bool {
        &&& self.tok_total(Tok::Root) + ws.len() + 1 <= u32::MAX
        &&& forall|j: int|
            0 <= j < ws.len() ==> self.tok_total(Tok::Value(#[trigger] ws[j])) + ws.len() + 1
                <= u32::MAX
    }

    /// Ingests one corpus line: splits it on whitespace, keeps the words made
    /// entirely of ASCII letters and digits, and threads
    /// start -> w1 -> ... -> wk -> end through the graph, adding 1 to each
    /// transition's weight. A line with no surviving words records nothing at
    /// all. Returns false, changing nothing, only when counting the line
    /// could overflow a weight counter.
    pub fn ingest(&mut self, line: &str) -> (ok: bool)
        requires
            old(self).wf(),
            old(self).all_unfrozen(),
        ensures
            final(self).wf(),
            final(self).all_unfrozen(),
            ok == (tokens_of(line@).len() == 0 || old(self).can_absorb(tokens_of(line@))),
            !ok ==> *final(self) == *old(self),
            ok ==> forall|a: Tok, b: Tok|
                final(self).weight_tok(a, b) == old(self).weight_tok(a, b) + pair_count(
                    line_pairs(tokens_of(line@)),
                    a,
                    b,
                ),
            ok ==> forall|w: Seq<char>|
                final(self).registry().contains_key(w) <==> old(self).registry().contains_key(w)
                    || tokens_of(line@).contains(w),
            forall|w: Seq<char>|
                old(self).registry().contains_key(w) ==> final(self).registry().contains_key(w)
                    && final(self).registry()[w] == old(self).registry()[w],
            forall|i: int|
                0 <= i < old(self).n_nodes() ==> final(self).tok(i) == old(self).tok(i),
            old(self).n_nodes() <= final(self).n_nodes(),
    {
        let words = tokenize(line);
        let ghost ws = words.deep_view();
        let k = words.len();
        proof {
            assert(ws.len() == k);
        }
        if k == 0 {
            proof {
                assert forall|a: Tok, b: Tok| pair_count(line_pairs(ws), a, b) == 0 by {
                    assert(line_pairs(ws) =~= Seq::<(Tok, Tok)>::empty());
                }
            }
            return true;
        }
        if k >= u32::MAX as usize {
            return false;
        }
        let need: u32 = (k as u32) + 1;
        proof {
            assert(self.conns_wf(0));
        }
        let root_total = self.nodes[ROOT_ID].conns.total_weight();
        if root_total > u32::MAX - need {
            proof {
                assert(self.tok_total(Tok::Root) == root_total as nat);
            }
            return false;
        }
        let mut j: usize = 0;
        while j < k
            invariant
                0 <= j <= k,
                k == ws.len(),
                1 <= k < u32::MAX,
                need == k + 1,
                *self == *old(self),
                old(self).wf(),
                old(self).all_unfrozen(),
                ws == tokens_of(line@),
                ws == words.deep_view(),
                words@.len() == k,
                forall|jj: int|
                    0 <= jj < j ==> self.tok_total(Tok::Value(#[trigger] ws[jj])) + k + 1
                        <= u32::MAX,
            decreases k - j,
        {
            proof {
                assert(words@[j as int]@ == ws[j as int]);
            }
            match self.try_node(words[j].as_str()) {
                Some(id) => {
                    proof {
                        assert(self.conns_wf(id as int));
                    }
                    let t = self.nodes[id].conns.total_weight();
                    if t > u32::MAX - need {
                        proof {
                            assert(self.tok_total(Tok::Value(ws[j as int])) == t as nat);
                        }
                        return false;
                    }
                    proof {
                        assert(self.tok_total(Tok::Value(ws[j as int])) == t as nat);
                    }
                },
                None => {
                    proof {
                        assert(self.tok_total(Tok::Value(ws[j as int])) == 0);
                    }
                },
            }
            j += 1;
        }
        let ghost prev = *self;
        let ghost ps = line_pairs(ws);
        proof {
            assert(prev == *old(self));
            assert(prev.can_absorb(ws));
            assert(ps.len() == k + 1);
            assert forall|a: Tok, b: Tok| pair_count(ps.take(0), a, b) == 0 by {
                assert(ps.take(0) =~= Seq::<(Tok, Tok)>::empty());
            }
            assert(ws.take(0) =~= Seq::<Seq<char>>::empty());
        }
        let mut cur: usize = ROOT_ID;
        let mut jw: usize = 0;
        while jw < k
            invariant
                0 <= jw <= k,
                k == ws.len(),
                1 <= k < u32::MAX,
                ws == words.deep_view(),
                words@.len() == k,
                ps == line_pairs(ws),
                ps.len() == k + 1,
                prev.wf0(),
                prev.all_unfrozen(),
                prev.can_absorb(ws),
                self.wf0(),
                self.all_unfrozen(),
                prev.n_nodes() <= self.n_nodes(),
                cur < self.n_nodes(),
                cur != 1,
                self.tok(cur as int) == src_tok(ws, jw as int),
                self.has_tok(src_tok(ws, jw as int)),
                self.id_of(src_tok(ws, jw as int)) == cur as int,
                self.closed_except(cur as int),
                forall|a: Tok, b: Tok|
                    self.weight_tok(a, b) == prev.weight_tok(a, b) + pair_count(
                        ps.take(jw as int),
                        a,
                        b,
                    ),
                forall|a: Tok| self.tok_total(a) <= prev.tok_total(a) + jw,
                forall|w: Seq<char>|
                    prev.registry().contains_key(w) ==> self.registry().contains_key(w)
                        && self.registry()[w] == prev.registry()[w],
                forall|w: Seq<char>|
                    self.registry().contains_key(w) <==> prev.registry().contains_key(w)
                        || ws.take(jw as int).contains(w),
                forall|i: int| 0 <= i < prev.n_nodes() ==> self.tok(i) == prev.tok(i),
            decreases k - jw,
        {
            proof {
                assert(words@[jw as int]@ == ws[jw as int]);
            }
            let ghost mid0 = *self;
            let id = self.node(words[jw].as_str());
            proof {
                assert forall|i: int, k2: int|
                    0 <= i < self.n_nodes() && 0 <= k2 < self.edges(i).len() implies ((
                #[trigger] self.edges(i)[k2]).0 == 1 || self.edges(
                    self.edges(i)[k2].0 as int,
                ).len() > 0 || self.edges(i)[k2].0 as int == cur as int) by {
                    if i < mid0.n_nodes() {
                        assert(self.edges(i) == mid0.edges(i));
                        let t = mid0.edges(i)[k2].0;
                        assert(t == 1 || mid0.edges(t as int).len() > 0 || t as int
                            == cur as int);
                        if t != 1 && t as int != cur as int {
                            assert(t < mid0.n_nodes());
                            assert(self.edges(t as int) == mid0.edges(t as int));
                        }
                    } else {
                        assert(self.edges(i).len() == 0);
                    }
                }
                assert(self.id_of(src_tok(ws, jw as int)) == cur as int);
                assert(self.tok_total(src_tok(ws, jw as int)) == mid0.tok_total(
                    src_tok(ws, jw as int),
                ));
                if jw > 0 {
                    assert(prev.tok_total(Tok::Value(ws[jw - 1])) + k + 1 <= u32::MAX);
                }
                assert(self.tok_total(src_tok(ws, jw as int)) <= prev.tok_total(
                    src_tok(ws, jw as int),
                ) + jw);
                assert(total(self.edges(cur as int)) == self.tok_total(src_tok(ws, jw as int)));
                assert(total(self.edges(cur as int)) < u32::MAX);
            }
            let ghost mid = *self;
            self.connect_ids(cur, id);
            proof {
                assert(mid.tok(cur as int) == src_tok(ws, jw as int));
                assert(mid.tok(id as int) == Tok::Value(ws[jw as int]));
                assert(ps[jw as int] == (src_tok(ws, jw as int), dst_tok(ws, jw as int)));
                assert(dst_tok(ws, jw as int) == Tok::Value(ws[jw as int]));
                assert forall|a: Tok, b: Tok|
                    self.weight_tok(a, b) == prev.weight_tok(a, b) + pair_count(
                        ps.take(jw + 1),
                        a,
                        b,
                    ) by {
                    lemma_pair_count_take(ps, jw as int, a, b);
                }
                assert(ws.take(jw + 1) =~= ws.take(jw as int).push(ws[jw as int]));
                let tk = ws.take(jw as int);
                let x = ws[jw as int];
                assert forall|w: Seq<char>|
                    self.registry().contains_key(w) <==> prev.registry().contains_key(w)
                        || ws.take(jw + 1).contains(w) by {
                    if tk.push(x).contains(w) {
                        let idx = choose|idx: int|
                            0 <= idx < tk.push(x).len() && tk.push(x)[idx] == w;
                        if idx < tk.len() {
                            assert(tk[idx] == w);
                            assert(tk.contains(w));
                        }
                    }
                    if tk.contains(w) {
                        let idx = choose|idx: int| 0 <= idx < tk.len() && tk[idx] == w;
                        assert(tk.push(x)[idx] == w);
                        assert(tk.push(x).contains(w));
                    }
                    assert(tk.push(x)[tk.len() as int] == x);
                    if w == x {
                        assert(tk.push(x).contains(w));
                    }
                }
                assert forall|i: int|
                    0 <= i < prev.n_nodes() implies self.tok(i) == prev.tok(i) by {
                    assert(mid0.tok(i) == prev.tok(i));
                    assert(mid.tok(i) == mid0.tok(i));
                    assert(self.tok(i) == mid.tok(i));
                }
            }
            cur = id;
            jw += 1;
        }
        proof {
            assert(src_tok(ws, k as int) == Tok::Value(ws[k - 1]));
            assert(prev.tok_total(Tok::Value(ws[k - 1])) + k + 1 <= u32::MAX);
            assert(total(self.edges(cur as int)) == self.tok_total(src_tok(ws, k as int)));
            assert(total(self.edges(cur as int)) < u32::MAX);
        }
        let ghost mid1 = *self;
        self.connect_ids(cur, END_ID);
        proof {
            assert(mid1.tok(cur as int) == src_tok(ws, k as int));
            assert(mid1.tok(1) == Tok::End);
            assert(ps[k as int] == (src_tok(ws, k as int), Tok::End));
            assert forall|a: Tok, b: Tok|
                self.weight_tok(a, b) == prev.weight_tok(a, b) + pair_count(
                    ps.take(k as int + 1),
                    a,
                    b,
                ) by {
                lemma_pair_count_take(ps, k as int, a, b);
            }
            assert(ps.take(k as int + 1) =~= ps);
            assert forall|i: int, k2: int|
                0 <= i < self.n_nodes() && 0 <= k2 < self.edges(i).len() implies ((
            #[trigger] self.edges(i)[k2]).0 == 1 || self.edges(
                self.edges(i)[k2].0 as int,
            ).len() > 0 || self.edges(i)[k2].0 as int == -1) by {
                assert(self.edges(i)[k2].0 == 1 || self.edges(
                    self.edges(i)[k2].0 as int,
                ).len() > 0 || self.edges(i)[k2].0 as int == 1);
            }
            assert(self.wf());
            assert(ws.take(k as int) =~= ws);
            assert forall|i: int|
                0 <= i < prev.n_nodes() implies self.tok(i) == prev.tok(i) by {
                assert(mid1.tok(i) == prev.tok(i));
                assert(self.tok(i) == mid1.tok(i));
            }
        }
        true
    }
}


/// The view of an optional seed word.
pub open spec fn seed_view(seed: Option<&str>) -> Option<Seq<char>> {
    match seed {
        Some(w) => Some(w@),
        None => None,
    }
}

impl MarkovAllNodes {
    /// Well-formedness carries over when tokens, edges and registry all
    /// agree, whatever the freeze flags do.
    proof fn lemma_wf0_carry(self, prev: Self)
        requires
            prev.wf0(),
            self.n_nodes() == prev.n_nodes(),
            self.registry() == prev.registry(),
            forall|i: int| 0 <= i < prev.n_nodes() ==> self.tok(i) == prev.tok(i),
            forall|i: int| 0 <= i < prev.n_nodes() ==> self.edges(i) == prev.edges(i),
            forall|i: int| 0 <= i < self.n_nodes() ==> #[trigger] self.conns_wf(i),
        ensures
            self.wf0(),
            prev.closed_graph() ==> self.closed_graph(),
    {
        assert(self.tok(0) == prev.tok(0));
        assert(self.tok(1) == prev.tok(1));
        assert forall|i: int| 2 <= i < self.n_nodes() implies (#[trigger] self.tok(i)) is Value by {
            assert(self.tok(i) == prev.tok(i));
        }
        assert forall|w: Seq<char>| #[trigger]
            self.registry().contains_key(w) implies 2 <= self.registry()[w] < self.n_nodes()
            && self.tok(self.registry()[w] as int) == Tok::Value(w) by {
            assert(prev.registry().contains_key(w));
            assert(self.tok(self.registry()[w] as int) == prev.tok(prev.registry()[w] as int));
        }
        assert forall|i: int| 2 <= i < self.n_nodes() implies self.registry().contains_key((
        #[trigger] self.tok(i))->Value_0) && self.registry()[self.tok(i)->Value_0]
            == i as usize by {
            assert(self.tok(i) == prev.tok(i));
            assert(prev.registry().contains_key(prev.tok(i)->Value_0));
        }
        assert forall|i: int, k: int|
            0 <= i < self.n_nodes() && 0 <= k < self.edges(i).len() implies (
        #[trigger] self.edges(i)[k]).0 < self.n_nodes() by {
            assert(self.edges(i) == prev.edges(i));
        }
        assert(self.edges(1) == prev.edges(1));
        if prev.closed_graph() {
            assert forall|i: int, k: int|
                0 <= i < self.n_nodes() && 0 <= k < self.edges(i).len() implies ((
            #[trigger] self.edges(i)[k]).0 == 1 || self.edges(self.edges(i)[k].0 as int).len()
                > 0 || self.edges(i)[k].0 as int == -1) by {
                assert(self.edges(i) == prev.edges(i));
                let t = prev.edges(i)[k].0;
                if t != 1 {
                    assert(self.edges(t as int) == prev.edges(t as int));
                }
            }
        }
    }

    /// Freezes every node's edge set into its sampling snapshot. Tokens,
    /// edges, weights and the registry are all untouched; afterwards the
    /// whole chain is ready for sampling.
    pub fn cache_index_maps(&mut self)
        requires
            old(self).wf(),
        ensures
            final(self).wf(),
            final(self).all_frozen(),
            final(self).n_nodes() == old(self).n_nodes(),
            final(self).registry() == old(self).registry(),
            forall|i: int|
                0 <= i < old(self).n_nodes() ==> final(self).tok(i) == old(self).tok(i)
                    && final(self).edges(i) == old(self).edges(i),
            forall|a: Tok, b: Tok| final(self).weight_tok(a, b) == old(self).weight_tok(a, b),
    {
        let n = self.nodes.len();
        let mut i: usize = 0;
        while i < n
            invariant
                0 <= i <= n,
                n == self.n_nodes(),
                n == old(self).n_nodes(),
                old(self).wf(),
                self.registry() == old(self).registry(),
                forall|j: int|
                    0 <= j < n ==> self.tok(j) == old(self).tok(j) && self.edges(j) == old(
                        self,
                    ).edges(j),
                forall|j: int| 0 <= j < n ==> #[trigger] self.conns_wf(j),
                forall|j: int| 0 <= j < i ==> #[trigger] self.node_frozen(j),
            decreases n - i,
        {
            let ghost before = *self;
            proof {
                assert(before.conns_wf(i as int));
            }
            let node = &mut self.nodes[i];
            node.conns.index_map();
            proof {
                assert(forall|j: int|
                    0 <= j < n && j != i as int ==> self.nodes@[j] == before.nodes@[j]);
                assert(self.registry() == before.registry());
                assert forall|j: int|
                    0 <= j < n implies self.tok(j) == old(self).tok(j) && self.edges(j) == old(
                        self,
                    ).edges(j) by {
                    assert(before.tok(j) == old(self).tok(j));
                    assert(before.edges(j) == old(self).edges(j));
                }
                assert forall|j: int| 0 <= j < n implies #[trigger] self.conns_wf(j) by {
                    if j != i as int {
                        assert(before.conns_wf(j));
                    }
                }
                assert forall|j: int| 0 <= j < i + 1 implies #[trigger] self.node_frozen(j) by {
                    if j < i as int {
                        assert(before.node_frozen(j));
                    }
                }
            }
            i += 1;
        }
        proof {
            self.lemma_wf0_carry(*old(self));
            self.lemma_weights_preserved(*old(self));
        }
    }

    /// One step of the weighted random walk: draws the next node from
    /// `cur`'s frozen edge set, each recorded target with probability
    /// proportional to its weight.
    pub fn random_step(&self, cur: usize, rng: &mut rand::rngs::ThreadRng) -> (nxt: usize)
        requires
            self.wf0(),
            cur < self.n_nodes(),
            self.node_frozen(cur as int),
            self.edges(cur as int).len() > 0,
        ensures
            nxt < self.n_nodes(),
            self.weight(cur as int, nxt) >= 1,
            contains_target(self.edges(cur as int), nxt),
    {
        proof {
            assert(self.conns_wf(cur as int));
        }
        let nxt = self.nodes[cur].conns.random_weighted(rng);
        proof {
            let k = choose|k: int|
                0 <= k < self.edges(cur as int).len() && (#[trigger] self.edges(
                    cur as int,
                )[k]).0 == nxt;
            assert(self.edges(cur as int)[k].0 < self.n_nodes());
        }
        nxt
    }

    /// The node a generation request starts from: the seed word's node when
    /// the registry holds it, the start sentinel otherwise.
    pub open spec fn start_of(self, seed: Option<Seq<char>>) -> int {
        match seed {
            Some(w) => if self.registry().contains_key(w) {
                self.registry()[w] as int
            } else {
                0
            },
            None => 0,
        }
    }

    /// A sequence of node ids that successive positive-weight transitions
    /// connect.
    pub open spec fn is_walk(self, p: Seq<int>) -> bool {
        &&& p.len() >= 1
        &&& forall|x: int| 0 <= x < p.len() ==> 0 <= #[trigger] p[x] < self.n_nodes()
        &&& forall|x: int|
            0 <= x < p.len() - 1 ==> self.weight(#[trigger] p[x], p[x + 1] as usize) >= 1
    }

    /// The text a walk produces: each word node visited contributes its word
    /// and a trailing space; the sentinels contribute nothing.
    pub open spec fn render(self, p: Seq<int>) -> Seq<char>
        decreases p.len(),
    {
        if p.len() == 0 {
            Seq::empty()
        } else {
            self.render(p.drop_last()) + self.word_render(p.last())
        }
    }

    /// What one visited node contributes to the output.
    pub open spec fn word_render(self, i: int) -> Seq<char> {
        if self.tok(i) is Value {
            self.tok(i)->Value_0.push(' ')
        } else {
            Seq::empty()
        }
    }

    /// Generates text by a weighted random walk: starts at the seed word's
    /// node (falling back to the start sentinel for an unknown or missing
    /// seed), samples successive transitions, and concatenates the visited
    /// words until the end sentinel is drawn. Returns nothing when the start
    /// node has no recorded transitions, or when the walk has not reached the
    /// end sentinel within `max_steps` draws.
    #[verifier::rlimit(50)]
    pub fn generate(
        &self,
        seed: Option<&str>,
        rng: &mut rand::rngs::ThreadRng,
        max_steps: usize,
    ) -> (out: Option<String>)
        requires
            self.wf(),
            self.all_frozen(),
        ensures
            self.edges(self.start_of(seed_view(seed))).len() == 0 ==> out is None,
            out is Some ==> exists|p: Seq<int>|
                self.is_walk(p) && p[0] == self.start_of(seed_view(seed)) && self.weight(
                    p.last(),
                    1,
                ) >= 1 && out->0@ == self.render(p),
            out is None ==> self.edges(self.start_of(seed_view(seed))).len() == 0 || exists|
                p: Seq<int>,
            |
                self.is_walk(p) && p[0] == self.start_of(seed_view(seed)) && p.len()
                    == max_steps + 1,
    {
        let start: usize = match seed {
            Some(w) => match self.try_node(w) {
                Some(id) => id,
                None => ROOT_ID,
            },
            None => ROOT_ID,
        };
        proof {
            assert(start as int == self.start_of(seed_view(seed)));
        }
        if self.nodes[start].conns.len() == 0 {
            return None;
        }
        let mut cur = start;
        let mut out = String::new();
        let mut steps: usize = 0;
        let ghost mut path: Seq<int> = seq![start as int];
        while steps < max_steps
            invariant
                self.wf(),
                self.all_frozen(),
                start < self.n_nodes(),
                start as int == self.start_of(seed_view(seed)),
                cur < self.n_nodes(),
                cur != 1,
                self.edges(cur as int).len() > 0,
                steps <= max_steps,
                path.len() == steps + 1,
                self.is_walk(path),
                path[0] == start as int,
                path.last() == cur as int,
                out@ == self.render(path.drop_last()),
            decreases max_steps - steps,
        {
            proof {
                assert(self.node_frozen(cur as int));
            }
            let next = self.random_step(cur, rng);
            let ghost out0 = out@;
            if let MarkovToken::Value(v) = &self.nodes[cur].value {
                out.append(v.as_str());
                out.append(" ");
                proof {
                    reveal_strlit(" ");
                    assert(" "@ =~= Seq::<char>::empty().push(' '));
                    assert(self.tok(cur as int) == Tok::Value(v@));
                    assert(out@ =~= out0 + v@.push(' '));
                    assert(out@ == out0 + self.word_render(cur as int));
                }
            } else {
                proof {
                    assert(self.tok(cur as int) == Tok::Root);
                    assert(out@ =~= out0 + self.word_render(cur as int));
                }
            }
            proof {
                assert(path.drop_last().push(path.last()) =~= path);
                assert(self.render(path) == self.render(path.drop_last()) + self.word_render(
                    cur as int,
                ));
                assert(out@ == self.render(path));
            }
            if next == END_ID {
                proof {
                    assert(self.weight(path.last(), 1) >= 1);
                }
                return Some(out);
            }
            proof {
                let k = choose|k: int|
                    0 <= k < self.edges(cur as int).len() && (#[trigger] self.edges(
                        cur as int,
                    )[k]).0 == next;
                assert(self.edges(next as int).len() > 0);
                let grown = path.push(next as int);
                assert(grown.drop_last() =~= path);
                assert forall|x: int|
                    0 <= x < grown.len() - 1 implies self.weight(
                    #[trigger] grown[x],
                    grown[x + 1] as usize,
                ) >= 1 by {
                    if x < grown.len() - 2 {
                        assert(grown[x] == path[x] && grown[x + 1] == path[x + 1]);
                    } else {
                        assert(grown[x] == cur as int && grown[x + 1] == next as int);
                    }
                }
                path = grown;
            }
            cur = next;
            steps += 1;
        }
        proof {
            assert(path.len() == max_steps + 1);
        }
        None
    }
}


impl MarkovAllNodes {
    /// Whether a token's node can reach the end sentinel within `fuel`
    /// positive-weight transitions.
    pub open spec fn reaches_end_tok(self, a: Tok, fuel: nat) -> bool
        decreases fuel,
    {
        fuel > 0 && (self.weight_tok(a, Tok::End) >= 1 || exists|b: Tok|
            self.weight_tok(a, b) >= 1 && self.reaches_end_tok(b, (fuel - 1) as nat))
    }

    /// Every active source — every token whose node has at least one
    /// recorded transition — can reach the end sentinel.
    pub open spec fn ends_reachable(self) -> bool {
        forall|a: Tok|
            self.tok_total(a) >= 1 ==> exists|fuel: nat| self.reaches_end_tok(a, fuel)
    }

    /// A transition's weight never exceeds its source's total.
    pub proof fn lemma_weight_le_tok_total(self, a: Tok, b: Tok)
        ensures
            self.weight_tok(a, b) <= self.tok_total(a),
    {
        if self.has_tok(a) && self.has_tok(b) {
            lemma_wt_le_total(self.edges(self.id_of(a)), self.id_of(b) as usize);
        }
    }

    /// An active source has a positive-weight transition to some token.
    proof fn lemma_active_source(self, a: Tok) -> (b: Tok)
        requires
            self.wf0(),
            self.tok_total(a) >= 1,
        ensures
            self.weight_tok(a, b) >= 1,
    {
        let i = self.id_of(a);
        assert(self.has_tok(a));
        assert(self.edges(i).len() >= 1);
        assert(self.conns_wf(i));
        let t = self.edges(i)[0].0;
        assert(t < self.n_nodes());
        lemma_entry_wt(self.edges(i), 0);
        let b = self.tok(t as int);
        self.lemma_tok_id(b, t as int);
        assert(self.weight_tok(a, b) == wt(self.edges(i), t));
        b
    }

    /// Growing every weight preserves reachability of the end sentinel.
    proof fn lemma_reach_monotone(self, pre: Self, a: Tok, fuel: nat)
        requires
            forall|x: Tok, y: Tok| pre.weight_tok(x, y) <= self.weight_tok(x, y),
            pre.reaches_end_tok(a, fuel),
        ensures
            self.reaches_end_tok(a, fuel),
        decreases fuel,
    {
        if pre.weight_tok(a, Tok::End) >= 1 {
            assert(self.weight_tok(a, Tok::End) >= 1);
        } else {
            let b = choose|b: Tok|
                pre.weight_tok(a, b) >= 1 && pre.reaches_end_tok(b, (fuel - 1) as nat);
            self.lemma_reach_monotone(pre, b, (fuel - 1) as nat);
            assert(self.weight_tok(a, b) >= 1 && self.reaches_end_tok(b, (fuel - 1) as nat));
        }
    }
}

/// A pair that occurs in the sequence is counted at least once.
proof fn lemma_pair_count_lower(ps: Seq<(Tok, Tok)>, x: int)
    requires
        0 <= x < ps.len(),
    ensures
        pair_count(ps, ps[x].0, ps[x].1) >= 1,
    decreases ps.len(),
{
    if x < ps.len() - 1 {
        lemma_pair_count_lower(ps.drop_last(), x);
    }
}

/// A counted pair occurs somewhere in the sequence.
proof fn lemma_pair_count_pos(ps: Seq<(Tok, Tok)>, a: Tok, b: Tok) -> (x: int)
    requires
        pair_count(ps, a, b) >= 1,
    ensures
        0 <= x < ps.len() && ps[x] == (a, b),
    decreases ps.len(),
{
    if ps.last() == (a, b) {
        ps.len() - 1
    } else {
        let x = lemma_pair_count_pos(ps.drop_last(), a, b);
        x
    }
}

impl MarkovAllNodes {
    /// Every source a line threads reaches the end sentinel afterwards: the
    /// line's own tail is a positive-weight path to it.
    proof fn lemma_line_reaches(self, pre: Self, ws: Seq<Seq<char>>, jj: int)
        requires
            ws.len() >= 1,
            0 <= jj <= ws.len(),
            forall|a: Tok, b: Tok|
                self.weight_tok(a, b) == pre.weight_tok(a, b) + pair_count(
                    line_pairs(ws),
                    a,
                    b,
                ),
        ensures
            self.reaches_end_tok(src_tok(ws, jj), (ws.len() - jj + 1) as nat),
        decreases ws.len() - jj,
    {
        let ps = line_pairs(ws);
        lemma_pair_count_lower(ps, jj);
        assert(ps[jj] == (src_tok(ws, jj), dst_tok(ws, jj)));
        assert(self.weight_tok(src_tok(ws, jj), dst_tok(ws, jj)) >= 1);
        if jj == ws.len() {
            assert(dst_tok(ws, jj) == Tok::End);
        } else {
            self.lemma_line_reaches(pre, ws, jj + 1);
            assert(dst_tok(ws, jj) == src_tok(ws, jj + 1));
            assert(self.weight_tok(src_tok(ws, jj), src_tok(ws, jj + 1)) >= 1
                && self.reaches_end_tok(src_tok(ws, jj + 1), (ws.len() - jj) as nat));
        }
    }

    /// Generation termination, structurally: ingesting a line preserves the
    /// guarantee that the end sentinel is reachable by positive-weight
    /// transitions from every active source. The `requires` are exactly what
    /// `ingest` ensures of a counted line, so every chain built by `new` and
    /// `ingest` keeps `ends_reachable`; a weighted random walk from any
    /// active node therefore always has a positive-probability path to the
    /// end sentinel, and reaches it with probability 1.
    pub proof fn lemma_ingest_preserves_ends_reachable(
        self,
        pre: Self,
        ws: Seq<Seq<char>>,
    )
        requires
            self.wf0(),
            pre.ends_reachable(),
            forall|a: Tok, b: Tok|
                self.weight_tok(a, b) == pre.weight_tok(a, b) + pair_count(
                    line_pairs(ws),
                    a,
                    b,
                ),
        ensures
            self.ends_reachable(),
    {
        assert forall|a: Tok| self.tok_total(a) >= 1 implies exists|fuel: nat|
            self.reaches_end_tok(a, fuel) by {
            let b = self.lemma_active_source(a);
            if pre.weight_tok(a, b) >= 1 {
                pre.lemma_weight_le_tok_total(a, b);
                assert(pre.tok_total(a) >= 1);
                let fuel = choose|fuel: nat| pre.reaches_end_tok(a, fuel);
                assert forall|x: Tok, y: Tok|
                    pre.weight_tok(x, y) <= self.weight_tok(x, y) by {}
                self.lemma_reach_monotone(pre, a, fuel);
                assert(self.reaches_end_tok(a, fuel));
            } else {
                assert(pair_count(line_pairs(ws), a, b) >= 1);
                let x = lemma_pair_count_pos(line_pairs(ws), a, b);
                assert(ws.len() >= 1);
                assert(line_pairs(ws)[x] == (src_tok(ws, x), dst_tok(ws, x)));
                assert(a == src_tok(ws, x));
                self.lemma_line_reaches(pre, ws, x);
                assert(self.reaches_end_tok(a, (ws.len() - x + 1) as nat));
            }
        }
    }
}

} // verus!
