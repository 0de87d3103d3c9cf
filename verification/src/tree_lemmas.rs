//! What holds between a tree and the set of phrases that it stands for.

use vstd::prelude::*;
use crate::tree::Tree;
use crate::trie::{lemma_add_known_phrase, occurs_among, occurs_in, words, Phrase, Token};

verus! {

impl Tree {
    /// The phrases below a child are the phrases of its parent that begin
    /// with the child's name, without that name.
    pub proof fn lemma_child_paths(&self, i: int, q: Phrase)
        requires
            self.distinct_names(),
            0 <= i < self.children.len(),
        ensures
            self.has_path(seq![self.children[i].name@] + q) <==> self.children[i].has_path(q),
            self.children[i].distinct_names(),
    {
        let p = seq![self.children[i].name@] + q;
        assert(p.drop_first() =~= q);
        assert(p[0] == self.children[i].name@);
        if self.has_path(p) {
            let j = choose|j: int|
                #![trigger self.children[j]]
                0 <= j < self.children.len() && self.children[j].name@ == p[0]
                    && self.children[j].has_path(p.drop_first());
            if j < i {
                assert(self.children[j].name@ != self.children[i].name@);
            }
            if i < j {
                assert(self.children[i].name@ != self.children[j].name@);
            }
        }
    }

    /// A child of a well-formed node is well formed.
    pub proof fn lemma_child_wf(&self, i: int)
        requires
            self.wf(),
            0 <= i < self.children.len(),
        ensures
            self.children[i].wf(),
            forall|q: Phrase| #[trigger] self.children[i].has_path(q) ==> q.len() < usize::MAX,
    {
        assert forall|q: Phrase| #[trigger] self.children[i].has_path(q) implies q.len()
            < usize::MAX by {
            self.lemma_child_paths(i, q);
            assert(self.has_path(seq![self.children[i].name@] + q));
        }
        assert(self.children[i].distinct_names());
    }

    /// Whoever holds a phrase holds its prefixes.
    pub proof fn lemma_prefix_closed(&self, p: Phrase, q: Phrase)
        requires
            self.has_path(p),
            q.is_prefix_of(p),
        ensures
            self.has_path(q),
        decreases p.len(),
    {
        if q.len() > 0 {
            let i = choose|i: int|
                #![trigger self.children[i]]
                0 <= i < self.children.len() && self.children[i].name@ == p[0]
                    && self.children[i].has_path(p.drop_first());
            assert(q.drop_first().is_prefix_of(p.drop_first()));
            self.children[i].lemma_prefix_closed(p.drop_first(), q.drop_first());
            assert(q[0] == p[0]);
        }
    }

    /// What a node stands for is a valid trie.
    pub proof fn lemma_view_valid(&self)
        ensures
            self@.valid(),
    {
        assert(self.has_path(Seq::empty()));
        assert forall|p: Phrase, q: Phrase| #[trigger]
            self@.paths.contains(p) && #[trigger] q.is_prefix_of(p) implies self@.paths.contains(
            q,
        ) by {
            self.lemma_prefix_closed(p, q);
        }
    }

    /// What the child at `i` stands for: the trie below its name.
    pub proof fn lemma_child_view(&self, i: int)
        requires
            self.distinct_names(),
            0 <= i < self.children.len(),
        ensures
            self.has_path(seq![self.children[i].name@]),
            self.children[i]@ == self@.at(seq![self.children[i].name@]),
    {
        let child = self.children[i];
        let step = seq![child.name@];
        assert forall|q: Phrase| child.has_path(q) <==> self.has_path(step + q) by {
            self.lemma_child_paths(i, q);
        }
        assert(step + Seq::<Token>::empty() =~= step);
        assert(child.has_path(Seq::empty()));
        assert(child@.paths =~= self@.at(step).paths);
    }

    /// The names of the children of a well-formed node are distinct, and
    /// they are the tokens with which its phrases begin.
    pub proof fn lemma_names(&self, names: Seq<Token>)
        requires
            self.distinct_names(),
            names.len() == self.children.len(),
            forall|i: int| 0 <= i < names.len() ==> #[trigger] names[i] == self.children[i].name@,
        ensures
            names.no_duplicates(),
            names.to_set() == self@.names_after(Seq::empty()),
    {
        assert forall|i: int, j: int| 0 <= i < names.len() && 0 <= j < names.len() && i != j implies names[i]
            != names[j] by {
            if i < j {
                assert(self.children[i].name@ != self.children[j].name@);
            } else {
                assert(self.children[j].name@ != self.children[i].name@);
            }
        }
        assert forall|t: Token| names.to_set().contains(t) <==> self@.names_after(
            Seq::empty(),
        ).contains(t) by {
            let p = Seq::<Token>::empty().push(t);
            assert(p.drop_first() =~= Seq::<Token>::empty());
            if names.to_set().contains(t) {
                let i = choose|i: int| 0 <= i < names.len() && names[i] == t;
                assert(self.children[i].has_path(p.drop_first()));
                assert(self.has_path(p));
            }
            if self.has_path(p) {
                let j = choose|j: int|
                    #![trigger self.children[j]]
                    0 <= j < self.children.len() && self.children[j].name@ == p[0]
                        && self.children[j].has_path(p.drop_first());
                assert(names[j] == t);
                assert(names.contains(t));
            }
        }
        assert(names.to_set() =~= self@.names_after(Seq::empty()));
    }

    /// A set that holds the names of the children and nothing else holds
    /// the tokens with which the phrases of the node begin.
    pub proof fn lemma_keys(&self, keys: Set<Token>)
        requires
            self.distinct_names(),
            forall|t: Token|
                keys.contains(t) <==> exists|k: int|
                    #![trigger self.children[k]]
                    0 <= k < self.children.len() && self.children[k].name@ == t,
        ensures
            keys == self@.names_after(Seq::empty()),
    {
        let names = self.child_names();
        self.lemma_names(names);
        assert forall|t: Token| keys.contains(t) <==> names.to_set().contains(t) by {
            if names.contains(t) {
                let k = choose|k: int| 0 <= k < names.len() && names[k] == t;
                assert(self.children[k].name@ == t);
            }
            if keys.contains(t) {
                let k = choose|k: int|
                    #![trigger self.children[k]]
                    0 <= k < self.children.len() && self.children[k].name@ == t;
                assert(names[k] == t);
            }
        }
        assert(keys =~= self@.names_after(Seq::empty()));
    }

    /// The tokens that follow the name of the child at `i` are as many as
    /// that child has children.
    pub proof fn lemma_child_span(&self, i: int)
        requires
            self.distinct_names(),
            0 <= i < self.children.len(),
        ensures
            self@.names_after(seq![self.children[i].name@]).finite(),
            self@.names_after(seq![self.children[i].name@]).len() == self.children[i].children.len(),
    {
        let child = self.children[i];
        let step = seq![child.name@];
        let names = child.child_names();
        self.lemma_child_paths(i, Seq::empty());
        child.lemma_names(names);
        names.unique_seq_to_set();
        assert forall|t: Token| child@.names_after(Seq::empty()).contains(t) <==> self@.names_after(
            step,
        ).contains(t) by {
            self.lemma_child_paths(i, seq![t]);
            assert(Seq::<Token>::empty().push(t) =~= seq![t]);
            assert(step + seq![t] =~= step.push(t));
        }
        assert(child@.names_after(Seq::empty()) =~= self@.names_after(step));
    }

    /// Only one child is the first of its name.
    pub proof fn lemma_named(&self, name: Token, j: int)
        requires
            self.first_named(name, j),
        ensures
            self.has_named(name),
            self.named(name) == j,
    {
        let w = self.named(name);
        assert(self.first_named(name, w));
        if w < j {
            assert(self.children[w].name@ != name);
        }
        if j < w {
            assert(self.children[j].name@ != name);
        }
    }

    /// A new childless child under a new name adds one phrase: its name.
    pub proof fn lemma_child_pushed(a: Tree, b: Tree)
        requires
            a.distinct_names(),
            b.name == a.name,
            b.children@.len() > 0,
            b.children@.drop_last() == a.children@,
            b.children@.last().children@.len() == 0,
            forall|i: int|
                #![trigger a.children[i]]
                0 <= i < a.children.len() ==> a.children[i].name@ != b.children@.last().name@,
        ensures
            b.distinct_names(),
            forall|p: Phrase| b.has_path(p) <==> a.has_path(p) || p == seq![b.children@.last().name@],
    {
        let leaf = b.children@.last();
        let n = a.children.len() as int;
        assert(leaf.distinct_names());
        assert forall|i: int| 0 <= i < n implies b.children[i] == a.children[i] by {
            assert(b.children@.drop_last()[i] == b.children@[i]);
        }
        assert forall|i: int, j: int|
            #![trigger b.children[i], b.children[j]]
            0 <= i < j < b.children.len() implies b.children[i].name@ != b.children[j].name@ by {
            if j < n {
                assert(a.children[i].name@ != a.children[j].name@);
            } else {
                assert(a.children[i].name@ != leaf.name@);
            }
        }
        assert forall|i: int| #![trigger b.children[i]] 0 <= i < b.children.len() implies b.children[i].distinct_names() by {
            if i < n {
                assert(a.children[i].distinct_names());
            }
        }
        assert forall|p: Phrase| b.has_path(p) <==> a.has_path(p) || p == seq![leaf.name@] by {
            if p.len() > 0 {
                if a.has_path(p) {
                    let i = choose|i: int|
                        #![trigger a.children[i]]
                        0 <= i < a.children.len() && a.children[i].name@ == p[0]
                            && a.children[i].has_path(p.drop_first());
                    assert(b.children[i].has_path(p.drop_first()));
                }
                if p == seq![leaf.name@] {
                    assert(b.children[n].has_path(p.drop_first()));
                }
                if b.has_path(p) {
                    let i = choose|i: int|
                        #![trigger b.children[i]]
                        0 <= i < b.children.len() && b.children[i].name@ == p[0]
                            && b.children[i].has_path(p.drop_first());
                    if i < n {
                        assert(a.children[i].has_path(p.drop_first()));
                    } else {
                        assert(p.drop_first().len() == 0);
                        assert(p =~= seq![leaf.name@]);
                    }
                }
            }
        }
    }

    /// Where the child at `idx` is replaced by one of the same name, the
    /// phrases that begin with that name are those of the new child behind
    /// the name; the others stay.
    pub proof fn lemma_child_replaced(a: Tree, b: Tree, idx: int)
        requires
            a.distinct_names(),
            0 <= idx < a.children.len(),
            b.name == a.name,
            b.children@ == a.children@.update(idx, b.children[idx]),
            b.children[idx].name@ == a.children[idx].name@,
            b.children[idx].distinct_names(),
        ensures
            b.distinct_names(),
            forall|p: Phrase|
                #![trigger b.has_path(p)]
                b.has_path(p) <==> if p.len() > 0 && p[0] == a.children[idx].name@ {
                    b.children[idx].has_path(p.drop_first())
                } else {
                    a.has_path(p)
                },
    {
        let word = a.children[idx].name@;
        assert forall|i: int| 0 <= i < a.children.len() implies #[trigger] b.children[i].name@
            == a.children[i].name@ by {}
        assert forall|i: int, j: int|
            #![trigger b.children[i], b.children[j]]
            0 <= i < j < b.children.len() implies b.children[i].name@ != b.children[j].name@ by {
            assert(a.children[i].name@ != a.children[j].name@);
        }
        assert forall|i: int| #![trigger b.children[i]] 0 <= i < b.children.len() implies b.children[i].distinct_names() by {
            if i != idx {
                assert(a.children[i].distinct_names());
            }
        }
        assert forall|p: Phrase|
            #![trigger b.has_path(p)]
            b.has_path(p) <==> if p.len() > 0 && p[0] == word {
                b.children[idx].has_path(p.drop_first())
            } else {
                a.has_path(p)
            } by {
            if p.len() > 0 {
                let q = p.drop_first();
                assert(p =~= seq![p[0]] + q);
                if p[0] == word {
                    b.lemma_child_paths(idx, q);
                } else {
                    if a.has_path(p) {
                        let i = choose|i: int|
                            #![trigger a.children[i]]
                            0 <= i < a.children.len() && a.children[i].name@ == p[0]
                                && a.children[i].has_path(p.drop_first());
                        assert(b.children[i].has_path(q));
                    }
                    if b.has_path(p) {
                        let i = choose|i: int|
                            #![trigger b.children[i]]
                            0 <= i < b.children.len() && b.children[i].name@ == p[0]
                                && b.children[i].has_path(p.drop_first());
                        assert(a.children[i].has_path(q));
                    }
                }
            }
        }
    }
}

/// `p` is a run of neighbouring words of `ws` that starts before position
/// `k`.
pub(crate) open spec fn starts_before(p: Phrase, ws: Phrase, k: int) -> bool {
    exists|i: int, j: int| 0 <= i < k && i <= j <= ws.len() && p == #[trigger] ws.subrange(i, j)
}

/// The runs that start at position `k` are the prefixes of what begins
/// there.
pub(crate) proof fn lemma_starts_before_step(p: Phrase, ws: Phrase, k: int)
    requires
        0 <= k < ws.len(),
    ensures
        starts_before(p, ws, k + 1) <==> starts_before(p, ws, k) || p.is_prefix_of(ws.skip(k)),
{
    if p.is_prefix_of(ws.skip(k)) {
        assert(p =~= ws.subrange(k, k + p.len()));
    }
    if starts_before(p, ws, k) {
        let (i, j) = choose|i: int, j: int|
            0 <= i < k && i <= j <= ws.len() && p == #[trigger] ws.subrange(i, j);
        assert(0 <= i < k + 1 && i <= j <= ws.len() && p == ws.subrange(i, j));
    }
    if starts_before(p, ws, k + 1) {
        let (i, j) = choose|i: int, j: int|
            0 <= i < k + 1 && i <= j <= ws.len() && p == #[trigger] ws.subrange(i, j);
        if i == k {
            assert(p.is_prefix_of(ws.skip(k)));
        } else {
            assert(0 <= i < k && i <= j <= ws.len() && p == ws.subrange(i, j));
        }
    }
}

/// A run of `ws` is empty or starts before the end of `ws`.
pub(crate) proof fn lemma_starts_before_all(p: Phrase, ws: Phrase)
    ensures
        occurs_in(p, ws) <==> p.len() == 0 || starts_before(p, ws, ws.len() as int),
{
    if p.len() == 0 {
        assert(p =~= ws.subrange(0, 0));
    }
    if starts_before(p, ws, ws.len() as int) {
        let (i, j) = choose|i: int, j: int|
            0 <= i < ws.len() && i <= j <= ws.len() && p == #[trigger] ws.subrange(i, j);
        assert(0 <= i <= j <= ws.len() && p == ws.subrange(i, j));
    }
    if occurs_in(p, ws) && p.len() > 0 {
        let (i, j) = choose|i: int, j: int| 0 <= i <= j <= ws.len() && p == #[trigger] ws.subrange(i, j);
        assert(0 <= i < ws.len() && i <= j <= ws.len() && p == ws.subrange(i, j));
    }
}

/// A run of one of the first `n + 1` sentences is a run of one of the first
/// `n` or of sentence `n`.
pub(crate) proof fn lemma_occurs_among_step(p: Phrase, all: Seq<Seq<char>>, n: int)
    requires
        0 <= n < all.len(),
    ensures
        occurs_among(p, all, n + 1) <==> occurs_among(p, all, n) || occurs_in(p, words(all[n])),
{
    if occurs_among(p, all, n) {
        let s = choose|s: int| 0 <= s < n && occurs_in(p, #[trigger] words(all[s]));
        assert(0 <= s < n + 1);
    }
    if occurs_among(p, all, n + 1) {
        let s = choose|s: int| 0 <= s < n + 1 && occurs_in(p, #[trigger] words(all[s]));
        if s < n {
            assert(occurs_among(p, all, n));
        }
    }
}

/// What can be read from `node` is what can be read in `start` behind
/// `pre`.
pub(crate) open spec fn reached(start: Tree, pre: Phrase, node: Tree) -> bool {
    forall|q: Phrase|
        #![trigger node.has_path(q)]
        node.has_path(q) <==> q.len() == 0 || start.has_path(pre + q)
}

/// `end` is `start` with the prefixes of `pre` added and with what can be
/// read behind `pre` replaced by what can be read from `below`.
pub(crate) open spec fn grafted(start: Tree, end: Tree, pre: Phrase, below: Tree) -> bool {
    &&& end.name@ == start.name@
    &&& end.distinct_names()
    &&& forall|p: Phrase|
        #![trigger end.has_path(p)]
        end.has_path(p) <==> if pre.is_prefix_of(p) {
            below.has_path(p.skip(pre.len() as int))
        } else {
            start.has_path(p) || p.is_prefix_of(pre)
        }
}

/// One step down while a phrase is added: from the node reached behind
/// `pre`, which has become `extended` where a child was missing, to its
/// child at `idx`. What held between the whole trie and the node holds
/// between the whole trie and that child, one token further.
pub(crate) proof fn lemma_descend(
    start: Tree,
    end: Tree,
    pre: Phrase,
    node: Tree,
    extended: Tree,
    idx: int,
    later: Tree,
    below: Tree,
)
    requires
        node.distinct_names(),
        extended.distinct_names(),
        extended.name == node.name,
        0 <= idx < extended.children.len(),
        forall|q: Phrase|
            #![trigger extended.has_path(q)]
            extended.has_path(q) <==> node.has_path(q) || q == seq![extended.children[idx].name@],
        reached(start, pre, node),
        later.name@ == node.name@ && later.distinct_names() ==> grafted(start, end, pre, later),
        later.name == extended.name,
        later.children@ == extended.children@.update(idx, below),
    ensures
        extended.children[idx].distinct_names(),
        reached(start, pre.push(extended.children[idx].name@), extended.children[idx]),
        below.name@ == extended.children[idx].name@ && below.distinct_names() ==> grafted(
            start,
            end,
            pre.push(extended.children[idx].name@),
            below,
        ),
{
    let child = extended.children[idx];
    let word = child.name@;
    let next = pre.push(word);
    let n = pre.len() as int;
    assert forall|q: Phrase|
        #![trigger child.has_path(q)]
        child.has_path(q) <==> q.len() == 0 || start.has_path(next + q) by {
        extended.lemma_child_paths(idx, q);
        assert(pre + (seq![word] + q) =~= next + q);
        if q.len() == 0 {
            assert(seq![word] + q =~= seq![word]);
        } else {
            assert((seq![word] + q).len() > 1);
        }
    }
    if below.name@ == word && below.distinct_names() {
        assert(later.children[idx] == below);
        Tree::lemma_child_replaced(extended, later, idx);
        assert(grafted(start, end, pre, later));
        assert forall|p: Phrase|
            #![trigger end.has_path(p)]
            end.has_path(p) <==> if next.is_prefix_of(p) {
                below.has_path(p.skip(next.len() as int))
            } else {
                start.has_path(p) || p.is_prefix_of(next)
            } by {
            if pre.is_prefix_of(p) {
                let q = p.skip(n);
                assert(pre + q =~= p);
                if next.is_prefix_of(p) {
                    assert(next[n] == p.subrange(0, n + 1)[n]);
                    assert(q[0] == word);
                    assert(q.drop_first() =~= p.skip(n + 1));
                } else {
                    if q.len() > 0 {
                        if q[0] == word {
                            assert(next =~= p.subrange(0, n + 1));
                        }
                        assert(q != seq![word]);
                        if p.is_prefix_of(next) {
                            assert(p.len() == n + 1);
                            assert(p[n] == next[n]);
                        }
                    } else {
                        assert(p =~= pre);
                        assert(p.is_prefix_of(next));
                        assert(q != seq![word]);
                    }
                }
            } else {
                if p.is_prefix_of(next) {
                    if p.len() == n + 1 {
                        assert(p =~= next);
                        assert(pre =~= p.subrange(0, n));
                    } else {
                        assert(p.is_prefix_of(pre));
                    }
                }
                if p.is_prefix_of(pre) {
                    assert(p.is_prefix_of(next));
                }
                assert(!next.is_prefix_of(p)) by {
                    if next.is_prefix_of(p) {
                        assert(pre =~= p.subrange(0, n));
                    }
                }
            }
        }
    }
}

/// In a node without two children of one name, each child is the first of
/// its name.
proof fn lemma_first_of_name(t: Tree, j: int)
    requires
        t.distinct_names(),
        0 <= j < t.children.len(),
    ensures
        t.first_named(t.children[j].name@, j),
        t.has_named(t.children[j].name@),
        t.named(t.children[j].name@) == j,
{
    assert forall|k: int| #![trigger t.children[k]] 0 <= k < j implies t.children[k].name@
        != t.children[j].name@ by {}
    t.lemma_named(t.children[j].name@, j);
}

/// Two nodes that are alike have children of the same names.
proof fn lemma_alike_names(a: Tree, b: Tree)
    requires
        a.distinct_names(),
        b.distinct_names(),
        a.alike(&b),
    ensures
        a.child_names().to_set() == b.child_names().to_set(),
{
    let an = a.child_names();
    let bn = b.child_names();
    a.lemma_names(an);
    b.lemma_names(bn);
    an.unique_seq_to_set();
    bn.unique_seq_to_set();
    assert forall|t: Token| an.to_set().contains(t) implies bn.to_set().contains(t) by {
        let i = choose|i: int| 0 <= i < an.len() && an[i] == t;
        assert(b.has_named(a.children[i].name@));
        let j = b.named(t);
        assert(b.first_named(t, j));
        assert(bn[j] == t);
    }
    vstd::set_lib::lemma_subset_equality(an.to_set(), bn.to_set());
}

/// Two nodes that are alike hold the same phrases.
proof fn lemma_alike_paths(a: Tree, b: Tree, p: Phrase)
    requires
        a.distinct_names(),
        b.distinct_names(),
        a.alike(&b),
    ensures
        a.has_path(p) <==> b.has_path(p),
    decreases p.len(),
{
    if p.len() > 0 {
        let rest = p.drop_first();
        if a.has_path(p) {
            let i = choose|i: int|
                #![trigger a.children[i]]
                0 <= i < a.children.len() && a.children[i].name@ == p[0] && a.children[i].has_path(rest);
            let j = b.named(p[0]);
            assert(b.has_named(a.children[i].name@));
            assert(b.first_named(p[0], j));
            lemma_alike_paths(a.children[i], b.children[j], rest);
        }
        if b.has_path(p) {
            let j = choose|j: int|
                #![trigger b.children[j]]
                0 <= j < b.children.len() && b.children[j].name@ == p[0] && b.children[j].has_path(rest);
            lemma_alike_names(a, b);
            assert(b.child_names()[j] == p[0]);
            assert(b.child_names().to_set().contains(p[0]));
            assert(a.child_names().contains(p[0]));
            let i = choose|i: int| 0 <= i < a.child_names().len() && a.child_names()[i] == p[0];
            lemma_first_of_name(b, j);
            assert(a.children[i].alike(&b.children[b.named(a.children[i].name@)]));
            lemma_alike_paths(a.children[i], b.children[j], rest);
        }
    }
}

/// Two nodes that stand for the same trie are alike.
proof fn lemma_same_view_alike(a: Tree, b: Tree)
    requires
        a.distinct_names(),
        b.distinct_names(),
        a@ == b@,
    ensures
        a.alike(&b),
    decreases a,
{
    let an = a.child_names();
    let bn = b.child_names();
    a.lemma_names(an);
    b.lemma_names(bn);
    an.unique_seq_to_set();
    bn.unique_seq_to_set();
    assert forall|i: int| #![trigger a.children[i]] 0 <= i < a.children.len() implies b.has_named(
        a.children[i].name@,
    ) && a.children[i].alike(&b.children[b.named(a.children[i].name@)]) by {
        let name = a.children[i].name@;
        assert(an[i] == name);
        assert(an.to_set().contains(name));
        assert(bn.contains(name));
        let j = choose|j: int| 0 <= j < bn.len() && bn[j] == name;
        lemma_first_of_name(b, j);
        a.lemma_child_view(i);
        b.lemma_child_view(j);
        lemma_same_view_alike(a.children[i], b.children[j]);
    }
}

/// Two well-formed nodes are equal exactly when they stand for the same
/// trie: the same name at the root and the same phrases, in whatever order
/// the children were added.
pub proof fn lemma_equal_iff_same_trie(a: Tree, b: Tree)
    requires
        a.wf(),
        b.wf(),
    ensures
        a.alike(&b) <==> a@ == b@,
{
    if a.alike(&b) {
        assert forall|p: Phrase| a.has_path(p) <==> b.has_path(p) by {
            lemma_alike_paths(a, b, p);
        }
        assert(a@.paths =~= b@.paths);
    }
    if a@ == b@ {
        lemma_same_view_alike(a, b);
    }
}

/// A tree to which a phrase that it already holds has been added is equal
/// to what it was.
pub proof fn lemma_known_phrase_keeps_equal(before: Tree, after: Tree, phrase: Phrase)
    requires
        before.wf(),
        after.wf(),
        before@.paths.contains(phrase),
        after@ == before@.with_phrase(phrase),
    ensures
        before.alike(&after),
{
    before.lemma_view_valid();
    lemma_add_known_phrase(before@, phrase);
    lemma_equal_iff_same_trie(before, after);
}

} // verus!
