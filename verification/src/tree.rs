//! The phrase trie: a tree of tokens in which every path from the root
//! spells a run of words that occurs in the corpus.

use vstd::hash_map::StringHashMap;
use vstd::prelude::*;
use crate::string_handlers::{sentences, split_corpus, split_sentence, suffixes};
use crate::tree_lemmas::{
    grafted, lemma_descend, lemma_occurs_among_step, lemma_starts_before_all,
    lemma_starts_before_step, reached, starts_before,
};
use crate::trie::{corpus_trie, lemma_at_at, occurs_among, occurs_in, root_name, Phrase, Token, Trie};

verus! {

/// A node of the trie. The root stands for the empty phrase; any other node
/// stands for the phrase spelled by the names on the way down to it.
#[derive(Debug)]
pub struct Tree {
    pub name: String,
    pub children: Vec<Tree>,
}

impl View for Tree {
    type V = Trie;

    open spec fn view(&self) -> Trie {
        Trie { name: self.name@, paths: Set::new(|p: Phrase| self.has_path(p)) }
    }
}

impl Tree {
    /// Whether `path` can be read from this node downwards.
    pub open spec fn has_path(&self, path: Phrase) -> bool
        decreases path.len(),
    {
        path.len() == 0 || exists|i: int|
            #![trigger self.children[i]]
            0 <= i < self.children.len() && self.children[i].name@ == path[0]
                && self.children[i].has_path(path.drop_first())
    }

    /// No node has two children of one name.
    pub open spec fn distinct_names(&self) -> bool
        decreases self,
    {
        &&& forall|i: int, j: int|
            #![trigger self.children[i], self.children[j]]
            0 <= i < j < self.children.len() ==> self.children[i].name@ != self.children[j].name@
        &&& forall|i: int|
            #![trigger self.children[i]]
            0 <= i < self.children.len() ==> self.children[i].distinct_names()
    }

    /// The node is well formed: no node below it or itself has two children
    /// of one name, and the length of every phrase in it can be counted.
    pub open spec fn wf(&self) -> bool {
        &&& self.distinct_names()
        &&& forall|p: Phrase| #[trigger] self.has_path(p) ==> p.len() <= usize::MAX
    }

    /// The names of the children, in order.
    pub open spec fn child_names(&self) -> Seq<Token> {
        Seq::new(self.children.len() as nat, |i: int| self.children[i].name@)
    }

    /// The child at `j` is the first one named `name`.
    pub open spec fn first_named(&self, name: Token, j: int) -> bool {
        &&& 0 <= j < self.children.len()
        &&& self.children[j].name@ == name
        &&& forall|k: int| #![trigger self.children[k]] 0 <= k < j ==> self.children[k].name@ != name
    }

    /// There is a child named `name`.
    pub open spec fn has_named(&self, name: Token) -> bool {
        exists|j: int| #[trigger] self.first_named(name, j)
    }

    /// Where the first child named `name` stands.
    pub open spec fn named(&self, name: Token) -> int {
        choose|j: int| #[trigger] self.first_named(name, j)
    }

    /// The two nodes have the same name and as many children, and each
    /// child of this node is alike the first child of `other` under its
    /// name.
    pub open spec fn alike(&self, other: &Tree) -> bool
        decreases self,
    {
        &&& self.name@ == other.name@
        &&& self.children.len() == other.children.len()
        &&& forall|i: int|
            #![trigger self.children[i]]
            0 <= i < self.children.len() ==> other.has_named(self.children[i].name@)
                && self.children[i].alike(&other.children[other.named(self.children[i].name@)])
    }

    /// The root of an empty trie: a node named `root` without children.
    pub fn default() -> (tree: Tree)
        ensures
            tree.wf(),
            tree@ == Trie::leaf(root_name()),
            tree.name@ == root_name(),
            tree.children@.len() == 0,
    {
        Tree::new("root".to_string())
    }

    /// A node with the given name and no children.
    pub fn new(name: String) -> (tree: Tree)
        ensures
            tree.wf(),
            tree@ == Trie::leaf(name@),
            tree.name == name,
            tree.children@.len() == 0,
    {
        let tree = Tree { name, children: Vec::new() };
        proof {
            assert forall|p: Phrase| tree.has_path(p) <==> p == Seq::<Token>::empty() by {
                if p.len() == 0 {
                    assert(p =~= Seq::<Token>::empty());
                }
            }
            assert(tree@.paths =~= Trie::leaf(name@).paths);
        }
        tree
    }

    /// Adds `phrase` below this node: walks down along its tokens and makes
    /// a child wherever one is missing. Every prefix of `phrase` is then a
    /// phrase of this node; nothing else changes. A phrase that is already
    /// there, and the empty phrase, leave the trie as it stands.
    pub fn add_phrase(&mut self, phrase: Vec<String>)
        requires
            old(self).wf(),
        ensures
            final(self).wf(),
            final(self)@ == old(self)@.with_phrase(phrase.deep_view()),
    {
        let ghost whole = phrase.deep_view();
        let ghost start = *self;
        let ghost end = *final(self);
        let mut node: &mut Tree = self;
        let mut i: usize = 0;
        proof {
            assert(whole.take(0) =~= Seq::<Token>::empty());
            assert forall|q: Phrase| #[trigger] whole.take(0).is_prefix_of(q) by {}
            assert forall|q: Phrase|
                #![trigger start.has_path(q)]
                start.has_path(q) <==> q.len() == 0 || start.has_path(whole.take(0) + q) by {
                assert(whole.take(0) + q =~= q);
            }
            assert forall|p: Phrase| #[trigger] end.has_path(p) <==> end.has_path(p.skip(0)) by {
                assert(p.skip(0) =~= p);
            }
        }
        while i < phrase.len()
            invariant
                i <= phrase.len(),
                whole == phrase.deep_view(),
                node.distinct_names(),
                reached(start, whole.take(i as int), *node),
                final(node).name@ == node.name@ && final(node).distinct_names() ==> grafted(
                    start,
                    end,
                    whole.take(i as int),
                    *final(node),
                ),
            decreases phrase.len() - i,
        {
            let ghost before = *node;
            let found = node.position(&phrase[i]);
            let idx = match found {
                Some(j) => j,
                None => {
                    node.children.push(Tree::new(phrase[i].clone()));
                    proof {
                        assert(node.children@.drop_last() =~= before.children@);
                        Self::lemma_child_pushed(before, *node);
                    }
                    node.children.len() - 1
                },
            };
            let ghost extended = *node;
            let ghost later = *final(node);
            node = &mut node.children[idx];
            proof {
                assert(whole.take(i as int).push(phrase[i as int]@) =~= whole.take(i + 1));
                if found is Some {
                    assert(seq![phrase[i as int]@].drop_first() =~= Seq::<Token>::empty());
                    assert(before.children[idx as int].has_path(seq![phrase[i as int]@].drop_first()));
                }
                lemma_descend(
                    start,
                    end,
                    whole.take(i as int),
                    before,
                    extended,
                    idx as int,
                    later,
                    *final(node),
                );
            }
            i += 1;
        }
        proof {
            assert(whole.take(i as int) =~= whole);
            assert(grafted(start, end, whole, *node));
            assert forall|p: Phrase| end.has_path(p) <==> start.has_path(p) || p.is_prefix_of(whole) by {
                if whole.is_prefix_of(p) {
                    assert(whole + p.skip(whole.len() as int) =~= p);
                    if p.skip(whole.len() as int).len() == 0 {
                        assert(p =~= whole);
                    }
                }
            }
            assert forall|p: Phrase| #[trigger] end.has_path(p) implies p.len() <= usize::MAX by {
                if !start.has_path(p) {
                    assert(p.len() <= phrase.len());
                }
            }
            assert(end@.paths =~= start@.with_phrase(whole).paths);
        }
    }

    /// Adds every suffix of `tokens`: every run of neighbouring tokens can
    /// then be read from this node.
    pub fn add_sentence(&mut self, tokens: Vec<String>)
        requires
            old(self).wf(),
        ensures
            final(self).wf(),
            final(self).name@ == old(self).name@,
            forall|p: Phrase|
                final(self).has_path(p) <==> old(self).has_path(p) || occurs_in(p, tokens.deep_view()),
    {
        let ghost ws = tokens.deep_view();
        let tails = suffixes(tokens);
        let mut k: usize = 0;
        proof {
            assert(tails.deep_view().len() == ws.len());
        }
        while k < tails.len()
            invariant
                k <= tails.len(),
                tails.len() == ws.len(),
                tails.deep_view() == Seq::new(ws.len(), |i: int| ws.skip(i)),
                self.wf(),
                self.name@ == old(self).name@,
                forall|p: Phrase|
                    self.has_path(p) <==> old(self).has_path(p) || starts_before(p, ws, k as int),
            decreases tails.len() - k,
        {
            let ghost before = *self;
            let tail = tails[k].clone();
            proof {
                assert(tails.deep_view()[k as int] == ws.skip(k as int));
                assert(tail.deep_view() =~= tails[k as int].deep_view());
            }
            self.add_phrase(tail);
            proof {
                assert forall|p: Phrase|
                    self.has_path(p) <==> old(self).has_path(p) || starts_before(p, ws, k + 1) by {
                    assert(self@.paths.contains(p) <==> before@.paths.contains(p) || p.is_prefix_of(
                        ws.skip(k as int),
                    ));
                    lemma_starts_before_step(p, ws, k as int);
                }
            }
            k += 1;
        }
        proof {
            assert forall|p: Phrase|
                self.has_path(p) <==> old(self).has_path(p) || occurs_in(p, ws) by {
                lemma_starts_before_all(p, ws);
                assert(old(self).has_path(Seq::empty()));
                if p.len() == 0 {
                    assert(p =~= Seq::<Token>::empty());
                }
            }
        }
    }

    /// The trie of `corpus`: every suffix of every sentence is added to a
    /// fresh root, so that every run of neighbouring words of a sentence
    /// can be read from the root. No phrase crosses the end of a sentence.
    pub fn from_corpus(corpus: String) -> (tree: Tree)
        ensures
            tree.wf(),
            tree@ == corpus_trie(corpus@),
    {
        let mut tree = Tree::default();
        let all = split_corpus(corpus);
        let mut s: usize = 0;
        let ghost texts = sentences(corpus@);
        while s < all.len()
            invariant
                s <= all.len(),
                all.deep_view() == texts,
                tree.wf(),
                tree.name@ == root_name(),
                forall|p: Phrase|
                    tree.has_path(p) <==> p.len() == 0 || occurs_among(p, texts, s as int),
            decreases all.len() - s,
        {
            let tokens = split_sentence(all[s].clone());
            let ghost ws = tokens.deep_view();
            proof {
                assert(all.deep_view()[s as int] == all[s as int]@);
            }
            tree.add_sentence(tokens);
            proof {
                assert forall|p: Phrase|
                    tree.has_path(p) <==> p.len() == 0 || occurs_among(p, texts, s + 1) by {
                    lemma_occurs_among_step(p, texts, s as int);
                }
            }
            s += 1;
        }
        proof {
            assert(tree@.paths =~= corpus_trie(corpus@).paths);
        }
        tree
    }

    /// Where among the children the first one named `name` stands, if there
    /// is one.
    pub fn position(&self, name: &String) -> (found: Option<usize>)
        ensures
            match found {
                Some(j) => self.first_named(name@, j as int),
                None => forall|i: int|
                    #![trigger self.children[i]]
                    0 <= i < self.children.len() ==> self.children[i].name@ != name@,
            },
    {
        let mut i: usize = 0;
        while i < self.children.len()
            invariant
                i <= self.children.len(),
                forall|k: int| #![trigger self.children[k]] 0 <= k < i ==> self.children[k].name@ != name@,
            decreases self.children.len() - i,
        {
            if self.children[i].name == *name {
                return Some(i);
            }
            i += 1;
        }
        None
    }

    /// The names of the children, each once, in the order of the children.
    pub fn children_names(&self) -> (names: Vec<String>)
        requires
            self.wf(),
        ensures
            names.len() == self.children.len(),
            forall|i: int| 0 <= i < names.len() ==> (#[trigger] names[i])@ == self.children[i].name@,
            names.deep_view().no_duplicates(),
            names.deep_view().to_set() == self@.names_after(Seq::empty()),
    {
        let mut names: Vec<String> = Vec::new();
        let mut i: usize = 0;
        while i < self.children.len()
            invariant
                i <= self.children.len(),
                names.len() == i,
                forall|k: int| 0 <= k < i ==> (#[trigger] names[k])@ == self.children[k].name@,
            decreases self.children.len() - i,
        {
            names.push(self.children[i].name.clone());
            i += 1;
        }
        proof {
            self.lemma_names(names.deep_view());
        }
        names
    }

    /// The child named `name`, if there is one: the root of the trie that
    /// follows `name`.
    pub fn step_down(&self, name: String) -> (child: Option<&Tree>)
        requires
            self.wf(),
        ensures
            match child {
                Some(c) => {
                    &&& self.has_named(name@)
                    &&& *c == self.children[self.named(name@)]
                    &&& self@.paths.contains(seq![name@])
                    &&& c.wf()
                    &&& c@ == self@.at(seq![name@])
                },
                None => !self@.paths.contains(seq![name@]),
            },
    {
        match self.position(&name) {
            Some(i) => {
                proof {
                    self.lemma_named(name@, i as int);
                    self.lemma_child_wf(i as int);
                    self.lemma_child_view(i as int);
                }
                Some(&self.children[i])
            },
            None => {
                proof {
                    if self.has_path(seq![name@]) {
                        let j = choose|j: int|
                            #![trigger self.children[j]]
                            0 <= j < self.children.len() && self.children[j].name@ == seq![name@][0]
                                && self.children[j].has_path(seq![name@].drop_first());
                        assert(self.children[j].name@ != name@);
                    }
                }
                None
            },
        }
    }

    /// The names that follow `path`: the names of the children of the node
    /// that `path` leads to, each once. There is such a node exactly when
    /// `path` is a phrase of this node; the empty path leads to this node
    /// itself.
    pub fn names_at_path(&self, path: Vec<String>) -> (found: Option<Vec<String>>)
        requires
            self.wf(),
        ensures
            match found {
                Some(names) => {
                    &&& self@.paths.contains(path.deep_view())
                    &&& names.deep_view().no_duplicates()
                    &&& names.deep_view().to_set() == self@.names_after(path.deep_view())
                },
                None => !self@.paths.contains(path.deep_view()),
            },
    {
        let mut node = self;
        let mut i: usize = 0;
        let ghost whole = path.deep_view();
        proof {
            assert(whole.take(0) =~= Seq::<Token>::empty());
            assert(self.has_path(whole.take(0)));
            assert forall|q: Phrase| self@.paths.contains(q) <==> self@.at(whole.take(0)).paths.contains(
                q,
            ) by {
                assert(whole.take(0) + q =~= q);
            }
            assert(self@.paths =~= self@.at(whole.take(0)).paths);
        }
        while i < path.len()
            invariant
                i <= path.len(),
                whole == path.deep_view(),
                self.wf(),
                node.wf(),
                self@.paths.contains(whole.take(i as int)),
                node@ == self@.at(whole.take(i as int)),
            decreases path.len() - i,
        {
            let ghost word = path[i as int]@;
            proof {
                assert(whole.take(i as int) + seq![word] =~= whole.take(i + 1));
                lemma_at_at(self@, whole.take(i as int), seq![word]);
                assert(whole.take(i + 1).is_prefix_of(whole));
                self.lemma_view_valid();
            }
            match node.step_down(path[i].clone()) {
                Some(child) => {
                    node = child;
                },
                None => {
                    return None;
                },
            }
            i += 1;
        }
        let names = node.children_names();
        proof {
            assert(whole.take(i as int) =~= whole);
            assert forall|t: Token| node@.names_after(Seq::empty()).contains(t) <==> self@.names_after(
                whole,
            ).contains(t) by {
                assert(whole + Seq::<Token>::empty().push(t) =~= whole.push(t));
            }
            assert(node@.names_after(Seq::empty()) =~= self@.names_after(whole));
        }
        Some(names)
    }

    /// For each child, by its name, the number of its own children: how
    /// many different tokens follow that name. Nothing deeper is counted.
    pub fn span_map(&self) -> (spans: StringHashMap<usize>)
        requires
            self.wf(),
        ensures
            spans@.dom() == self@.names_after(Seq::empty()),
            forall|t: Token| #[trigger]
                spans@.dom().contains(t) ==> spans@[t] == self@.names_after(seq![t]).len(),
    {
        let mut spans: StringHashMap<usize> = StringHashMap::new();
        let mut i: usize = 0;
        while i < self.children.len()
            invariant
                i <= self.children.len(),
                self.wf(),
                forall|t: Token|
                    spans@.dom().contains(t) <==> exists|k: int|
                        #![trigger self.children[k]]
                        0 <= k < i && self.children[k].name@ == t,
                forall|k: int|
                    #![trigger self.children[k]]
                    0 <= k < i ==> spans@[self.children[k].name@] == self.children[k].children.len(),
            decreases self.children.len() - i,
        {
            let ghost before = spans@;
            spans.insert(self.children[i].name.clone(), self.children[i].children.len());
            proof {
                let name = self.children[i as int].name@;
                assert forall|k: int| #![trigger self.children[k]] 0 <= k < i implies self.children[k].name@
                    != name by {}
                assert forall|t: Token|
                    spans@.dom().contains(t) <==> exists|k: int|
                        #![trigger self.children[k]]
                        0 <= k < i + 1 && self.children[k].name@ == t by {
                    if before.dom().contains(t) {
                        let k = choose|k: int|
                            #![trigger self.children[k]]
                            0 <= k < i && self.children[k].name@ == t;
                        assert(0 <= k < i + 1 && self.children[k].name@ == t);
                    }
                    if t == name {
                        assert(0 <= i < i + 1 && self.children[i as int].name@ == t);
                    }
                }
            }
            i += 1;
        }
        proof {
            self.lemma_keys(spans@.dom());
            assert forall|t: Token| #[trigger] spans@.dom().contains(t) implies spans@[t]
                == self@.names_after(seq![t]).len() by {
                let k = choose|k: int|
                    #![trigger self.children[k]]
                    0 <= k < self.children.len() && self.children[k].name@ == t;
                self.lemma_child_span(k);
            }
        }
        spans
    }

    /// For each child, by its name, the length of the longest phrase below
    /// it: the depth of the whole subtree, not of one level.
    pub fn depth_map(&self) -> (depths: StringHashMap<usize>)
        requires
            self.wf(),
        ensures
            depths@.dom() == self@.names_after(Seq::empty()),
            forall|t: Token| #[trigger]
                depths@.dom().contains(t) ==> self@.at(seq![t]).has_depth(depths@[t] as nat),
    {
        let mut depths: StringHashMap<usize> = StringHashMap::new();
        let mut i: usize = 0;
        while i < self.children.len()
            invariant
                i <= self.children.len(),
                self.wf(),
                forall|t: Token|
                    depths@.dom().contains(t) <==> exists|k: int|
                        #![trigger self.children[k]]
                        0 <= k < i && self.children[k].name@ == t,
                forall|k: int|
                    #![trigger self.children[k]]
                    0 <= k < i ==> self.children[k]@.has_depth(depths@[self.children[k].name@] as nat),
            decreases self.children.len() - i,
        {
            let ghost before = depths@;
            proof {
                self.lemma_child_wf(i as int);
            }
            let depth = self.children[i].get_depth();
            depths.insert(self.children[i].name.clone(), depth);
            proof {
                let name = self.children[i as int].name@;
                assert forall|k: int| #![trigger self.children[k]] 0 <= k < i implies self.children[k].name@
                    != name by {}
                assert forall|t: Token|
                    depths@.dom().contains(t) <==> exists|k: int|
                        #![trigger self.children[k]]
                        0 <= k < i + 1 && self.children[k].name@ == t by {
                    if before.dom().contains(t) {
                        let k = choose|k: int|
                            #![trigger self.children[k]]
                            0 <= k < i && self.children[k].name@ == t;
                        assert(0 <= k < i + 1 && self.children[k].name@ == t);
                    }
                    if t == name {
                        assert(0 <= i < i + 1 && self.children[i as int].name@ == t);
                    }
                }
            }
            i += 1;
        }
        proof {
            self.lemma_keys(depths@.dom());
            assert forall|t: Token| #[trigger] depths@.dom().contains(t) implies self@.at(
                seq![t],
            ).has_depth(depths@[t] as nat) by {
                let k = choose|k: int|
                    #![trigger self.children[k]]
                    0 <= k < self.children.len() && self.children[k].name@ == t;
                self.lemma_child_view(k);
            }
        }
        depths
    }

    /// The length of the longest phrase below this node: 0 for a node
    /// without children, else one more than the largest depth of a child.
    pub fn get_depth(&self) -> (depth: usize)
        requires
            self.wf(),
        ensures
            self@.has_depth(depth as nat),
        decreases self,
    {
        let mut depth: usize = 0;
        let mut i: usize = 0;
        proof {
            assert(self@.paths.contains(Seq::empty()));
        }
        while i < self.children.len()
            invariant
                i <= self.children.len(),
                self.wf(),
                exists|p: Phrase| #[trigger] self@.paths.contains(p) && p.len() == depth,
                forall|k: int, q: Phrase|
                    0 <= k < i && #[trigger] self.children[k].has_path(q) ==> q.len() + 1 <= depth,
            decreases self.children.len() - i,
        {
            proof {
                self.lemma_child_wf(i as int);
            }
            let below = self.children[i].get_depth();
            proof {
                let q = choose|q: Phrase| #[trigger] self.children[i as int]@.paths.contains(q) && q.len() == below;
                self.lemma_child_paths(i as int, q);
                assert(self@.paths.contains(seq![self.children[i as int].name@] + q));
                assert forall|r: Phrase| #[trigger] self.children[i as int].has_path(r) implies r.len()
                    <= below by {
                    assert(self.children[i as int]@.paths.contains(r));
                }
            }
            if below + 1 > depth {
                depth = below + 1;
            }
            i += 1;
        }
        proof {
            assert forall|p: Phrase| #[trigger] self@.paths.contains(p) implies p.len() <= depth by {
                if p.len() > 0 {
                    let k = choose|k: int|
                        #![trigger self.children[k]]
                        0 <= k < self.children.len() && self.children[k].name@ == p[0]
                            && self.children[k].has_path(p.drop_first());
                    assert(p.drop_first().len() + 1 <= depth);
                }
            }
        }
        depth
    }

    /// Decides whether the two nodes are alike, in whatever order each
    /// holds its children.
    pub fn same_as(&self, other: &Tree) -> (r: bool)
        ensures
            r == self.alike(other),
        decreases self,
    {
        if !(self.name == other.name) {
            return false;
        }
        if self.children.len() != other.children.len() {
            return false;
        }
        let mut i: usize = 0;
        while i < self.children.len()
            invariant
                i <= self.children.len(),
                self.name@ == other.name@,
                self.children.len() == other.children.len(),
                forall|k: int|
                    #![trigger self.children[k]]
                    0 <= k < i ==> other.has_named(self.children[k].name@) && self.children[k].alike(
                        &other.children[other.named(self.children[k].name@)],
                    ),
            decreases self.children.len() - i,
        {
            let ghost name = self.children[i as int].name@;
            match other.position(&self.children[i].name) {
                Some(j) => {
                    proof {
                        other.lemma_named(name, j as int);
                    }
                    if !self.children[i].same_as(&other.children[j]) {
                        return false;
                    }
                },
                None => {
                    proof {
                        if other.has_named(name) {
                            assert(other.children[other.named(name)].name@ != name);
                        }
                    }
                    return false;
                },
            }
            i += 1;
        }
        true
    }
}

impl PartialEq for Tree {
    /// Two nodes are equal when they are alike.
    fn eq(&self, other: &Tree) -> (r: bool) {
        self.same_as(other)
    }
}

impl vstd::std_specs::cmp::PartialEqSpecImpl for Tree {
    open spec fn obeys_eq_spec() -> bool {
        true
    }

    open spec fn eq_spec(&self, other: &Tree) -> bool {
        self.alike(other)
    }
}

impl Eq for Tree {

}

} // verus!
