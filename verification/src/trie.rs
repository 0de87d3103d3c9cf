//! What a phrase trie stands for: the set of phrases that can be read from
//! its root, and what holds of that set when phrases are added.

use vstd::prelude::*;
use crate::string_handlers::{fields, sentences, Delimiter};

verus! {

/// A token: one word.
pub type Token = Seq<char>;

/// A phrase: a run of tokens.
pub type Phrase = Seq<Seq<char>>;

/// What a trie stands for: the name of its root, and the phrases that can
/// be read from the root downwards.
pub struct Trie {
    pub name: Token,
    pub paths: Set<Phrase>,
}

impl Trie {
    /// The trie with the given name and no children.
    pub open spec fn leaf(name: Token) -> Trie {
        Trie { name, paths: set![Seq::empty()] }
    }

    /// The empty phrase is in the trie, and so is every prefix of a phrase
    /// that is in it.
    pub open spec fn valid(self) -> bool {
        &&& self.paths.contains(Seq::empty())
        &&& forall|p: Phrase, q: Phrase| #[trigger]
            self.paths.contains(p) && #[trigger] q.is_prefix_of(p) ==> self.paths.contains(q)
    }

    /// The trie after `phrase` is added: every prefix of `phrase` has
    /// joined its phrases.
    pub open spec fn with_phrase(self, phrase: Phrase) -> Trie {
        Trie {
            name: self.name,
            paths: Set::new(|p: Phrase| self.paths.contains(p) || p.is_prefix_of(phrase)),
        }
    }

    /// The tokens that follow `path` in the trie.
    pub open spec fn names_after(self, path: Phrase) -> Set<Token> {
        Set::new(|t: Token| self.paths.contains(path.push(t)))
    }

    /// The trie below `path`: what follows `path` in this trie.
    pub open spec fn at(self, path: Phrase) -> Trie {
        Trie {
            name: if path.len() == 0 {
                self.name
            } else {
                path.last()
            },
            paths: Set::new(|q: Phrase| self.paths.contains(path + q)),
        }
    }

    /// `d` is the length of the longest phrase in the trie.
    pub open spec fn has_depth(self, d: nat) -> bool {
        &&& exists|p: Phrase| #[trigger] self.paths.contains(p) && p.len() == d
        &&& forall|p: Phrase| #[trigger] self.paths.contains(p) ==> p.len() <= d
    }
}

/// Going below `p` and then below `q` is going below `p` followed by `q`.
pub proof fn lemma_at_at(t: Trie, p: Phrase, q: Phrase)
    ensures
        t.at(p).at(q) == t.at(p + q),
{
    assert forall|r: Phrase| t.at(p).at(q).paths.contains(r) <==> t.at(p + q).paths.contains(r) by {
        assert(p + (q + r) =~= (p + q) + r);
    }
    assert(t.at(p).at(q).paths =~= t.at(p + q).paths);
    if q.len() == 0 {
        assert(p + q =~= p);
    }
}

/// The trie after each phrase of `phrases` is added, in order.
pub open spec fn with_phrases(t: Trie, phrases: Seq<Phrase>) -> Trie
    decreases phrases.len(),
{
    if phrases.len() == 0 {
        t
    } else {
        with_phrases(t, phrases.drop_last()).with_phrase(phrases.last())
    }
}

/// A trie with no children is valid.
pub proof fn lemma_leaf_valid(name: Token)
    ensures
        Trie::leaf(name).valid(),
{
    assert forall|p: Phrase, q: Phrase| #[trigger]
        Trie::leaf(name).paths.contains(p) && #[trigger] q.is_prefix_of(p) implies Trie::leaf(
        name,
    ).paths.contains(q) by {
        assert(q =~= Seq::<Token>::empty());
    }
}

/// Adding a phrase to a valid trie gives a valid trie.
pub proof fn lemma_add_phrase_valid(t: Trie, phrase: Phrase)
    requires
        t.valid(),
    ensures
        t.with_phrase(phrase).valid(),
{
    let after = t.with_phrase(phrase);
    assert forall|p: Phrase, q: Phrase| #[trigger]
        after.paths.contains(p) && #[trigger] q.is_prefix_of(p) implies after.paths.contains(q) by {
        if t.paths.contains(p) {
            assert(t.paths.contains(q));
        } else {
            assert(q.is_prefix_of(phrase));
        }
    }
}

/// Adding a phrase twice gives the same trie as adding it once.
pub proof fn lemma_add_phrase_idempotent(t: Trie, phrase: Phrase)
    ensures
        t.with_phrase(phrase).with_phrase(phrase) == t.with_phrase(phrase),
{
    assert(t.with_phrase(phrase).with_phrase(phrase).paths =~= t.with_phrase(phrase).paths);
}

/// Adding a phrase that is already in a valid trie leaves the trie as it is.
pub proof fn lemma_add_known_phrase(t: Trie, phrase: Phrase)
    requires
        t.valid(),
        t.paths.contains(phrase),
    ensures
        t.with_phrase(phrase) == t,
{
    assert(t.with_phrase(phrase).paths =~= t.paths);
}

/// Adding the empty phrase leaves a valid trie as it is.
pub proof fn lemma_add_empty_phrase(t: Trie)
    requires
        t.valid(),
    ensures
        t.with_phrase(Seq::empty()) == t,
{
    lemma_add_known_phrase(t, Seq::empty());
}

/// Adding a phrase removes nothing and renames nothing: the name of the
/// root stays, every phrase stays, and so does every token that follows a
/// path.
pub proof fn lemma_add_phrase_monotonic(t: Trie, phrase: Phrase)
    ensures
        t.with_phrase(phrase).name == t.name,
        t.paths.subset_of(t.with_phrase(phrase).paths),
        forall|path: Phrase| #[trigger]
            t.names_after(path).subset_of(t.with_phrase(phrase).names_after(path)),
{
}

/// After a phrase is added, the phrase without its last token is a path of
/// the trie, and the last token follows it.
pub proof fn lemma_added_phrase_found(t: Trie, phrase: Phrase)
    requires
        phrase.len() > 0,
    ensures
        t.with_phrase(phrase).paths.contains(phrase.drop_last()),
        t.with_phrase(phrase).names_after(phrase.drop_last()).contains(phrase.last()),
{
    assert(phrase.drop_last().is_prefix_of(phrase));
    assert(phrase.drop_last().push(phrase.last()) =~= phrase);
    assert(phrase.is_prefix_of(phrase));
}

/// The phrases of a trie after phrases are added are those that it had and
/// the prefixes of the added phrases.
pub proof fn lemma_with_phrases(t: Trie, phrases: Seq<Phrase>, p: Phrase)
    ensures
        with_phrases(t, phrases).name == t.name,
        with_phrases(t, phrases).paths.contains(p) <==> t.paths.contains(p) || exists|i: int|
            0 <= i < phrases.len() && p.is_prefix_of(#[trigger] phrases[i]),
    decreases phrases.len(),
{
    if phrases.len() > 0 {
        let front = phrases.drop_last();
        lemma_with_phrases(t, front, p);
        if exists|i: int| 0 <= i < front.len() && p.is_prefix_of(#[trigger] front[i]) {
            let i = choose|i: int| 0 <= i < front.len() && p.is_prefix_of(#[trigger] front[i]);
            assert(p.is_prefix_of(phrases[i]));
        }
        if p.is_prefix_of(phrases.last()) {
            assert(p.is_prefix_of(phrases[phrases.len() - 1]));
        }
        if exists|i: int| 0 <= i < phrases.len() && p.is_prefix_of(#[trigger] phrases[i]) {
            let i = choose|i: int| 0 <= i < phrases.len() && p.is_prefix_of(#[trigger] phrases[i]);
            if i < front.len() {
                assert(p.is_prefix_of(front[i]));
            }
        }
    }
}

/// A path that holds, at some position, a token that no added phrase holds
/// at that position is not in a trie made of those phrases alone.
pub proof fn lemma_unseen_token_absent(name: Token, phrases: Seq<Phrase>, path: Phrase, k: int)
    requires
        0 <= k < path.len(),
        forall|i: int|
            0 <= i < phrases.len() && k < (#[trigger] phrases[i]).len() ==> phrases[i][k] != path[k],
    ensures
        !with_phrases(Trie::leaf(name), phrases).paths.contains(path),
{
    lemma_with_phrases(Trie::leaf(name), phrases, path);
}

/// A path is not in a valid trie if one of its prefixes is not.
pub proof fn lemma_absent_prefix(t: Trie, path: Phrase, k: int)
    requires
        t.valid(),
        0 <= k <= path.len(),
        !t.paths.contains(path.take(k)),
    ensures
        !t.paths.contains(path),
{
    assert(path.take(k).is_prefix_of(path));
}

/// Under a name that nothing follows lies a trie of depth 0.
pub proof fn lemma_leaf_depth(t: Trie, name: Token)
    requires
        t.valid(),
        t.paths.contains(seq![name]),
        t.names_after(seq![name]) == Set::<Token>::empty(),
    ensures
        t.at(seq![name]).has_depth(0),
        t.names_after(seq![name]).len() == 0,
{
    let below = t.at(seq![name]);
    assert(seq![name] + Seq::<Token>::empty() =~= seq![name]);
    assert(below.paths.contains(Seq::empty()));
    assert forall|p: Phrase| #[trigger] below.paths.contains(p) implies p.len() <= 0 by {
        if p.len() > 0 {
            let whole = seq![name] + p;
            assert(seq![name].push(p[0]).is_prefix_of(whole));
            assert(t.paths.contains(seq![name].push(p[0])));
            assert(t.names_after(seq![name]).contains(p[0]));
        }
    }
}

/// The trie under a name has depth 0 exactly when nothing follows the name:
/// depth counts every level below, span only the first.
pub proof fn lemma_depth_zero_iff_span_zero(t: Trie, name: Token, d: nat)
    requires
        t.valid(),
        t.paths.contains(seq![name]),
        t.at(seq![name]).has_depth(d),
    ensures
        d == 0 <==> t.names_after(seq![name]) == Set::<Token>::empty(),
{
    let below = t.at(seq![name]);
    if t.names_after(seq![name]) == Set::<Token>::empty() {
        lemma_leaf_depth(t, name);
    }
    if d == 0 {
        assert forall|u: Token| !t.names_after(seq![name]).contains(u) by {
            if t.paths.contains(seq![name].push(u)) {
                assert(seq![name] + seq![u] =~= seq![name].push(u));
                assert(below.paths.contains(seq![u]));
            }
        }
        assert(t.names_after(seq![name]) =~= Set::<Token>::empty());
    }
}

/// The name of the root of a trie built from a corpus.
pub open spec fn root_name() -> Token {
    "root"@
}

/// The words of a sentence of the corpus.
pub open spec fn words(sentence: Seq<char>) -> Phrase {
    fields(sentence, Delimiter::AsciiSpace)
}

/// `p` is a run of neighbouring words of `ws`.
pub open spec fn occurs_in(p: Phrase, ws: Phrase) -> bool {
    exists|i: int, j: int| 0 <= i <= j <= ws.len() && p == #[trigger] ws.subrange(i, j)
}

/// `p` is a run of neighbouring words of one of the first `n` sentences.
pub open spec fn occurs_among(p: Phrase, all: Seq<Seq<char>>, n: int) -> bool {
    exists|s: int| 0 <= s < n && occurs_in(p, #[trigger] words(all[s]))
}

/// The trie of a corpus: its root is named `root`, and its phrases are the
/// empty phrase and every run of neighbouring words of one sentence.
pub open spec fn corpus_trie(corpus: Seq<char>) -> Trie {
    Trie {
        name: root_name(),
        paths: Set::new(
            |p: Phrase|
                p.len() == 0 || occurs_among(p, sentences(corpus), sentences(corpus).len() as int),
        ),
    }
}

} // verus!
