//! Splitting text into sentences and words, and enumerating suffixes.

use vstd::prelude::*;
use vstd::string::StringExecFns;

verus! {

/// What separates the fields of a text.
#[derive(Clone, Copy, Debug)]
pub enum Delimiter {
    /// One of `.`, `!`, `?` and `;`, which end a sentence.
    SentenceEnd,
    /// Space, tab, line feed, form feed or carriage return.
    AsciiSpace,
}

impl Delimiter {
    /// Whether `c` is a delimiter of this kind.
    pub open spec fn holds(self, c: char) -> bool {
        match self {
            Delimiter::SentenceEnd => c == '.' || c == '!' || c == '?' || c == ';',
            Delimiter::AsciiSpace => c == ' ' || c == '\t' || c == '\n' || c == '\x0C' || c == '\r',
        }
    }

    /// Decides whether `c` is a delimiter of this kind.
    pub fn separates(self, c: char) -> (r: bool)
        ensures
            r == self.holds(c),
    {
        match self {
            Delimiter::SentenceEnd => c == '.' || c == '!' || c == '?' || c == ';',
            Delimiter::AsciiSpace => c == ' ' || c == '\t' || c == '\n' || c == '\x0C' || c == '\r',
        }
    }
}

/// The runs of `s` between delimiters, empty runs included: one more run
/// than `s` holds delimiters.
pub open spec fn pieces(s: Seq<char>, by: Delimiter) -> Seq<Seq<char>>
    decreases s.len(),
{
    if s.len() == 0 {
        seq![Seq::empty()]
    } else if by.holds(s.last()) {
        pieces(s.drop_last(), by).push(Seq::empty())
    } else {
        let before = pieces(s.drop_last(), by);
        before.drop_last().push(before.last().push(s.last()))
    }
}

/// The test that a run holds at least one character.
pub open spec fn nonempty() -> spec_fn(Seq<char>) -> bool {
    |p: Seq<char>| p.len() > 0
}

/// The non-empty runs of `s` between delimiters, in order.
pub open spec fn fields(s: Seq<char>, by: Delimiter) -> Seq<Seq<char>> {
    pieces(s, by).filter(nonempty())
}

/// The non-empty runs of `chars` between delimiters of kind `by`, in order.
pub fn split_fields(chars: &Vec<char>, by: Delimiter) -> (out: Vec<Vec<char>>)
    ensures
        out.deep_view() == fields(chars@, by),
{
    let mut out: Vec<Vec<char>> = Vec::new();
    let mut run: Vec<char> = Vec::new();
    let mut i: usize = 0;
    proof {
        assert(chars@.take(0) =~= Seq::<char>::empty());
        assert(pieces(chars@.take(0), by).drop_last() =~= Seq::<Seq<char>>::empty());
        reveal(Seq::filter);
        assert(out.deep_view() =~= pieces(chars@.take(0), by).drop_last().filter(nonempty()));
    }
    while i < chars.len()
        invariant
            i <= chars.len(),
            pieces(chars@.take(i as int), by).len() > 0,
            out.deep_view() == pieces(chars@.take(i as int), by).drop_last().filter(nonempty()),
            run.deep_view() == pieces(chars@.take(i as int), by).last(),
        decreases chars.len() - i,
    {
        let c = chars[i];
        let ghost before = pieces(chars@.take(i as int), by);
        let ghost done = out.deep_view();
        proof {
            assert(chars@.take(i + 1).drop_last() =~= chars@.take(i as int));
            assert(chars@.take(i + 1).last() == c);
            assert(before =~= before.drop_last().push(before.last()));
            before.drop_last().lemma_filter_push(before.last(), nonempty());
        }
        if by.separates(c) {
            if run.len() > 0 {
                out.push(run);
                proof {
                    assert(out.deep_view() =~= done.push(before.last()));
                }
            }
            run = Vec::new();
            proof {
                let now = pieces(chars@.take(i + 1), by);
                assert(now == before.push(Seq::empty()));
                assert(now.drop_last() =~= before);
                assert(run.deep_view() =~= now.last());
            }
        } else {
            let ghost old_run = run.deep_view();
            run.push(c);
            proof {
                let now = pieces(chars@.take(i + 1), by);
                assert(now.drop_last() =~= before.drop_last());
                assert(run.deep_view() =~= old_run.push(c));
            }
        }
        i += 1;
    }
    proof {
        assert(chars@.take(i as int) =~= chars@);
        let all = pieces(chars@, by);
        assert(all =~= all.drop_last().push(all.last()));
        all.drop_last().lemma_filter_push(all.last(), nonempty());
    }
    let ghost done = out.deep_view();
    if run.len() > 0 {
        out.push(run);
        proof {
            assert(out.deep_view() =~= done.push(pieces(chars@, by).last()));
        }
    }
    out
}

/// Whether Unicode counts `c` as `Alphabetic`.
pub uninterp spec fn alphabetic(c: char) -> bool;

/// Whether Unicode counts `c` as `White_Space`.
pub uninterp spec fn whitespace(c: char) -> bool;

/// The lowercase form of the text `s` under Unicode's case mapping.
pub uninterp spec fn lowercase(s: Seq<char>) -> Seq<char>;

/// `char::is_alphabetic` tells whether Unicode counts a character as
/// `Alphabetic`. The answer depends on the character alone; it is named
/// `alphabetic` here and nothing more is claimed of it.
pub assume_specification[ char::is_alphabetic ](c: char) -> (b: bool)
    ensures
        b == alphabetic(c),
;

/// `char::is_whitespace` tells whether Unicode counts a character as
/// `White_Space`. The answer depends on the character alone; it is named
/// `whitespace` here and nothing more is claimed of it.
pub assume_specification[ char::is_whitespace ](c: char) -> (b: bool)
    ensures
        b == whitespace(c),
;

/// `str::to_lowercase` returns the lowercase form of a text under
/// Unicode's case mapping. The result depends on the text alone; it is
/// named `lowercase` here and nothing more is claimed of it.
pub assume_specification[ str::to_lowercase ](s: &str) -> (r: String)
    ensures
        r@ == lowercase(s@),
;

/// `String::push` appends one character to the end of a string.
pub assume_specification[ String::push ](s: &mut String, c: char)
    ensures
        final(s)@ == old(s)@.push(c),
;

/// The characters of `s`, in order.
pub fn chars_of(s: &str) -> (v: Vec<char>)
    ensures
        v@ == s@,
{
    let mut v: Vec<char> = Vec::new();
    for c in it: s.chars()
        invariant
            v@ == it.seq().take(it.index()),
            it.seq() == s@,
    {
        v.push(c);
        assert(v@ =~= it.seq().take(it.index() + 1));
    }
    assert(v@ =~= s@);
    v
}

/// The string that holds the characters of `chars`, in order.
pub fn string_of(chars: &Vec<char>) -> (s: String)
    ensures
        s@ == chars@,
{
    let mut s = String::new();
    let mut i: usize = 0;
    while i < chars.len()
        invariant
            i <= chars.len(),
            s@ == chars@.take(i as int),
        decreases chars.len() - i,
    {
        s.push(chars[i]);
        i += 1;
        assert(s@ =~= chars@.take(i as int));
    }
    assert(chars@.take(i as int) =~= chars@);
    s
}

/// `s` without the whitespace at its start.
pub open spec fn trimmed_start(s: Seq<char>) -> Seq<char>
    decreases s.len(),
{
    if s.len() > 0 && whitespace(s.first()) {
        trimmed_start(s.drop_first())
    } else {
        s
    }
}

/// `s` without the whitespace at its end.
pub open spec fn trimmed_end(s: Seq<char>) -> Seq<char>
    decreases s.len(),
{
    if s.len() > 0 && whitespace(s.last()) {
        trimmed_end(s.drop_last())
    } else {
        s
    }
}

/// `s` without the whitespace at its start and at its end.
pub open spec fn trimmed(s: Seq<char>) -> Seq<char> {
    trimmed_end(trimmed_start(s))
}

/// Where the text of `chars` begins once the whitespace at its start is
/// left out.
fn start_of_text(chars: &Vec<char>) -> (lo: usize)
    ensures
        lo <= chars.len(),
        trimmed_start(chars@) == chars@.skip(lo as int),
{
    let mut lo: usize = 0;
    proof {
        assert(chars@.skip(0) =~= chars@);
    }
    while lo < chars.len() && chars[lo].is_whitespace()
        invariant
            lo <= chars.len(),
            trimmed_start(chars@) == trimmed_start(chars@.skip(lo as int)),
        decreases chars.len() - lo,
    {
        proof {
            let tail = chars@.skip(lo as int);
            assert(tail.first() == chars[lo as int]);
            assert(tail.drop_first() =~= chars@.skip(lo + 1));
        }
        lo += 1;
    }
    proof {
        let tail = chars@.skip(lo as int);
        if lo < chars.len() {
            assert(tail.first() == chars[lo as int]);
        }
    }
    lo
}

/// Where the text of `chars` from `lo` on ends once the whitespace at its
/// end is left out.
fn end_of_text(chars: &Vec<char>, lo: usize) -> (hi: usize)
    requires
        lo <= chars.len(),
    ensures
        lo <= hi <= chars.len(),
        trimmed_end(chars@.skip(lo as int)) == chars@.subrange(lo as int, hi as int),
{
    let mut hi: usize = chars.len();
    proof {
        assert(chars@.skip(lo as int) =~= chars@.subrange(lo as int, hi as int));
    }
    while hi > lo && chars[hi - 1].is_whitespace()
        invariant
            lo <= hi <= chars.len(),
            trimmed_end(chars@.skip(lo as int)) == trimmed_end(chars@.subrange(lo as int, hi as int)),
        decreases hi,
    {
        proof {
            let head = chars@.subrange(lo as int, hi as int);
            assert(head.last() == chars[hi - 1]);
            assert(head.drop_last() =~= chars@.subrange(lo as int, hi - 1));
        }
        hi -= 1;
    }
    proof {
        let head = chars@.subrange(lo as int, hi as int);
        if hi > lo {
            assert(head.last() == chars[hi - 1]);
        }
    }
    hi
}

/// `chars` without the whitespace at its start and at its end.
pub fn trim(chars: &Vec<char>) -> (out: Vec<char>)
    ensures
        out@ == trimmed(chars@),
{
    let lo = start_of_text(chars);
    let hi = end_of_text(chars, lo);
    let mut out: Vec<char> = Vec::new();
    let mut i: usize = lo;
    while i < hi
        invariant
            lo <= i <= hi <= chars.len(),
            out@ == chars@.subrange(lo as int, i as int),
        decreases hi - i,
    {
        out.push(chars[i]);
        i += 1;
        assert(out@ =~= chars@.subrange(lo as int, i as int));
    }
    out
}

/// The test that a character is alphabetic.
pub open spec fn is_letter() -> spec_fn(char) -> bool {
    |c: char| alphabetic(c)
}

/// A word as a sentence keeps it: its alphabetic characters, in lowercase.
pub open spec fn normalized(word: Seq<char>) -> Seq<char> {
    lowercase(word.filter(is_letter()))
}

/// The alphabetic characters of `word`, in lowercase.
pub fn normalize_word(word: &Vec<char>) -> (out: String)
    ensures
        out@ == normalized(word@),
{
    let mut letters = String::new();
    let mut i: usize = 0;
    proof {
        reveal(Seq::filter);
        assert(word@.take(0).filter(is_letter()) =~= Seq::<char>::empty());
    }
    while i < word.len()
        invariant
            i <= word.len(),
            letters@ == word@.take(i as int).filter(is_letter()),
        decreases word.len() - i,
    {
        let c = word[i];
        proof {
            assert(word@.take(i + 1) =~= word@.take(i as int).push(c));
            word@.take(i as int).lemma_filter_push(c, is_letter());
        }
        if c.is_alphabetic() {
            letters.push(c);
        }
        i += 1;
    }
    proof {
        assert(word@.take(i as int) =~= word@);
    }
    letters.as_str().to_lowercase()
}

/// The words of `words` in one text, with a single space between
/// neighbours.
pub open spec fn joined(words: Seq<Seq<char>>) -> Seq<char>
    decreases words.len(),
{
    if words.len() == 0 {
        Seq::empty()
    } else if words.len() == 1 {
        words[0]
    } else {
        joined(words.drop_last()) + seq![' '] + words.last()
    }
}

/// Joins `words` with single spaces.
pub fn join_words(words: &Vec<String>) -> (out: String)
    ensures
        out@ == joined(words.deep_view()),
{
    let mut out = String::new();
    let mut i: usize = 0;
    let ghost all = words.deep_view();
    while i < words.len()
        invariant
            i <= words.len(),
            all == words.deep_view(),
            out@ == joined(all.take(i as int)),
        decreases words.len() - i,
    {
        proof {
            assert(all.take(i + 1).drop_last() =~= all.take(i as int));
            assert(all.take(i + 1).last() == words[i as int]@);
        }
        if i > 0 {
            out.push(' ');
            proof {
                assert(out@ =~= joined(all.take(i as int)) + seq![' ']);
            }
        } else {
            proof {
                assert(out@ + words[i as int]@ =~= words[i as int]@);
            }
        }
        out.append(words[i].as_str());
        i += 1;
    }
    proof {
        assert(all.take(i as int) =~= all);
    }
    out
}

/// A sentence as the corpus keeps it: the words of the trimmed segment,
/// each normalized, joined with single spaces.
pub open spec fn cleaned(segment: Seq<char>) -> Seq<char> {
    joined(fields(trimmed(segment), Delimiter::AsciiSpace).map_values(|w: Seq<char>| normalized(w)))
}

/// The sentences of a corpus: its non-empty segments between `.`, `!`, `?`
/// and `;`, each cleaned.
pub open spec fn sentences(corpus: Seq<char>) -> Seq<Seq<char>> {
    fields(corpus, Delimiter::SentenceEnd).map_values(|segment: Seq<char>| cleaned(segment))
}

/// Cleans one segment of a corpus.
pub fn clean_segment(segment: &Vec<char>) -> (out: String)
    ensures
        out@ == cleaned(segment@),
{
    let text = trim(segment);
    let raw = split_fields(&text, Delimiter::AsciiSpace);
    let mut words: Vec<String> = Vec::new();
    let mut i: usize = 0;
    let ghost want = fields(trimmed(segment@), Delimiter::AsciiSpace);
    while i < raw.len()
        invariant
            i <= raw.len(),
            raw.deep_view() == want,
            words.len() == i,
            forall|k: int| 0 <= k < i ==> (#[trigger] words[k])@ == normalized(want[k]),
        decreases raw.len() - i,
    {
        proof {
            assert(raw.deep_view()[i as int] == want[i as int]);
            assert(raw[i as int].deep_view() =~= raw[i as int]@);
        }
        words.push(normalize_word(&raw[i]));
        i += 1;
    }
    proof {
        assert(words.deep_view() =~= want.map_values(|w: Seq<char>| normalized(w)));
    }
    join_words(&words)
}

/// Splits a sentence into its words: the non-empty runs between ASCII
/// whitespace.
pub fn split_sentence(sentence: String) -> (words: Vec<String>)
    ensures
        words.deep_view() == fields(sentence@, Delimiter::AsciiSpace),
{
    let chars = chars_of(sentence.as_str());
    let raw = split_fields(&chars, Delimiter::AsciiSpace);
    let mut words: Vec<String> = Vec::new();
    let mut i: usize = 0;
    while i < raw.len()
        invariant
            i <= raw.len(),
            words.len() == i,
            forall|k: int| 0 <= k < i ==> (#[trigger] words[k])@ == raw[k]@,
        decreases raw.len() - i,
    {
        words.push(string_of(&raw[i]));
        i += 1;
    }
    proof {
        assert forall|k: int| 0 <= k < raw.len() implies words.deep_view()[k] == raw.deep_view()[k] by {
            assert(raw[k].deep_view() =~= raw[k]@);
        }
        assert(words.deep_view() =~= raw.deep_view());
    }
    words
}

/// Splits a corpus into its sentences, each cleaned: split at `.`, `!`, `?`
/// and `;`, empty segments dropped, the rest trimmed, their words reduced
/// to lowercase letters and joined with single spaces.
pub fn split_corpus(x: String) -> (out: Vec<String>)
    ensures
        out.deep_view() == sentences(x@),
{
    let chars = chars_of(x.as_str());
    let segments = split_fields(&chars, Delimiter::SentenceEnd);
    let mut out: Vec<String> = Vec::new();
    let mut i: usize = 0;
    let ghost want = fields(x@, Delimiter::SentenceEnd);
    while i < segments.len()
        invariant
            i <= segments.len(),
            segments.deep_view() == want,
            out.len() == i,
            forall|k: int| 0 <= k < i ==> (#[trigger] out[k])@ == cleaned(want[k]),
        decreases segments.len() - i,
    {
        proof {
            assert(segments.deep_view()[i as int] == want[i as int]);
            assert(segments[i as int].deep_view() =~= segments[i as int]@);
        }
        out.push(clean_segment(&segments[i]));
        i += 1;
    }
    proof {
        assert(out.deep_view() =~= want.map_values(|segment: Seq<char>| cleaned(segment)));
    }
    out
}

/// Every non-empty suffix of `xs`, longest first: entry `i` is `xs` without
/// its first `i` tokens.
pub fn suffixes(xs: Vec<String>) -> (acc: Vec<Vec<String>>)
    ensures
        acc.deep_view() == Seq::new(xs.len() as nat, |i: int| xs.deep_view().skip(i)),
{
    let mut acc: Vec<Vec<String>> = Vec::new();
    let n: usize = xs.len();
    let mut i: usize = 0;
    while i < n
        invariant
            n == xs.len(),
            i <= n,
            acc.len() == i,
            forall|k: int| 0 <= k < i ==> #[trigger] acc[k]@ == xs@.skip(k),
        decreases n - i,
    {
        let mut sliced: Vec<String> = Vec::new();
        let mut j: usize = i;
        while j < n
            invariant
                n == xs.len(),
                i <= j <= n,
                sliced@ == xs@.subrange(i as int, j as int),
            decreases n - j,
        {
            sliced.push(xs[j].clone());
            j += 1;
            assert(sliced@ =~= xs@.subrange(i as int, j as int));
        }
        assert(sliced@ =~= xs@.skip(i as int));
        acc.push(sliced);
        i += 1;
    }
    proof {
        let want = Seq::new(xs.len() as nat, |i: int| xs.deep_view().skip(i));
        assert forall|k: int| 0 <= k < acc.len() implies acc.deep_view()[k] =~= want[k] by {
            assert(acc[k]@ == xs@.skip(k));
        }
        assert(acc.deep_view() =~= want);
    }
    acc
}

} // verus!
