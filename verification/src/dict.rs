//! The dictionary index: the set of valid words, and the set of their
//! prefixes, by which a search can tell early that a path leads nowhere.

use crate::puzzle::Puzzle;
use crate::text::{lowercase, texts};
use vstd::hash_set::StringHashSet;
use vstd::prelude::*;

verus! {

/// `p` is a prefix that the index keeps for the word `w`: a non-empty leading
/// part of `w`, the whole of `w` included.
///
/// The empty word has no such prefix: the index keeps nothing for it.
pub open spec fn is_kept_prefix(p: Seq<char>, w: Seq<char>) -> bool {
    p.is_prefix_of(w) && p.len() > 0
}

/// The prefixes kept for one word.
pub open spec fn kept_prefixes(w: Seq<char>) -> Set<Seq<char>> {
    Set::new(|p: Seq<char>| is_kept_prefix(p, w))
}

/// The prefixes kept for a set of words: those kept for any one of them.
pub open spec fn prefix_closure(words: Set<Seq<char>>) -> Set<Seq<char>> {
    Set::new(|p: Seq<char>| exists|w: Seq<char>| words.contains(w) && is_kept_prefix(p, w))
}

/// A kept prefix of a kept prefix of `w` is a kept prefix of `w`.
pub proof fn lemma_kept_prefix_transitive(q: Seq<char>, p: Seq<char>, w: Seq<char>)
    requires
        is_kept_prefix(q, p),
        is_kept_prefix(p, w),
    ensures
        is_kept_prefix(q, w),
{
    assert(q =~= w.subrange(0, q.len() as int));
}

/// Adding a word to a set adds exactly that word's kept prefixes to the
/// prefixes of the set.
pub proof fn lemma_prefix_closure_insert(words: Set<Seq<char>>, w: Seq<char>)
    ensures
        prefix_closure(words.insert(w)) == prefix_closure(words).union(kept_prefixes(w)),
{
    let lhs = prefix_closure(words.insert(w));
    let rhs = prefix_closure(words).union(kept_prefixes(w));
    assert forall|p: Seq<char>| lhs.contains(p) == rhs.contains(p) by {
        if lhs.contains(p) {
            let v = choose|v: Seq<char>| words.insert(w).contains(v) && is_kept_prefix(p, v);
            if v != w {
                assert(words.contains(v));
            }
        }
        if rhs.contains(p) {
            if prefix_closure(words).contains(p) {
                let v = choose|v: Seq<char>| words.contains(v) && is_kept_prefix(p, v);
                assert(words.insert(w).contains(v));
            } else {
                assert(words.insert(w).contains(w));
            }
        }
    }
    assert(lhs =~= rhs);
}

/// The dictionary index: a set of words, and with each word its prefixes.
pub struct Dict {
    words: StringHashSet,
    prefix: StringHashSet,
}

impl Dict {
    /// The words of the dictionary.
    pub closed spec fn words(&self) -> Set<Seq<char>> {
        self.words@
    }

    /// The prefixes that the index holds.
    pub closed spec fn prefixes(&self) -> Set<Seq<char>> {
        self.prefix@
    }

    /// The index holds the prefixes of its words and nothing else.
    pub open spec fn wf(&self) -> bool {
        self.prefixes() == prefix_closure(self.words())
    }

    /// An empty dictionary.
    pub fn new() -> (dict: Dict)
        ensures
            dict.wf(),
            dict.words() == Set::<Seq<char>>::empty(),
    {
        let dict = Dict { words: StringHashSet::new(), prefix: StringHashSet::new() };
        assert(dict.prefixes() =~= prefix_closure(dict.words()));
        dict
    }

    /// Adds a word, and its prefixes from the longest down to the first
    /// letter, stopping at the first that the index already holds: the
    /// prefixes of that one are then all present. The empty word has no
    /// prefix, and the index of prefixes stays as it is.
    pub fn insert(&mut self, word: String)
        requires
            old(self).wf(),
        ensures
            final(self).wf(),
            final(self).words() == old(self).words().insert(word@),
    {
        let ghost w = word@;
        let ghost known = self.prefix@;
        let mut pop_word = word.clone();
        self.words.insert(word);
        proof {
            lemma_prefix_closure_insert(old(self).words@, w);
        }
        if pop_word.as_str().is_empty() {
            proof {
                assert(self.prefix@ =~= known.union(kept_prefixes(w)));
            }
            return ;
        }
        loop
            invariant_except_break
                is_kept_prefix(pop_word@, w),
                self.prefix@ == known.union(
                    Set::new(|p: Seq<char>| is_kept_prefix(p, w) && p.len() > pop_word@.len()),
                ),
            invariant
                known == prefix_closure(old(self).words@),
                self.words@ == old(self).words@.insert(w),
            ensures
                self.prefix@ == known.union(kept_prefixes(w)),
            decreases pop_word@.len(),
        {
            if self.prefix.contains(pop_word.as_str()) {
                proof {
                    let top = pop_word@;
                    assert(known.contains(top));
                    assert forall|p: Seq<char>| is_kept_prefix(p, w) && p.len() <= top.len() implies known.contains(
                        p,
                    ) by {
                        assert(p =~= top.subrange(0, p.len() as int));
                        assert(is_kept_prefix(p, top));
                        let v = choose|v: Seq<char>| old(self).words@.contains(v) && is_kept_prefix(top, v);
                        lemma_kept_prefix_transitive(p, top, v);
                    }
                    assert(self.prefix@ =~= known.union(kept_prefixes(w)));
                }
                break;
            }
            let ghost before = pop_word@;
            self.prefix.insert(pop_word.clone());
            pop_word.pop();
            proof {
                assert(pop_word@ =~= w.subrange(0, pop_word@.len() as int));
                assert forall|p: Seq<char>| is_kept_prefix(p, w) && p.len() > pop_word@.len() implies p
                    == before || p.len() > before.len() by {
                    if p.len() == before.len() {
                        assert(p =~= before);
                    }
                }
            }
            if pop_word.as_str().is_empty() {
                proof {
                    assert forall|p: Seq<char>| is_kept_prefix(p, w) implies p == before || p.len()
                        > before.len() by {
                        if p.len() <= before.len() {
                            assert(p =~= before);
                        }
                    }
                    assert(self.prefix@ =~= known.union(kept_prefixes(w)));
                }
                break;
            }
            proof {
                assert(self.prefix@ =~= known.union(
                    Set::new(|p: Seq<char>| is_kept_prefix(p, w) && p.len() > pop_word@.len()),
                ));
            }
        }
    }

    /// Whether `word` is a word of the dictionary.
    pub fn contains(&self, word: &String) -> (found: bool)
        ensures
            found == self.words().contains(word@),
    {
        self.words.contains(word.as_str())
    }

    /// Whether `prefix` is among the prefixes of the dictionary's words.
    pub fn is_prefix(&self, prefix: &String) -> (found: bool)
        ensures
            found == self.prefixes().contains(prefix@),
    {
        self.prefix.contains(prefix.as_str())
    }
}

/// The least number of letters of a word that counts.
pub const MIN_WORD_LEN: usize = 3;

/// A word that can count on a grid with the given characters: it has at least
/// `MIN_WORD_LEN` letters, and each of them occurs in the grid.
pub open spec fn is_playable(word: Seq<char>, alphabet: Set<char>) -> bool {
    &&& word.len() >= MIN_WORD_LEN
    &&& forall|i: int| 0 <= i < word.len() ==> alphabet.contains(#[trigger] word[i])
}

/// The words that a list of candidates gives for a grid with the given
/// characters: the lowercase forms of the candidates, as far as they are
/// playable.
pub open spec fn accepted_words(candidates: Seq<Seq<char>>, alphabet: Set<char>) -> Set<Seq<char>> {
    Set::new(
        |w: Seq<char>|
            is_playable(w, alphabet) && exists|i: int|
                0 <= i < candidates.len() && lowercase(#[trigger] candidates[i]) == w,
    )
}

/// Builder for the dictionary: the candidate words, in any case and of any
/// length, as they were read.
pub struct DictBuilder {
    words: Vec<String>,
}

impl DictBuilder {
    /// The candidate words.
    pub closed spec fn candidates(&self) -> Seq<Seq<char>> {
        texts(self.words@)
    }

    /// A builder over the given candidate words.
    pub fn new(words: Vec<String>) -> (builder: DictBuilder)
        ensures
            builder.candidates() == texts(words@),
    {
        DictBuilder { words }
    }

    /// Whether a word in lowercase can count on the grid of `puzzle`: whether
    /// it is long enough and made of letters of the grid.
    pub fn accepts(word: &str, puzzle: &Puzzle) -> (accepted: bool)
        requires
            puzzle.wf(),
        ensures
            accepted == is_playable(word@, puzzle.alphabet()),
    {
        // minimum of 3 letter word
        if word.unicode_len() < MIN_WORD_LEN {
            return false;
        }
        // all letter should be contained in the puzzle

        for c in it: word.chars()
            invariant
                puzzle.wf(),
                it.seq() == word@,
                forall|i: int| 0 <= i < it.index() ==> puzzle.alphabet().contains(#[trigger] word@[i]),
        {
            if !puzzle.contains(c) {
                assert(!puzzle.alphabet().contains(word@[it.index()]));
                return false;
            }
        }
        true
    }

    /// Filter the dictionary to only contains valid words: the index of the
    /// candidates that can count on the grid of `puzzle`, in lowercase.
    pub fn filter(self, puzzle: &Puzzle) -> (dict: Dict)
        requires
            puzzle.wf(),
        ensures
            dict.wf(),
            dict.words() == accepted_words(self.candidates(), puzzle.alphabet()),
    {
        let ghost candidates = self.candidates();
        let ghost alphabet = puzzle.alphabet();
        let mut filtered = Dict::new();
        proof {
            assert(filtered.words() =~= accepted_words(candidates.take(0), alphabet));
        }
        let mut i: usize = 0;
        while i < self.words.len()
            invariant
                puzzle.wf(),
                0 <= i <= self.words.len(),
                candidates == texts(self.words@),
                alphabet == puzzle.alphabet(),
                filtered.wf(),
                filtered.words() == accepted_words(candidates.take(i as int), alphabet),
            decreases self.words.len() - i,
        {
            // only use lowercase char
            let word = self.words[i].as_str().to_ascii_lowercase();
            let ghost w = word@;
            let ghost sooner = candidates.take(i as int);
            let ghost later = candidates.take(i as int + 1);
            let ghost words_before = filtered.words();
            assert(w == lowercase(candidates[i as int]));
            if Self::accepts(word.as_str(), puzzle) {
                filtered.insert(word);
            }
            proof {
                assert forall|x: Seq<char>| filtered.words().contains(x) <==> accepted_words(
                    later,
                    alphabet,
                ).contains(x) by {
                    if words_before.contains(x) {
                        let k = choose|k: int| 0 <= k < sooner.len() && lowercase(#[trigger] sooner[k]) == x;
                        assert(lowercase(later[k]) == x);
                    }
                    if is_playable(w, alphabet) && x == w {
                        assert(lowercase(later[i as int]) == x);
                    }
                    if accepted_words(later, alphabet).contains(x) {
                        let k = choose|k: int| 0 <= k < later.len() && lowercase(#[trigger] later[k]) == x;
                        if k < i {
                            assert(lowercase(sooner[k]) == x);
                        }
                    }
                }
                assert(filtered.words() =~= accepted_words(later, alphabet));
            }
            i += 1;
        }
        proof {
            assert(candidates.take(i as int) =~= candidates);
        }
        filtered
    }
}

} // verus!
