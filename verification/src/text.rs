//! Words as sequences of characters: ASCII lowercasing, the dictionary order,
//! and the few operations on `String` that the rest of the crate builds on.

use vstd::prelude::*;
use vstd::std_specs::iter::IteratorSpec;

verus! {

/// The ASCII lowercase form of a character: `'A'..='Z'` move to `'a'..='z'`,
/// every other character stays as it is.
pub open spec fn ascii_lower(c: char) -> char {
    if 'A' <= c && c <= 'Z' {
        ((c as u32) + 32) as char
    } else {
        c
    }
}

/// A word with every character replaced by its ASCII lowercase form.
pub open spec fn lowercase(s: Seq<char>) -> Seq<char> {
    Seq::new(s.len(), |i: int| ascii_lower(s[i]))
}

/// The views of a sequence of strings, in the same order.
pub open spec fn texts(words: Seq<String>) -> Seq<Seq<char>> {
    Seq::new(words.len(), |i: int| words[i]@)
}

/// Trusted: `String::push` appends the one character to the end of the string
/// and changes nothing else.
pub assume_specification[ String::push ](s: &mut String, ch: char)
    ensures
        final(s)@ == old(s)@.push(ch),
;

/// Trusted: `String::pop` removes the last character and returns it; on an
/// empty string it returns `None` and leaves the string empty.
pub assume_specification[ String::pop ](s: &mut String) -> (last: Option<char>)
    ensures
        match last {
            Some(c) => old(s)@.len() > 0 && c == old(s)@.last() && final(s)@ == old(s)@.drop_last(),
            None => old(s)@.len() == 0 && final(s)@ == old(s)@,
        },
;

/// Trusted: `str::to_ascii_lowercase` returns a copy of the string in which
/// each of `'A'..='Z'` is replaced by its lowercase letter and every other
/// character is unchanged.
pub assume_specification[ str::to_ascii_lowercase ](s: &str) -> (lower: String)
    ensures
        lower@ == lowercase(s@),
;

/// `a` and `b` hold the same characters at every position below `k`.
pub open spec fn agree_below(a: Seq<char>, b: Seq<char>, k: int) -> bool {
    forall|i: int| 0 <= i < k ==> a[i] == b[i]
}

/// Position `k` decides that `a` comes before `b`: the two agree below `k`,
/// and at `k` either `a` has ended while `b` goes on, or `a` holds the
/// smaller character.
pub open spec fn precedes_at(a: Seq<char>, b: Seq<char>, k: int) -> bool {
    &&& 0 <= k <= a.len()
    &&& k < b.len()
    &&& agree_below(a, b, k)
    &&& k < a.len() ==> a[k] < b[k]
}

/// The dictionary (lexicographic) order on words, by character code: the
/// order in which `String` values compare.
pub open spec fn lex_lt(a: Seq<char>, b: Seq<char>) -> bool {
    exists|k: int| precedes_at(a, b, k)
}

/// Every word comes strictly before each word after it. Such a sequence
/// holds no word twice.
pub open spec fn strictly_sorted(words: Seq<Seq<char>>) -> bool {
    forall|i: int, j: int| 0 <= i < j < words.len() ==> lex_lt(words[i], words[j])
}

/// No word comes before itself.
pub proof fn lemma_lex_lt_irreflexive(a: Seq<char>)
    ensures
        !lex_lt(a, a),
{
}

/// The dictionary order is transitive.
pub proof fn lemma_lex_lt_transitive(a: Seq<char>, b: Seq<char>, c: Seq<char>)
    requires
        lex_lt(a, b),
        lex_lt(b, c),
    ensures
        lex_lt(a, c),
{
    let k1 = choose|k: int| precedes_at(a, b, k);
    let k2 = choose|k: int| precedes_at(b, c, k);
    if k1 <= k2 {
        assert(precedes_at(a, c, k1));
    } else {
        assert(precedes_at(a, c, k2));
    }
}

/// Of two words, at most one comes before the other.
pub proof fn lemma_lex_lt_asymmetric(a: Seq<char>, b: Seq<char>)
    requires
        lex_lt(a, b),
    ensures
        !lex_lt(b, a),
{
    if lex_lt(b, a) {
        lemma_lex_lt_transitive(a, b, a);
        lemma_lex_lt_irreflexive(a);
    }
}

proof fn lemma_lex_lt_total_from(a: Seq<char>, b: Seq<char>, k: int)
    requires
        0 <= k <= a.len(),
        k <= b.len(),
        agree_below(a, b, k),
        a != b,
    ensures
        lex_lt(a, b) || lex_lt(b, a),
    decreases a.len() - k,
{
    if k == a.len() {
        if k == b.len() {
            assert(a =~= b);
        } else {
            assert(precedes_at(a, b, k));
        }
    } else if k == b.len() {
        assert(precedes_at(b, a, k));
    } else if a[k] != b[k] {
        if a[k] < b[k] {
            assert(precedes_at(a, b, k));
        } else {
            assert(precedes_at(b, a, k));
        }
    } else {
        lemma_lex_lt_total_from(a, b, k + 1);
    }
}

/// Two different words are ordered one way or the other.
pub proof fn lemma_lex_lt_total(a: Seq<char>, b: Seq<char>)
    requires
        a != b,
    ensures
        lex_lt(a, b) || lex_lt(b, a),
{
    lemma_lex_lt_total_from(a, b, 0);
}

/// A strictly sorted sequence holds no word twice.
pub proof fn lemma_strictly_sorted_no_duplicates(words: Seq<Seq<char>>)
    requires
        strictly_sorted(words),
    ensures
        words.no_duplicates(),
{
    assert forall|i: int, j: int| 0 <= i < words.len() && 0 <= j < words.len() && i != j implies words[i]
        != words[j] by {
        lemma_lex_lt_irreflexive(words[i]);
        if i < j {
            assert(lex_lt(words[i], words[j]));
        } else {
            assert(lex_lt(words[j], words[i]));
        }
    }
}

/// Two strictly sorted sequences that hold the same words are the same
/// sequence: sorting leaves no freedom in how a set of words is listed.
pub proof fn lemma_strictly_sorted_unique(s: Seq<Seq<char>>, t: Seq<Seq<char>>)
    requires
        strictly_sorted(s),
        strictly_sorted(t),
        s.to_set() == t.to_set(),
    ensures
        s == t,
    decreases s.len(),
{
    if s.len() == 0 {
        if t.len() > 0 {
            assert(t.to_set().contains(t[0]));
            assert(s.to_set().contains(t[0]));
        }
        assert(s =~= t);
    } else if t.len() == 0 {
        assert(s.to_set().contains(s[0]));
        assert(t.to_set().contains(s[0]));
    } else {
        let x = s.last();
        let y = t.last();
        assert(s.to_set().contains(x));
        assert(t.to_set().contains(x));
        assert(t.to_set().contains(y));
        assert(s.to_set().contains(y));
        let i = choose|i: int| 0 <= i < s.len() && s[i] == y;
        let j = choose|j: int| 0 <= j < t.len() && t[j] == x;
        if x != y {
            // y sits strictly before x in s, and x strictly before y in t
            assert(i < s.len() - 1);
            assert(j < t.len() - 1);
            assert(lex_lt(s[i], s[s.len() - 1]));
            assert(lex_lt(t[j], t[t.len() - 1]));
            lemma_lex_lt_asymmetric(y, x);
        }
        let s0 = s.drop_last();
        let t0 = t.drop_last();
        lemma_strictly_sorted_no_duplicates(s);
        lemma_strictly_sorted_no_duplicates(t);
        assert forall|w: Seq<char>| s0.to_set().contains(w) == t0.to_set().contains(w) by {
            if s0.to_set().contains(w) {
                let p = choose|p: int| 0 <= p < s0.len() && s0[p] == w;
                assert(s[p] == w);
                assert(w != x);
                assert(s.to_set().contains(w));
                assert(t.to_set().contains(w));
                let q = choose|q: int| 0 <= q < t.len() && t[q] == w;
                assert(q < t.len() - 1);
                assert(t0[q] == w);
            }
            if t0.to_set().contains(w) {
                let q = choose|q: int| 0 <= q < t0.len() && t0[q] == w;
                assert(t[q] == w);
                assert(w != y);
                assert(t.to_set().contains(w));
                assert(s.to_set().contains(w));
                let p = choose|p: int| 0 <= p < s.len() && s[p] == w;
                assert(p < s.len() - 1);
                assert(s0[p] == w);
            }
        }
        assert(s0.to_set() =~= t0.to_set());
        assert(strictly_sorted(s0)) by {
            assert forall|a: int, b: int| 0 <= a < b < s0.len() implies lex_lt(s0[a], s0[b]) by {
                assert(lex_lt(s[a], s[b]));
            }
        }
        assert(strictly_sorted(t0)) by {
            assert forall|a: int, b: int| 0 <= a < b < t0.len() implies lex_lt(t0[a], t0[b]) by {
                assert(lex_lt(t[a], t[b]));
            }
        }
        lemma_strictly_sorted_unique(s0, t0);
        assert(s =~= s0.push(x));
        assert(t =~= t0.push(y));
    }
}

/// Whether `a` comes strictly before `b` in the dictionary order.
pub fn lex_less(a: &str, b: &str) -> (less: bool)
    ensures
        less == lex_lt(a@, b@),
{
    let mut rest_a = a.chars();
    let mut rest_b = b.chars();
    let ghost mut n: int = 0;
    loop
        invariant
            0 <= n <= a@.len(),
            n <= b@.len(),
            rest_a.remaining() == a@.skip(n),
            rest_b.remaining() == b@.skip(n),
            agree_below(a@, b@, n),
            rest_a.decrease() is Some,
        decreases rest_a.decrease()->0,
    {
        let next_a = rest_a.next();
        let next_b = rest_b.next();
        match (next_a, next_b) {
            (Some(x), Some(y)) => {
                if x != y {
                    proof {
                        if x < y {
                            assert(precedes_at(a@, b@, n));
                        } else {
                            assert(precedes_at(b@, a@, n));
                            lemma_lex_lt_asymmetric(b@, a@);
                        }
                    }
                    return x < y;
                }
                proof {
                    assert(a@.skip(n).drop_first() =~= a@.skip(n + 1));
                    assert(b@.skip(n).drop_first() =~= b@.skip(n + 1));
                    n = n + 1;
                }
            },
            (None, Some(_)) => {
                proof {
                    assert(precedes_at(a@, b@, n));
                }
                return true;
            },
            (Some(_), None) => {
                proof {
                    assert(precedes_at(b@, a@, n));
                    lemma_lex_lt_asymmetric(b@, a@);
                }
                return false;
            },
            (None, None) => {
                proof {
                    assert(a@ =~= b@);
                    lemma_lex_lt_irreflexive(a@);
                }
                return false;
            },
        }
    }
}

} // verus!
