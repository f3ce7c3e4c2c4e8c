//! Tokenization and reassembly around the trie: whitespace splitting,
//! sliding three-character windows, and the reverse of the windowing.

use vstd::prelude::*;
use vstd::string::StrSliceExecFns;
use vstd::string::StringExecFns;

verus! {

/// Whitespace for word splitting.
pub open spec fn is_space(c: char) -> bool {
    c == ' ' || c == '\t' || c == '\n' || c == '\r'
}

/// The complete words of `s` so far, together with the still open trailing
/// word.
pub open spec fn words_state(s: Seq<char>) -> (Seq<Seq<char>>, Seq<char>)
    decreases s.len(),
{
    if s.len() == 0 {
        (Seq::empty(), Seq::empty())
    } else {
        let ws = words_state(s.drop_last()).0;
        let cur = words_state(s.drop_last()).1;
        let c = s.last();
        if is_space(c) {
            if cur.len() > 0 {
                (ws.push(cur), Seq::<char>::empty())
            } else {
                (ws, Seq::<char>::empty())
            }
        } else {
            (ws, cur.push(c))
        }
    }
}

/// The words of `s`: its maximal runs of non-whitespace characters, in
/// order.
pub open spec fn split_words(s: Seq<char>) -> Seq<Seq<char>> {
    if words_state(s).1.len() > 0 {
        words_state(s).0.push(words_state(s).1)
    } else {
        words_state(s).0
    }
}

/// The sliding three-character windows of `s`, step one.
pub open spec fn trigrams_of(s: Seq<char>) -> Seq<Seq<char>>
    recommends
        s.len() >= 2,
{
    Seq::new((s.len() - 2) as nat, |i: int| s.subrange(i, i + 3))
}

/// The contribution of a later token to the reassembled text: its last
/// character, or nothing for an empty token.
pub open spec fn tail_part(t: Seq<char>) -> Seq<char> {
    if t.len() == 0 {
        Seq::empty()
    } else {
        seq![t.last()]
    }
}

/// The reassembled text: the first token in full, then the last character
/// of each subsequent token.
pub open spec fn merged(tris: Seq<Seq<char>>) -> Seq<char>
    decreases tris.len(),
{
    if tris.len() == 0 {
        Seq::empty()
    } else if tris.len() == 1 {
        tris[0]
    } else {
        merged(tris.drop_last()) + tail_part(tris.last())
    }
}

/// Extending the scanned text by a run of non-whitespace characters
/// extends the open word by exactly that run.
proof fn lemma_words_run(s: Seq<char>, i: int, j: int)
    requires
        0 <= i <= j <= s.len(),
        forall|t: int| i <= t < j ==> !is_space(s[t]),
    ensures
        words_state(s.subrange(0, j)).0 == words_state(s.subrange(0, i)).0,
        words_state(s.subrange(0, j)).1 == words_state(s.subrange(0, i)).1 + s.subrange(i, j),
    decreases j - i,
{
    if i == j {
        assert(s.subrange(i, j) =~= Seq::<char>::empty());
        assert(words_state(s.subrange(0, i)).1 + s.subrange(i, j) =~= words_state(
            s.subrange(0, i),
        ).1);
    } else {
        lemma_words_run(s, i, j - 1);
        assert(s.subrange(0, j).drop_last() =~= s.subrange(0, j - 1));
        assert(s.subrange(0, j).last() == s[j - 1]);
        assert(!is_space(s[j - 1]));
        assert(words_state(s.subrange(0, i)).1 + s.subrange(i, j) =~= (words_state(
            s.subrange(0, i),
        ).1 + s.subrange(i, j - 1)).push(s[j - 1]));
    }
}

/// A whitespace character closes the open word.
proof fn lemma_words_space(s: Seq<char>, i: int)
    requires
        0 <= i < s.len(),
        is_space(s[i]),
    ensures
        words_state(s.subrange(0, i + 1)).0 == if words_state(s.subrange(0, i)).1.len() > 0 {
            words_state(s.subrange(0, i)).0.push(words_state(s.subrange(0, i)).1)
        } else {
            words_state(s.subrange(0, i)).0
        },
        words_state(s.subrange(0, i + 1)).1 == Seq::<char>::empty(),
{
    assert(s.subrange(0, i + 1).drop_last() =~= s.subrange(0, i));
    assert(s.subrange(0, i + 1).last() == s[i]);
}

/// Whether `c` is whitespace.
fn is_space_char(c: char) -> (r: bool)
    ensures
        r == is_space(c),
{
    c == ' ' || c == '\t' || c == '\n' || c == '\r'
}

/// Split `text` into its whitespace-separated words, in order.
pub fn create_tokens(text: &str) -> (r: Vec<String>)
    ensures
        r.deep_view() == split_words(text@),
{
    let n = text.unicode_len();
    let mut out: Vec<String> = Vec::new();
    let mut i: usize = 0;
    while i < n
        invariant
            n == text@.len(),
            i <= n,
            (words_state(text@.subrange(0, i as int)).0 == out.deep_view() && words_state(
                text@.subrange(0, i as int),
            ).1.len() == 0) || (i == n && split_words(text@) == out.deep_view()),
        decreases n - i,
    {
        let c = text.get_char(i);
        if is_space_char(c) {
            proof {
                lemma_words_space(text@, i as int);
            }
            i += 1;
        } else {
            let mut j: usize = i + 1;
            loop
                invariant
                    n == text@.len(),
                    i < j <= n,
                    forall|t: int| i <= t < j ==> !is_space(text@[t]),
                ensures
                    i < j <= n,
                    forall|t: int| i <= t < j ==> !is_space(text@[t]),
                    j == n || is_space(text@[j as int]),
                decreases n - j,
            {
                if j == n {
                    break ;
                }
                let cj = text.get_char(j);
                if is_space_char(cj) {
                    break ;
                }
                j += 1;
            }
            let word = text.substring_char(i, j);
            out.push(word.to_owned());
            proof {
                lemma_words_run(text@, i as int, j as int);
                assert(words_state(text@.subrange(0, j as int)).1 =~= text@.subrange(
                    i as int,
                    j as int,
                ));
                assert(words_state(text@.subrange(0, j as int)).1.len() > 0);
                if j < n {
                    lemma_words_space(text@, j as int);
                } else {
                    assert(text@.subrange(0, j as int) =~= text@);
                }
            }
            if j < n {
                i = j + 1;
            } else {
                i = j;
            }
        }
    }
    proof {
        if i == n {
            assert(text@.subrange(0, i as int) =~= text@);
        }
    }
    out
}

/// Split `text` into its sliding three-character windows, step one.
pub fn split_into_trigrams(text: &str) -> (r: Vec<String>)
    requires
        text@.len() >= 2,
    ensures
        r.deep_view() == trigrams_of(text@),
{
    let n = text.unicode_len();
    let mut r: Vec<String> = Vec::new();
    let mut i: usize = 0;
    while i < n - 2
        invariant
            n == text@.len(),
            n >= 2,
            i <= n - 2,
            r@.len() == i,
            forall|t: int| 0 <= t < i ==> (#[trigger] r@[t])@ == text@.subrange(t, t + 3),
        decreases n - 2 - i,
    {
        let t = text.substring_char(i, i + 3);
        r.push(t.to_owned());
        i += 1;
    }
    proof {
        assert(r.deep_view() =~= trigrams_of(text@));
    }
    r
}

/// Reassemble a token sequence: the first token in full, then the last
/// character of each subsequent token.
pub fn merge_trigrams(trigrams: Vec<String>) -> (r: String)
    ensures
        r@ == merged(trigrams.deep_view()),
{
    let ghost dv = trigrams.deep_view();
    let mut merged_string = String::new();
    let n = trigrams.len();
    let mut i: usize = 0;
    while i < n
        invariant
            n == trigrams@.len(),
            dv == trigrams.deep_view(),
            i <= n,
            merged_string@ == merged(dv.subrange(0, i as int)),
        decreases n - i,
    {
        if i == 0 {
            merged_string.append(trigrams[i].as_str());
            proof {
                assert(dv.subrange(0, 1) =~= seq![dv[0]]);
                assert(merged(dv.subrange(0, 1)) == dv[0]);
                assert(merged(dv.subrange(0, 0)) + dv[0] =~= dv[0]);
            }
        } else {
            let m = trigrams[i].as_str().unicode_len();
            proof {
                assert(dv.subrange(0, i + 1).drop_last() =~= dv.subrange(0, i as int));
                assert(dv.subrange(0, i + 1).last() == dv[i as int]);
            }
            if m >= 1 {
                let lastc = trigrams[i].as_str().substring_char(m - 1, m);
                merged_string.append(lastc);
                proof {
                    assert(lastc@ =~= tail_part(dv[i as int]));
                }
            } else {
                proof {
                    assert(tail_part(dv[i as int]) =~= Seq::<char>::empty());
                    assert(merged_string@ + tail_part(dv[i as int]) =~= merged_string@);
                }
            }
        }
        i += 1;
    }
    proof {
        assert(dv.subrange(0, n as int) =~= dv);
    }
    merged_string
}

/// Keep only the last 50 characters of `s`; a shorter text is unchanged.
pub fn get_the_last_50_chars(s: String) -> (r: String)
    ensures
        r@ == if s@.len() <= 50 {
            s@
        } else {
            s@.subrange(s@.len() - 50, s@.len() as int)
        },
{
    let n = s.as_str().unicode_len();
    if n <= 50 {
        s
    } else {
        s.as_str().substring_char(n - 50, n).to_owned()
    }
}

/// Tokenizing a text into sliding trigrams and reassembling them — the
/// first trigram in full, then the last character of each subsequent one —
/// reproduces the text exactly.
pub proof fn lemma_trigram_round_trip(s: Seq<char>)
    requires
        s.len() >= 3,
    ensures
        merged(trigrams_of(s)) == s,
    decreases s.len(),
{
    let tris = trigrams_of(s);
    if s.len() == 3 {
        assert(tris.len() == 1);
        assert(tris[0] =~= s);
    } else {
        let s2 = s.drop_last();
        lemma_trigram_round_trip(s2);
        let tris2 = trigrams_of(s2);
        assert forall|i: int| 0 <= i < tris2.len() implies tris.drop_last()[i] == tris2[i] by {
            assert(s2.subrange(i, i + 3) =~= s.subrange(i, i + 3));
        }
        assert(tris.drop_last() =~= tris2);
        assert(tris.last() == s.subrange(s.len() - 3, s.len() as int));
        assert(tris.last().len() == 3);
        assert(tail_part(tris.last()) =~= seq![s[s.len() - 1]]);
        assert(merged(tris) == merged(tris2) + tail_part(tris.last()));
        assert(s2 + seq![s[s.len() - 1]] =~= s);
    }
}

} // verus!
