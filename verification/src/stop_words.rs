use vstd::prelude::*;

verus! {

/// The character sequences of a list of strings.
pub open spec fn views_of_strings(ws: Seq<String>) -> Seq<Seq<char>> {
    ws.map(|k: int, w: String| w@)
}

/// The set of canonical keywords excluded from indexing.  The list is a
/// precomputed input: the caller hands the words over already in the
/// canonical (uppercased) form that the pipeline produces.
pub struct StopWords {
    words: Vec<String>,
}

impl StopWords {
    /// The excluded words, as character sequences.
    pub closed spec fn spec_words(self) -> Seq<Seq<char>> {
        views_of_strings(self.words@)
    }

    pub fn new(words: Vec<String>) -> (r: Self)
        ensures
            r.spec_words() == views_of_strings(words@),
    {
        Self { words }
    }

    /// Whether `word` is one of the excluded words.
    pub fn is_stop_word(&self, word: &String) -> (r: bool)
        ensures
            r == self.spec_words().contains(word@),
    {
        let n: usize = self.words.len();
        let mut i: usize = 0;
        while i < n
            invariant
                n == self.words@.len(),
                i <= n,
                forall|k: int| 0 <= k < i ==> self.spec_words()[k] != word@,
            decreases n - i,
        {
            proof {
                assert(self.spec_words()[i as int] == self.words@[i as int]@);
            }
            if self.words[i].eq(word) {
                proof {
                    assert(self.spec_words().contains(word@)) by {
                        assert(self.spec_words()[i as int] == word@);
                    }
                }
                return true;
            }
            i = i + 1;
        }
        proof {
            assert(forall|k: int| 0 <= k < n ==> self.spec_words()[k] != word@);
        }
        false
    }
}

} // verus!
