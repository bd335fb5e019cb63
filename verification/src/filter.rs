//! Sorting a stream of words into what is kept and what is dropped.

use vstd::prelude::*;

verus! {

/// The numerator of the threshold a filter uses where the caller names
/// none.
pub const FILTER_THRESHOLD_NUMERATOR: u128 = 6;

/// The denominator of the threshold a filter uses where the caller names
/// none.
pub const FILTER_THRESHOLD_DENOMINATOR: u128 = 10_000;

/// The words a filter lets through.
#[derive(Debug, Clone, Copy, PartialEq, Eq)]
pub enum Bucket {
    /// Words that look like cleartext.
    Clear,
    /// Words that look hashed, encoded or random.
    Hashed,
}

/// A filter over a stream of words: it lets through the words of its
/// bucket, each only once where it is set to.
pub struct WordFilter {
    bucket: Bucket,
    unique: bool,
    seen: Vec<String>,
}

impl WordFilter {
    /// The filter remembers no word twice.
    pub open spec fn wf(&self) -> bool {
        self.seen().no_duplicates()
    }

    /// The bucket that is let through.
    pub closed spec fn bucket(&self) -> Bucket {
        self.bucket
    }

    /// Whether a word is let through only once.
    pub closed spec fn unique(&self) -> bool {
        self.unique
    }

    /// The words let through so far, where each is let through only once.
    /// No word occurs twice among them.
    pub closed spec fn seen(&self) -> Seq<Seq<char>> {
        Seq::new(self.seen@.len(), |i: int| self.seen@[i]@)
    }

    /// A word with this verdict belongs to the bucket.
    pub open spec fn wants(&self, clear: bool) -> bool {
        match self.bucket() {
            Bucket::Clear => clear,
            Bucket::Hashed => !clear,
        }
    }

    /// A filter that has seen nothing yet.
    pub fn new(bucket: Bucket, unique: bool) -> (f: WordFilter)
        ensures
            f.bucket() == bucket,
            f.unique() == unique,
            f.seen() == Seq::<Seq<char>>::empty(),
            f.wf(),
    {
        let f = WordFilter { bucket, unique, seen: Vec::new() };
        assert(f.seen() =~= Seq::<Seq<char>>::empty());
        f
    }

    /// Decides whether `word`, judged cleartext or not by `clear`, is let
    /// through: it is if it belongs to the bucket and, where each word is
    /// let through only once, has not been let through before. Such a
    /// filter remembers each word it lets through.
    pub fn passes(&mut self, word: &str, clear: bool) -> (emit: bool)
        requires
            old(self).wf(),
        ensures
            emit == (old(self).wants(clear) && !(old(self).unique() && old(self).seen().contains(
                word@,
            ))),
            final(self).bucket() == old(self).bucket(),
            final(self).unique() == old(self).unique(),
            final(self).seen() == if emit && old(self).unique() {
                old(self).seen().push(word@)
            } else {
                old(self).seen()
            },
            final(self).wf(),
    {
        let wanted: bool = match self.bucket {
            Bucket::Clear => clear,
            Bucket::Hashed => !clear,
        };
        if !wanted {
            return false;
        }
        if !self.unique {
            return true;
        }
        let owned: String = word.to_owned();
        let n: usize = self.seen.len();
        let mut i: usize = 0;
        while i < n
            invariant
                0 <= i <= n,
                n == self.seen@.len(),
                owned@ == word@,
                *self == *old(self),
                old(self).wf(),
                old(self).wants(clear),
                old(self).unique(),
                forall|k: int| 0 <= k < i ==> self.seen()[k] != word@,
            decreases n - i,
        {
            if self.seen[i] == owned {
                assert(self.seen()[i as int] == word@);
                return false;
            }
            i = i + 1;
        }
        let ghost before = self.seen();
        self.seen.push(owned);
        assert(self.seen() =~= before.push(word@));
        true
    }
}

} // verus!
