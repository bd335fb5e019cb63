//! The alphabet of a model and the case folding applied to every character.

use std::collections::HashMap;
use vstd::prelude::*;

verus! {

broadcast use vstd::std_specs::hash::group_hash_axioms;

/// Case folding: the ASCII capitals `A`..`Z` become `a`..`z`, every other
/// character is left as it is.
pub open spec fn fold(c: char) -> char {
    if 'A' <= c && c <= 'Z' {
        ((c as u8) + 32) as char
    } else {
        c
    }
}

/// Folds one character.
pub fn fold_case(c: char) -> (r: char)
    ensures
        r == fold(c),
{
    if 'A' <= c && c <= 'Z' {
        let b: u8 = c as u8;
        (b + 32) as char
    } else {
        c
    }
}

/// Folding twice is folding once.
pub proof fn lemma_fold_idempotent(c: char)
    ensures
        fold(fold(c)) == fold(c),
{
}

/// The place of `c` in the alphabet `cs`, if it has one.
pub open spec fn position(cs: Seq<char>, c: char) -> Option<int> {
    if cs.contains(c) {
        Some(choose|i: int| 0 <= i < cs.len() && cs[i] == c)
    } else {
        None
    }
}

/// What an alphabet must satisfy: no character occurs twice, and a square
/// table over it can be addressed.
pub open spec fn admissible(cs: Seq<char>) -> bool {
    &&& cs.no_duplicates()
    &&& cs.len() * cs.len() <= usize::MAX
}

/// Whether `chars` can serve as an alphabet.
pub fn is_admissible(chars: &Vec<char>) -> (b: bool)
    ensures
        b == admissible(chars@),
{
    let n: usize = chars.len();
    let mut copy: Vec<char> = Vec::new();
    let mut i: usize = 0;
    while i < n
        invariant
            0 <= i <= n,
            n == chars@.len(),
            copy@ == chars@.take(i as int),
        decreases n - i,
    {
        copy.push(chars[i]);
        assert(chars@.take(i + 1) =~= chars@.take(i as int).push(chars@[i as int]));
        i = i + 1;
    }
    assert(chars@.take(n as int) =~= chars@);
    Charset::new(copy).is_some()
}

/// In an alphabet without repetition every member is found at its own place.
pub proof fn lemma_position_of_member(cs: Seq<char>, i: int)
    requires
        cs.no_duplicates(),
        0 <= i < cs.len(),
    ensures
        position(cs, cs[i]) == Some(i),
{
    assert(cs.contains(cs[i]));
}

/// A position that was found lies inside the alphabet and holds the character.
pub proof fn lemma_position_found(cs: Seq<char>, c: char)
    ensures
        position(cs, c) matches Some(i) ==> 0 <= i < cs.len() && cs[i] == c,
        position(cs, c) is None ==> !cs.contains(c),
{
}

/// The number under which a character is filed in the lookup table.
pub open spec fn code(c: char) -> u32 {
    c as u32
}

/// Different characters are filed under different numbers.
pub proof fn lemma_code_injective(a: char, b: char)
    requires
        code(a) == code(b),
    ensures
        a == b,
{
}

/// An ordered alphabet with constant-time lookup of a character's place.
pub struct Charset {
    chars: Vec<char>,
    index: HashMap<u32, usize>,
}

impl View for Charset {
    type V = Seq<char>;

    closed spec fn view(&self) -> Seq<char> {
        self.chars@
    }
}

impl Charset {
    #[verifier::type_invariant]
    closed spec fn inv(self) -> bool {
        &&& admissible(self.chars@)
        &&& forall|i: int|
            0 <= i < self.chars@.len() ==> #[trigger] self.index@.contains_key(
                code(self.chars@[i]),
            ) && self.index@[code(self.chars@[i])] == i
        &&& forall|k: u32| #[trigger]
            self.index@.contains_key(k) ==> self.index@[k] < self.chars@.len()
                && code(self.chars@[self.index@[k] as int]) == k
    }

    /// Builds the alphabet, or reports that `chars` is not admissible.
    pub fn new(chars: Vec<char>) -> (r: Option<Charset>)
        ensures
            r is Some <==> admissible(chars@),
            r matches Some(cs) ==> cs@ == chars@,
    {
        let n: usize = chars.len();
        if n.checked_mul(n).is_none() {
            return None;
        }
        let mut index: HashMap<u32, usize> = HashMap::new();
        let mut i: usize = 0;
        while i < n
            invariant
                n == chars@.len(),
                0 <= i <= n,
                forall|a: int, b: int| 0 <= a < b < i ==> chars@[a] != chars@[b],
                forall|a: int|
                    0 <= a < i ==> #[trigger] index@.contains_key(code(chars@[a]))
                        && index@[code(chars@[a])] == a,
                forall|k: u32| #[trigger]
                    index@.contains_key(k) ==> index@[k] < i && code(chars@[index@[k] as int])
                        == k,
            decreases n - i,
        {
            let key: u32 = chars[i] as u32;
            if index.contains_key(&key) {
                proof {
                    let j = index@[key] as int;
                    lemma_code_injective(chars@[j], chars@[i as int]);
                }
                return None;
            }
            proof {
                assert forall|a: int| 0 <= a < i implies chars@[a] != chars@[i as int] by {
                    assert(index@.contains_key(code(chars@[a])));
                }
            }
            index.insert(key, i);
            i = i + 1;
        }
        Some(Charset { chars, index })
    }

    /// The number of characters.
    pub fn len(&self) -> (n: usize)
        ensures
            n == self@.len(),
    {
        self.chars.len()
    }

    /// The character at place `i`.
    pub fn get(&self, i: usize) -> (c: char)
        requires
            i < self@.len(),
        ensures
            c == self@[i as int],
    {
        self.chars[i]
    }

    /// The place of `c`, if it belongs to the alphabet.
    pub fn position(&self, c: char) -> (r: Option<usize>)
        ensures
            match r {
                Some(i) => position(self@, c) == Some(i as int),
                None => position(self@, c) is None,
            },
    {
        proof {
            use_type_invariant(self);
        }
        let key: u32 = c as u32;
        match self.index.get(&key) {
            Some(i) => {
                proof {
                    lemma_code_injective(self.chars@[*i as int], c);
                    lemma_position_of_member(self.chars@, *i as int);
                }
                Some(*i)
            },
            None => {
                proof {
                    if self.chars@.contains(c) {
                        let j = choose|j: int| 0 <= j < self.chars@.len() && self.chars@[j] == c;
                        assert(self.index@.contains_key(code(self.chars@[j])));
                    }
                }
                None
            },
        }
    }
}

} // verus!
