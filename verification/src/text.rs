//! Text cut at a separator and put together again.

use vstd::prelude::*;

verus! {

/// `String::push` of the standard library appends the one character to the
/// string and changes nothing else.
pub assume_specification[ String::push ](s: &mut String, c: char)
    ensures
        final(s)@ == old(s)@.push(c),
;

/// The pieces of `s` between the occurrences of `sep`: one more piece than
/// there are separators, so the last piece is what follows the last
/// separator.
pub open spec fn split(s: Seq<char>, sep: char) -> Seq<Seq<char>>
    decreases s.len(),
{
    if s.len() == 0 {
        seq![Seq::<char>::empty()]
    } else {
        let before = split(s.drop_last(), sep);
        if s.last() == sep {
            before.push(Seq::<char>::empty())
        } else {
            before.drop_last().push(before.last().push(s.last()))
        }
    }
}

/// The parts in order, each followed by `sep`.
pub open spec fn join(parts: Seq<Seq<char>>, sep: char) -> Seq<char>
    decreases parts.len(),
{
    if parts.len() == 0 {
        Seq::<char>::empty()
    } else {
        join(parts.drop_last(), sep) + parts.last() + seq![sep]
    }
}

/// `s` without every occurrence of `c`.
pub open spec fn without(s: Seq<char>, c: char) -> Seq<char>
    decreases s.len(),
{
    if s.len() == 0 {
        Seq::<char>::empty()
    } else if s.last() == c {
        without(s.drop_last(), c)
    } else {
        without(s.drop_last(), c).push(s.last())
    }
}

/// The contents of a vector of character vectors.
pub open spec fn contents(parts: Seq<Vec<char>>) -> Seq<Seq<char>> {
    Seq::new(parts.len(), |i: int| parts[i]@)
}

/// The texts of a row of strings.
pub open spec fn row_texts(row: Seq<String>) -> Seq<Seq<char>> {
    Seq::new(row.len(), |c: int| row[c]@)
}

/// The texts of rows of strings, row by row.
pub open spec fn texts(rows: Seq<Vec<String>>) -> Seq<Seq<Seq<char>>> {
    Seq::new(rows.len(), |r: int| row_texts(rows[r]@))
}

/// A split always yields at least one piece.
pub proof fn lemma_split_nonempty(s: Seq<char>, sep: char)
    ensures
        split(s, sep).len() >= 1,
    decreases s.len(),
{
    if s.len() > 0 {
        lemma_split_nonempty(s.drop_last(), sep);
    }
}

/// Appending text that holds no separator only lengthens the last piece.
pub proof fn lemma_split_append(a: Seq<char>, b: Seq<char>, sep: char)
    requires
        !b.contains(sep),
    ensures
        split(a + b, sep) == split(a, sep).drop_last().push(split(a, sep).last() + b),
    decreases b.len(),
{
    lemma_split_nonempty(a, sep);
    if b.len() == 0 {
        assert(a + b =~= a);
        assert(split(a, sep).last() + b =~= split(a, sep).last());
        assert(split(a, sep).drop_last().push(split(a, sep).last()) =~= split(a, sep));
    } else {
        let shorter = b.drop_last();
        assert(!shorter.contains(sep)) by {
            if shorter.contains(sep) {
                let i = choose|i: int| 0 <= i < shorter.len() && shorter[i] == sep;
                assert(b[i] == sep);
            }
        }
        lemma_split_append(a, shorter, sep);
        assert((a + b).drop_last() =~= a + shorter);
        assert((a + b).last() == b.last());
        assert(b[b.len() - 1] != sep);
        let before = split(a + shorter, sep);
        assert(before.last().push(b.last()) =~= split(a, sep).last() + b);
        assert(before.drop_last() =~= split(a, sep).drop_last());
    }
}

/// Cutting joined parts gives the parts back, and one empty piece after the
/// last separator, provided no part holds the separator itself.
pub proof fn lemma_split_join(parts: Seq<Seq<char>>, sep: char)
    requires
        forall|i: int| 0 <= i < parts.len() ==> !(#[trigger] parts[i]).contains(sep),
    ensures
        split(join(parts, sep), sep) == parts.push(Seq::<char>::empty()),
    decreases parts.len(),
{
    if parts.len() == 0 {
        assert(split(join(parts, sep), sep) =~= parts.push(Seq::<char>::empty()));
    } else {
        let front = parts.drop_last();
        lemma_split_join(front, sep);
        let head = join(front, sep);
        lemma_split_append(head, parts.last(), sep);
        let whole = head + parts.last() + seq![sep];
        assert(whole.drop_last() =~= head + parts.last());
        assert(whole.last() == sep);
        assert(split(head, sep).drop_last() =~= front);
        assert(Seq::<char>::empty() + parts.last() =~= parts.last());
        assert(front.push(parts.last()) =~= parts);
    }
}

/// Joining one part more appends that part and a separator.
pub proof fn lemma_join_take(parts: Seq<Seq<char>>, sep: char, k: int)
    requires
        0 <= k < parts.len(),
    ensures
        join(parts.take(k + 1), sep) == join(parts.take(k), sep) + parts[k] + seq![sep],
{
    assert(parts.take(k + 1).drop_last() =~= parts.take(k));
}

/// Cuts `s` at every `sep`.
pub fn split_chars(s: &Vec<char>, sep: char) -> (parts: Vec<Vec<char>>)
    ensures
        contents(parts@) == split(s@, sep),
{
    let mut parts: Vec<Vec<char>> = Vec::new();
    let mut current: Vec<char> = Vec::new();
    let n: usize = s.len();
    let mut i: usize = 0;
    assert(contents(parts@).push(current@) =~= split(s@.take(0), sep));
    while i < n
        invariant
            n == s@.len(),
            0 <= i <= n,
            contents(parts@).push(current@) == split(s@.take(i as int), sep),
        decreases n - i,
    {
        let c: char = s[i];
        proof {
            assert(s@.take(i + 1).drop_last() =~= s@.take(i as int));
            assert(s@.take(i + 1).last() == c);
        }
        let ghost done = contents(parts@);
        let ghost piece = current@;
        if c == sep {
            parts.push(current);
            current = Vec::new();
            assert(contents(parts@) =~= done.push(piece));
        } else {
            current.push(c);
            assert(done.push(piece).drop_last() =~= done);
        }
        i = i + 1;
    }
    let ghost done = contents(parts@);
    let ghost piece = current@;
    parts.push(current);
    assert(contents(parts@) =~= done.push(piece));
    assert(s@.take(n as int) =~= s@);
    parts
}

/// The characters of `s` as a vector.
pub fn chars_of(s: &str) -> (v: Vec<char>)
    ensures
        v@ == s@,
{
    let mut v: Vec<char> = Vec::new();
    for c in it: s.chars()
        invariant
            v@ == it.seq().take(it.index() as int),
    {
        v.push(c);
    }
    v
}

} // verus!
