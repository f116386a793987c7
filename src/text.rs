use vstd::prelude::*;

verus! {

/// The character sequences that a vector of strings holds, in order.
pub open spec fn views(v: Seq<String>) -> Seq<Seq<char>> {
    v.map_values(|s: String| s@)
}

/// `needle` occurs in `hay` starting at position `i`.
pub open spec fn occurs_at(hay: Seq<char>, needle: Seq<char>, i: int) -> bool {
    0 <= i && i + needle.len() <= hay.len() && hay.subrange(i, i + needle.len()) == needle
}

/// `needle` is a substring of `hay` (the empty sequence is a substring of everything).
pub open spec fn contains(hay: Seq<char>, needle: Seq<char>) -> bool {
    exists|i: int| occurs_at(hay, needle, i)
}

/// The pieces of `s` between occurrences of `sep`, in order; there is always at least one.
pub open spec fn split_on(s: Seq<char>, sep: char) -> Seq<Seq<char>>
    decreases s.len(),
{
    if s.len() == 0 {
        seq![Seq::<char>::empty()]
    } else {
        let rest = split_on(s.drop_last(), sep);
        if s.last() == sep {
            rest.push(Seq::<char>::empty())
        } else {
            rest.update(rest.len() - 1, rest.last().push(s.last()))
        }
    }
}

pub proof fn lemma_split_on_nonempty(s: Seq<char>, sep: char)
    ensures
        split_on(s, sep).len() >= 1,
    decreases s.len(),
{
    if s.len() > 0 {
        lemma_split_on_nonempty(s.drop_last(), sep);
    }
}

/// `s` holds no `c`.
pub open spec fn free_of(s: Seq<char>, c: char) -> bool {
    forall|i: int| 0 <= i < s.len() ==> s[i] != c
}

/// A text without the separator is a single piece.
pub proof fn lemma_split_free(s: Seq<char>, sep: char)
    requires
        free_of(s, sep),
    ensures
        split_on(s, sep) == seq![s],
    decreases s.len(),
{
    if s.len() > 0 {
        lemma_split_free(s.drop_last(), sep);
        assert(s.drop_last().push(s.last()) =~= s);
        assert(seq![s.drop_last()].update(0, s.drop_last().push(s.last())) =~= seq![s]);
    } else {
        assert(s =~= Seq::<char>::empty());
    }
}

/// Splitting at a separator that joins two texts splits each of them.
pub proof fn lemma_split_concat(x: Seq<char>, y: Seq<char>, sep: char)
    ensures
        split_on(x + seq![sep] + y, sep) == split_on(x, sep) + split_on(y, sep),
    decreases y.len(),
{
    let z = x + seq![sep] + y;
    lemma_split_on_nonempty(x, sep);
    if y.len() == 0 {
        assert(z.drop_last() =~= x);
        assert(y =~= Seq::<char>::empty());
        assert(split_on(x, sep).push(Seq::<char>::empty()) =~= split_on(x, sep) + split_on(y, sep));
    } else {
        lemma_split_concat(x, y.drop_last(), sep);
        lemma_split_on_nonempty(y.drop_last(), sep);
        assert(z.drop_last() =~= x + seq![sep] + y.drop_last());
        assert(z.last() == y.last());
        let a = split_on(x, sep);
        let b = split_on(y.drop_last(), sep);
        if y.last() == sep {
            assert((a + b).push(Seq::<char>::empty()) =~= a + b.push(Seq::<char>::empty()));
        } else {
            assert((a + b).update((a + b).len() - 1, (a + b).last().push(y.last())) =~= a + b.update(
                b.len() - 1,
                b.last().push(y.last()),
            ));
        }
    }
}

pub proof fn lemma_views_push(v: Seq<String>, x: String)
    ensures
        views(v.push(x)) == views(v).push(x@),
{
    assert(views(v.push(x)) =~= views(v).push(x@));
}

/// The characters of `s`, one element per character.
pub fn chars_of(s: &str) -> (r: Vec<char>)
    ensures
        r@ == s@,
{
    let n = s.unicode_len();
    let mut r: Vec<char> = Vec::new();
    let mut i: usize = 0;
    while i < n
        invariant
            n == s@.len(),
            i <= n,
            r@ == s@.subrange(0, i as int),
        decreases n - i,
    {
        r.push(s.get_char(i));
        i += 1;
        assert(r@ =~= s@.subrange(0, i as int));
    }
    assert(r@ =~= s@);
    r
}

/// Copies of the first `n` strings of `v`.
pub fn clone_prefix(v: &Vec<String>, n: usize) -> (r: Vec<String>)
    requires
        n <= v@.len(),
    ensures
        views(r@) == views(v@).subrange(0, n as int),
{
    let mut r: Vec<String> = Vec::new();
    let mut i: usize = 0;
    while i < n
        invariant
            n <= v@.len(),
            i <= n,
            views(r@) == views(v@).subrange(0, i as int),
        decreases n - i,
    {
        let s = v[i].clone();
        proof {
            lemma_views_push(r@, s);
            assert(views(v@).subrange(0, i + 1) =~= views(v@).subrange(0, i as int).push(s@));
        }
        r.push(s);
        i += 1;
    }
    r
}

/// Whether the two vectors hold the same strings in the same order.
pub fn same_strings(a: &Vec<String>, b: &Vec<String>) -> (r: bool)
    ensures
        r == (views(a@) == views(b@)),
{
    if a.len() != b.len() {
        assert(views(a@).len() != views(b@).len());
        return false;
    }
    let mut i: usize = 0;
    while i < a.len()
        invariant
            a@.len() == b@.len(),
            i <= a@.len(),
            forall|k: int| 0 <= k < i ==> a@[k]@ == b@[k]@,
        decreases a@.len() - i,
    {
        if a[i] != b[i] {
            assert(views(a@)[i as int] != views(b@)[i as int]);
            return false;
        }
        i += 1;
    }
    assert(views(a@) =~= views(b@));
    true
}

/// Whether `needle` occurs in `hay`, on character vectors.
pub fn contains_chars(hay: &Vec<char>, needle: &Vec<char>) -> (r: bool)
    ensures
        r == contains(hay@, needle@),
{
    let n = needle.len();
    let h = hay.len();
    if n > h {
        return false;
    }
    let mut i: usize = 0;
    while i <= h - n
        invariant
            n == needle@.len(),
            h == hay@.len(),
            n <= h,
            i <= h - n + 1,
            forall|k: int| 0 <= k < i ==> !occurs_at(hay@, needle@, k),
        decreases h - n + 1 - i,
    {
        let mut j: usize = 0;
        while j < n && hay[i + j] == needle[j]
            invariant
                n == needle@.len(),
                h == hay@.len(),
                i + n <= h,
                j <= n,
                forall|m: int| 0 <= m < j ==> hay@[i + m] == needle@[m],
            decreases n - j,
        {
            j += 1;
        }
        if j == n {
            assert(hay@.subrange(i as int, i + n) =~= needle@);
            assert(occurs_at(hay@, needle@, i as int));
            return true;
        }
        assert(hay@.subrange(i as int, i + n)[j as int] != needle@[j as int]);
        i += 1;
    }
    false
}

/// Whether `needle` occurs in `hay` as a substring.
pub fn str_contains(hay: &str, needle: &str) -> (r: bool)
    ensures
        r == contains(hay@, needle@),
{
    let h = chars_of(hay);
    let n = chars_of(needle);
    contains_chars(&h, &n)
}

/// Splits `s` at every occurrence of `sep`.
pub fn split_str(s: &str, sep: char) -> (r: Vec<String>)
    ensures
        views(r@) == split_on(s@, sep),
{
    let cs = chars_of(s);
    let n = cs.len();
    let mut parts: Vec<String> = Vec::new();
    let mut start: usize = 0;
    let mut i: usize = 0;
    assert(s@.subrange(0, 0) =~= Seq::<char>::empty());
    assert(views(parts@) =~= Seq::<Seq<char>>::empty());
    assert(views(parts@).push(s@.subrange(0, 0)) =~= split_on(s@.subrange(0, 0), sep));
    while i < n
        invariant
            cs@ == s@,
            n == s@.len(),
            start <= i <= n,
            views(parts@).push(s@.subrange(start as int, i as int)) == split_on(
                s@.subrange(0, i as int),
                sep,
            ),
        decreases n - i,
    {
        let ghost prev = s@.subrange(0, i as int);
        let ghost next = s@.subrange(0, i + 1);
        assert(next.drop_last() =~= prev);
        assert(next.last() == cs@[i as int]);
        proof {
            lemma_split_on_nonempty(prev, sep);
        }
        if cs[i] == sep {
            let piece = String::from_str(s.substring_char(start, i));
            proof {
                lemma_views_push(parts@, piece);
            }
            parts.push(piece);
            start = i + 1;
            assert(s@.subrange(start as int, i + 1) =~= Seq::<char>::empty());
        } else {
            assert(s@.subrange(start as int, i + 1) =~= s@.subrange(start as int, i as int).push(
                cs@[i as int],
            ));
            assert(views(parts@).push(s@.subrange(start as int, i + 1)) =~= split_on(prev, sep).update(
                split_on(prev, sep).len() - 1,
                split_on(prev, sep).last().push(cs@[i as int]),
            ));
        }
        i += 1;
    }
    let piece = String::from_str(s.substring_char(start, n));
    proof {
        lemma_views_push(parts@, piece);
        assert(s@.subrange(0, n as int) =~= s@);
    }
    parts.push(piece);
    parts
}

} // verus!
