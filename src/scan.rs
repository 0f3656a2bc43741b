//! Finding a marker character in text.
use vstd::prelude::*;

verus! {

/// `c` stands at `i` and nowhere before it.
pub open spec fn is_first(s: Seq<char>, c: char, i: int) -> bool {
    &&& 0 <= i < s.len()
    &&& s[i] == c
    &&& forall|j: int| 0 <= j < i ==> s[j] != c
}

/// The position of the first `c` in `s`; meaningful where `s` contains `c`.
pub open spec fn first_index(s: Seq<char>, c: char) -> int {
    choose|i: int| is_first(s, c, i)
}

/// There is one first position.
pub proof fn lemma_first_index(s: Seq<char>, c: char, i: int)
    requires
        is_first(s, c, i),
    ensures
        first_index(s, c) == i,
        s.contains(c),
{
    let k = first_index(s, c);
    assert(is_first(s, c, k));
    if k < i {
        assert(s[k] != c);
    }
    if i < k {
        assert(s[i] != c);
    }
}

/// In `p + [c] + q`, where `p` holds no `c`, the first `c` follows `p`.
pub proof fn lemma_first_after(p: Seq<char>, c: char, q: Seq<char>)
    requires
        !p.contains(c),
    ensures
        first_index(p + seq![c] + q, c) == p.len(),
        (p + seq![c] + q).contains(c),
        (p + seq![c] + q).take(p.len() as int) == p,
        (p + seq![c] + q).skip(p.len() as int + 1) == q,
{
    let s = p + seq![c] + q;
    assert forall|j: int| 0 <= j < p.len() implies s[j] != c by {
        assert(s[j] == p[j]);
    }
    lemma_first_index(s, c, p.len() as int);
    assert(s.take(p.len() as int) =~= p);
    assert(s.skip(p.len() as int + 1) =~= q);
}

/// Joining two texts that lack `c` gives a text that lacks `c`.
pub proof fn lemma_concat_lacks(p: Seq<char>, q: Seq<char>, c: char)
    requires
        !p.contains(c),
        !q.contains(c),
    ensures
        !(p + q).contains(c),
{
    let s = p + q;
    assert forall|i: int| 0 <= i < s.len() implies s[i] != c by {
        if i < p.len() {
            assert(s[i] == p[i]);
        } else {
            assert(s[i] == q[i - p.len()]);
        }
    }
}

/// The position of the first `c` in `s`, if any.
pub fn find_char(s: &str, c: char) -> (r: Option<usize>)
    ensures
        r matches Some(i) ==> is_first(s@, c, i as int),
        r is None ==> !s@.contains(c),
{
    let n = s.unicode_len();
    let mut i: usize = 0;
    while i < n
        invariant
            n == s@.len(),
            i <= n,
            forall|j: int| 0 <= j < i ==> s@[j] != c,
        decreases n - i,
    {
        if s.get_char(i) == c {
            return Some(i);
        }
        i = i + 1;
    }
    None
}

} // verus!
