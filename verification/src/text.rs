//! Character-level helpers shared by the parser and the contraction logic.
use vstd::prelude::*;

verus! {

/// An index letter: an ASCII lower-case letter.
pub open spec fn is_index_letter(c: char) -> bool {
    'a' <= c && c <= 'z'
}

/// Every character of `s` is an index letter.
pub open spec fn all_index_letters(s: Seq<char>) -> bool {
    forall|i: int| 0 <= i < s.len() ==> is_index_letter(#[trigger] s[i])
}

/// Executable test for an index letter.
pub fn index_letter(c: char) -> (b: bool)
    ensures
        b == is_index_letter(c),
{
    'a' <= c && c <= 'z'
}

/// The characters of a string slice, in order.
pub fn chars_of(s: &str) -> (v: Vec<char>)
    ensures
        v@ == s@,
{
    let mut v: Vec<char> = Vec::new();
    for c in it: s.chars()
        invariant
            v@ == it.seq().take(it.index() as int),
            it.seq() == s@,
    {
        v.push(c);
    }
    v
}

/// Number of occurrences of `c` in `s`.
pub open spec fn count_in(s: Seq<char>, c: char) -> nat
    decreases s.len(),
{
    if s.len() == 0 {
        0
    } else {
        count_in(s.drop_last(), c) + if s.last() == c {
            1nat
        } else {
            0nat
        }
    }
}

/// Each element is smaller than the next: sorted, with no repeats.
pub open spec fn strictly_increasing(s: Seq<char>) -> bool {
    forall|i: int, j: int| 0 <= i < j < s.len() ==> #[trigger] s[i] < #[trigger] s[j]
}

/// Some character occurs twice in `s`.
pub open spec fn has_duplicate(s: Seq<char>) -> bool {
    exists|i: int, j: int| 0 <= i < j < s.len() && #[trigger] s[i] == #[trigger] s[j]
}

/// A character occurs in `s` exactly when it is counted there.
pub proof fn lemma_count_contains(s: Seq<char>, c: char)
    ensures
        count_in(s, c) > 0 <==> s.contains(c),
    decreases s.len(),
{
    if s.len() > 0 {
        lemma_count_contains(s.drop_last(), c);
        if s.drop_last().contains(c) {
            let i = choose|i: int| 0 <= i < s.drop_last().len() && s.drop_last()[i] == c;
            assert(s[i] == c);
        }
        if s.contains(c) && s.last() != c {
            let i = choose|i: int| 0 <= i < s.len() && s[i] == c;
            assert(s.drop_last()[i] == c);
        }
    }
}

/// Executable `contains` on a vector of characters.
pub fn contains_char(v: &Vec<char>, c: char) -> (b: bool)
    ensures
        b == v@.contains(c),
{
    let mut i: usize = 0;
    while i < v.len()
        invariant
            i <= v.len(),
            forall|j: int| 0 <= j < i ==> v@[j] != c,
        decreases v.len() - i,
    {
        if v[i] == c {
            assert(v@[i as int] == c);
            return true;
        }
        i += 1;
    }
    false
}

/// Executable `count_in` on a vector of characters.
pub fn count_char(v: &Vec<char>, c: char) -> (n: usize)
    ensures
        n == count_in(v@, c),
{
    let mut i: usize = 0;
    let mut n: usize = 0;
    while i < v.len()
        invariant
            i <= v.len(),
            n == count_in(v@.take(i as int), c),
            n <= i,
        decreases v.len() - i,
    {
        assert(v@.take(i + 1).drop_last() =~= v@.take(i as int));
        if v[i] == c {
            n += 1;
        }
        i += 1;
    }
    assert(v@.take(v.len() as int) =~= v@);
    n
}

/// Inserts `c` into a strictly increasing vector, unless it is already there.
pub fn insert_sorted(v: &mut Vec<char>, c: char)
    requires
        strictly_increasing(old(v)@),
    ensures
        strictly_increasing(final(v)@),
        forall|x: char| final(v)@.contains(x) <==> (old(v)@.contains(x) || x == c),
{
    let mut i: usize = 0;
    while i < v.len() && v[i] < c
        invariant
            i <= v.len(),
            v@ == old(v)@,
            forall|j: int| 0 <= j < i ==> #[trigger] v@[j] < c,
        decreases v.len() - i,
    {
        i += 1;
    }
    if i < v.len() && v[i] == c {
        assert(v@[i as int] == c);
        assert(v@.contains(c));
        return;
    }
    let ghost old_v = v@;
    assert(old_v == old(v)@);
    v.insert(i, c);
    assert(v@ == old_v.insert(i as int, c));
    assert forall|a: int, b: int| 0 <= a < b < v@.len() implies #[trigger] v@[a] < #[trigger] v@[b] by {
        if b < i {
            assert(v@[a] == old_v[a] && v@[b] == old_v[b]);
        } else if b == i {
            assert(v@[a] == old_v[a]);
        } else if a < i {
            assert(v@[a] == old_v[a] && v@[b] == old_v[b - 1]);
            assert(old_v[i as int] > c);
            assert(old_v[i as int] <= old_v[b - 1]);
        } else if a == i {
            assert(old_v[i as int] <= old_v[b - 1]);
        } else {
            assert(v@[a] == old_v[a - 1] && v@[b] == old_v[b - 1]);
        }
    }
    assert forall|x: char| v@.contains(x) <==> (old_v.contains(x) || x == c) by {
        if v@.contains(x) {
            let k = choose|k: int| 0 <= k < v@.len() && v@[k] == x;
            if k < i {
                assert(old_v[k] == x);
            } else if k > i {
                assert(old_v[k - 1] == x);
            }
        }
        if old_v.contains(x) {
            let k = choose|k: int| 0 <= k < old_v.len() && old_v[k] == x;
            if k < i {
                assert(v@[k] == x);
            } else {
                assert(v@[k + 1] == x);
            }
        }
        if x == c {
            assert(v@[i as int] == x);
        }
    }
    assert(forall|x: char| v@.contains(x) <==> (old(v)@.contains(x) || x == c));
}

/// An element is in a flattened sequence of sequences exactly when it is in
/// one of them.
pub proof fn lemma_flatten_contains<A>(ss: Seq<Seq<A>>, x: A)
    ensures
        ss.flatten().contains(x) <==> exists|k: int, j: int|
            0 <= k < ss.len() && 0 <= j < ss[k].len() && #[trigger] ss[k][j] == x,
    decreases ss.len(),
{
    if ss.len() > 0 {
        let rest = ss.drop_first();
        lemma_flatten_contains(rest, x);
        let f = ss.first() + rest.flatten();
        assert(ss.flatten() == f);
        if f.contains(x) {
            let i = choose|i: int| 0 <= i < f.len() && f[i] == x;
            if i < ss.first().len() {
                assert(ss[0][i] == x);
            } else {
                assert(rest.flatten()[i - ss.first().len()] == x);
                let (k, j) = choose|k: int, j: int|
                    0 <= k < rest.len() && 0 <= j < rest[k].len() && #[trigger] rest[k][j] == x;
                assert(ss[k + 1][j] == x);
            }
        }
        if exists|k: int, j: int| 0 <= k < ss.len() && 0 <= j < ss[k].len() && #[trigger] ss[k][j] == x {
            let (k, j) = choose|k: int, j: int|
                0 <= k < ss.len() && 0 <= j < ss[k].len() && #[trigger] ss[k][j] == x;
            if k == 0 {
                assert(f[j] == x);
            } else {
                assert(rest[k - 1][j] == x);
                assert(rest.flatten().contains(x));
                let i = choose|i: int| 0 <= i < rest.flatten().len() && rest.flatten()[i] == x;
                assert(f[i + ss.first().len()] == x);
            }
        }
    }
}

/// Flattening `n` sequences of length `m` gives `n * m` elements.
pub proof fn lemma_flatten_uniform_len<A>(ss: Seq<Seq<A>>, m: nat)
    requires
        forall|k: int| 0 <= k < ss.len() ==> (#[trigger] ss[k]).len() == m,
    ensures
        ss.flatten().len() == ss.len() * m,
    decreases ss.len(),
{
    if ss.len() > 0 {
        let rest = ss.drop_first();
        assert forall|k: int| 0 <= k < rest.len() implies (#[trigger] rest[k]).len() == m by {
            assert(rest[k] == ss[k + 1]);
        }
        lemma_flatten_uniform_len(rest, m);
        assert(ss.flatten().len() == m + rest.len() * m);
        assert(ss.len() * m == m + (ss.len() - 1) * m) by (nonlinear_arith);
    }
}

/// In a flattening of sequences of length `m`, element `q` is element
/// `q % m` of sequence `q / m`.
pub proof fn lemma_flatten_uniform_index<A>(ss: Seq<Seq<A>>, m: nat, q: int)
    requires
        m > 0,
        forall|k: int| 0 <= k < ss.len() ==> (#[trigger] ss[k]).len() == m,
        0 <= q < ss.len() * m,
    ensures
        ss.flatten()[q] == ss[q / (m as int)][q % (m as int)],
    decreases ss.len(),
{
    let n = ss.len();
    assert(n > 0) by (nonlinear_arith)
        requires
            0 <= q < n * m,
    ;
    let rest = ss.drop_first();
    assert forall|k: int| 0 <= k < rest.len() implies (#[trigger] rest[k]).len() == m by {
        assert(rest[k] == ss[k + 1]);
    }
    lemma_flatten_uniform_len(rest, m);
    assert(ss.flatten() == ss.first() + rest.flatten());
    let mi = m as int;
    assert(ss.first().len() == m);
    if q < mi {
        assert(q / mi == 0 && q % mi == q) by (nonlinear_arith)
            requires
                0 <= q < mi,
        ;
        assert(ss.flatten()[q] == ss.first()[q]);
    } else {
        assert(q - mi < rest.len() * mi) by (nonlinear_arith)
            requires
                q < ss.len() * mi,
                ss.len() == rest.len() + 1,
        ;
        lemma_flatten_uniform_index(rest, m, q - mi);
        assert((q - mi) / mi + 1 == q / mi && (q - mi) % mi == q % mi) by (nonlinear_arith)
            requires
                mi > 0,
                q >= mi,
        ;
        assert(ss.flatten()[q] == rest.flatten()[q - mi]);
        let d = (q - mi) / mi;
        assert(0 <= d < rest.len()) by (nonlinear_arith)
            requires
                mi > 0,
                0 <= q - mi < rest.len() * mi,
                d == (q - mi) / mi,
        ;
        assert(rest[d] == ss[d + 1]);
    }
}

} // verus!
