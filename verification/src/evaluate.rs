//! The index bookkeeping of a slow, direct einsum: every position of the
//! result, every assignment of the summation indices, and the position that
//! each operand is read at.
use vstd::prelude::*;
use crate::contraction::{contraction_well_formed, input_chars};
use crate::sizes::{is_size_map, shapes_view, sized_well_formed, SizedContraction, SizedContractionModel};
use crate::text::{
    chars_of, lemma_flatten_contains, lemma_flatten_uniform_index, lemma_flatten_uniform_len,
};

verus! {

/// The product of the lengths.
pub open spec fn product(lens: Seq<usize>) -> nat
    decreases lens.len(),
{
    if lens.len() == 0 {
        1
    } else {
        (lens[0] as nat) * product(lens.drop_first())
    }
}

/// Each tuple of `rs`, with `i` put in front.
pub open spec fn prepend_all(i: int, rs: Seq<Seq<usize>>) -> Seq<Seq<usize>> {
    rs.map_values(|t: Seq<usize>| seq![i as usize] + t)
}

/// All tuples `t` with `t[i] < lens[i]`, in row-major order: the first
/// coordinate varies slowest.
pub open spec fn assignments(lens: Seq<usize>) -> Seq<Seq<usize>>
    decreases lens.len(),
{
    if lens.len() == 0 {
        seq![Seq::<usize>::empty()]
    } else {
        let rest = assignments(lens.drop_first());
        Seq::new(lens[0] as nat, |i: int| prepend_all(i, rest)).flatten()
    }
}

/// `t` is a tuple within the bounds `lens`.
pub open spec fn within_bounds(t: Seq<usize>, lens: Seq<usize>) -> bool {
    t.len() == lens.len() && forall|i: int| 0 <= i < t.len() ==> #[trigger] t[i] < lens[i]
}

/// Law: there are as many assignments as the product of the lengths.
pub proof fn lemma_assignments_len(lens: Seq<usize>)
    ensures
        assignments(lens).len() == product(lens),
    decreases lens.len(),
{
    if lens.len() > 0 {
        let rest = assignments(lens.drop_first());
        lemma_assignments_len(lens.drop_first());
        let ss = Seq::new(lens[0] as nat, |i: int| prepend_all(i, rest));
        lemma_flatten_uniform_len(ss, rest.len());
    }
}

/// Law: the assignments are exactly the tuples within the bounds.
pub proof fn lemma_assignments_contains(lens: Seq<usize>, t: Seq<usize>)
    ensures
        assignments(lens).contains(t) <==> within_bounds(t, lens),
    decreases lens.len(),
{
    if lens.len() > 0 {
        let tl = lens.drop_first();
        let rest = assignments(tl);
        let ss = Seq::new(lens[0] as nat, |i: int| prepend_all(i, rest));
        lemma_flatten_contains(ss, t);
        if assignments(lens).contains(t) {
            let (k, j) = choose|k: int, j: int|
                0 <= k < ss.len() && 0 <= j < ss[k].len() && #[trigger] ss[k][j] == t;
            let u = rest[j];
            assert(t == seq![k as usize] + u);
            lemma_assignments_contains(tl, u);
            assert(rest.contains(u));
            assert forall|i: int| 0 <= i < t.len() implies #[trigger] t[i] < lens[i] by {
                if i > 0 {
                    assert(t[i] == u[i - 1]);
                }
            }
        }
        if within_bounds(t, lens) {
            let u = t.drop_first();
            assert(within_bounds(u, tl)) by {
                assert forall|i: int| 0 <= i < u.len() implies #[trigger] u[i] < tl[i] by {
                    assert(u[i] == t[i + 1]);
                }
            }
            lemma_assignments_contains(tl, u);
            let j = choose|j: int| 0 <= j < rest.len() && rest[j] == u;
            let k = t[0] as int;
            assert(t =~= seq![k as usize] + u);
            assert(ss[k][j] == t);
        }
    } else {
        if within_bounds(t, lens) {
            assert(t =~= Seq::<usize>::empty());
            assert(assignments(lens)[0] == t);
        }
    }
}

/// `s` and `t` agree before position `p`, where `s` is the smaller.
pub open spec fn lex_less_at(s: Seq<usize>, t: Seq<usize>, p: int) -> bool {
    &&& 0 <= p < s.len()
    &&& p < t.len()
    &&& s[p] < t[p]
    &&& forall|q: int| 0 <= q < p ==> s[q] == t[q]
}

/// `s` comes before `t` in lexicographic order, and they differ.
pub open spec fn lex_less(s: Seq<usize>, t: Seq<usize>) -> bool {
    exists|p: int| lex_less_at(s, t, p)
}

/// Law: the assignments are listed in increasing lexicographic order (the
/// first coordinate varies slowest), so position `q` of the list holds the
/// `q`-th in-bounds tuple of that order.
pub proof fn lemma_assignments_lex_sorted(lens: Seq<usize>)
    ensures
        forall|a: int, b: int|
            0 <= a < b < assignments(lens).len() ==> lex_less(
                #[trigger] assignments(lens)[a],
                #[trigger] assignments(lens)[b],
            ),
    decreases lens.len(),
{
    if lens.len() > 0 {
        let tl = lens.drop_first();
        let rest = assignments(tl);
        lemma_assignments_lex_sorted(tl);
        let ss = Seq::new(lens[0] as nat, |i: int| prepend_all(i, rest));
        let m = rest.len();
        assert forall|k: int| 0 <= k < ss.len() implies (#[trigger] ss[k]).len() == m by {}
        lemma_flatten_uniform_len(ss, m);
        let all = assignments(lens);
        if m > 0 {
            let mi = m as int;
            assert forall|a: int, b: int| 0 <= a < b < all.len() implies lex_less(
                #[trigger] all[a],
                #[trigger] all[b],
            ) by {
                lemma_flatten_uniform_index(ss, m, a);
                lemma_flatten_uniform_index(ss, m, b);
                let (qa, ra) = (a / mi, a % mi);
                let (qb, rb) = (b / mi, b % mi);
                assert(0 <= qa < ss.len() && 0 <= ra < mi && 0 <= qb < ss.len() && 0 <= rb < mi
                    && (qa < qb || (qa == qb && ra < rb))) by (nonlinear_arith)
                    requires
                        mi > 0,
                        0 <= a < b,
                        b < ss.len() * mi,
                        qa == a / mi,
                        ra == a % mi,
                        qb == b / mi,
                        rb == b % mi,
                ;
                let ta = all[a];
                let tb = all[b];
                assert(ta == seq![qa as usize] + rest[ra]);
                assert(tb == seq![qb as usize] + rest[rb]);
                assert(qa < lens[0] && qb < lens[0]);
                if qa < qb {
                    assert(lex_less_at(ta, tb, 0));
                } else {
                    assert(lex_less(rest[ra], rest[rb]));
                    let p = choose|p: int| lex_less_at(rest[ra], rest[rb], p);
                    assert forall|q: int| 0 <= q < p + 1 implies ta[q] == tb[q] by {
                        if q > 0 {
                            assert(ta[q] == rest[ra][q - 1]);
                            assert(tb[q] == rest[rb][q - 1]);
                        }
                    }
                    assert(ta[p + 1] == rest[ra][p]);
                    assert(tb[p + 1] == rest[rb][p]);
                    assert(lex_less_at(ta, tb, p + 1));
                }
            }
        }
    }
}

/// Law: no tuple is listed twice.
pub proof fn lemma_assignments_distinct(lens: Seq<usize>)
    ensures
        assignments(lens).no_duplicates(),
    decreases lens.len(),
{
    if lens.len() > 0 {
        let tl = lens.drop_first();
        let rest = assignments(tl);
        lemma_assignments_distinct(tl);
        let ss = Seq::new(lens[0] as nat, |i: int| prepend_all(i, rest));
        let m = rest.len();
        assert forall|k: int| 0 <= k < ss.len() implies (#[trigger] ss[k]).len() == m by {}
        lemma_flatten_uniform_len(ss, m);
        let a_all = assignments(lens);
        if m > 0 {
            let mi = m as int;
            assert forall|a: int, b: int|
                0 <= a < a_all.len() && 0 <= b < a_all.len() && a != b implies a_all[a]
                != a_all[b] by {
                lemma_flatten_uniform_index(ss, m, a);
                lemma_flatten_uniform_index(ss, m, b);
                let (qa, ra) = (a / mi, a % mi);
                let (qb, rb) = (b / mi, b % mi);
                assert(0 <= qa < ss.len() && 0 <= ra < mi && 0 <= qb < ss.len() && 0 <= rb < mi)
                    by (nonlinear_arith)
                    requires
                        mi > 0,
                        0 <= a < ss.len() * mi,
                        0 <= b < ss.len() * mi,
                        qa == a / mi,
                        ra == a % mi,
                        qb == b / mi,
                        rb == b % mi,
                ;
                let ta = ss[qa][ra];
                let tb = ss[qb][rb];
                assert(ta == seq![qa as usize] + rest[ra]);
                assert(tb == seq![qb as usize] + rest[rb]);
                if ta == tb {
                    assert(ta[0] == qa as usize && tb[0] == qb as usize);
                    assert(qa < lens[0] && qb < lens[0]);
                    assert(qa == qb);
                    assert(ta.skip(1) =~= rest[ra]);
                    assert(tb.skip(1) =~= rest[rb]);
                    assert(ra == rb);
                    assert(a == b) by (nonlinear_arith)
                        requires
                            mi > 0,
                            a / mi == b / mi,
                            a % mi == b % mi,
                    ;
                }
            }
        }
    }
}

/// The row-major assignments of the lengths `lens.skip(from)`.
fn assignments_from(lens: &Vec<usize>, from: usize) -> (r: Vec<Vec<usize>>)
    requires
        from <= lens.len(),
    ensures
        shapes_view(r@) == assignments(lens@.skip(from as int)),
    decreases lens.len() - from,
{
    if from == lens.len() {
        let mut r: Vec<Vec<usize>> = Vec::new();
        r.push(Vec::new());
        assert(lens@.skip(from as int).len() == 0);
        assert(shapes_view(r@) =~= seq![Seq::<usize>::empty()]);
        return r;
    }
    let rest = assignments_from(lens, from + 1);
    let ghost tail = lens@.skip(from as int);
    assert(tail.drop_first() =~= lens@.skip(from + 1));
    let ghost rs = assignments(tail.drop_first());
    let n = lens[from];
    let mut r: Vec<Vec<usize>> = Vec::new();
    assert(Seq::new(0, |k: int| prepend_all(k, rs)).flatten() =~= Seq::<Seq<usize>>::empty());
    for i in 0..n
        invariant
            shapes_view(rest@) == rs,
            shapes_view(r@) == Seq::new(i as nat, |k: int| prepend_all(k, rs)).flatten(),
    {
        let ghost before = shapes_view(r@);
        for t in 0..rest.len()
            invariant
                shapes_view(rest@) == rs,
                shapes_view(r@) == before + prepend_all(i as int, rs).take(t as int),
        {
            let mut row: Vec<usize> = Vec::new();
            row.push(i);
            let mut tl = rest[t].clone();
            assert(tl@ =~= rest@[t as int]@);
            row.append(&mut tl);
            let ghost fi = prepend_all(i as int, rs);
            assert(rs[t as int] == rest@[t as int]@);
            assert(row@ =~= seq![i] + rs[t as int]);
            assert(fi[t as int] == seq![i] + rs[t as int]);
            let ghost old_r = r@;
            r.push(row);
            assert(shapes_view(r@) =~= shapes_view(old_r).push(row@));
            assert(fi.take(t + 1) =~= fi.take(t as int).push(fi[t as int]));
            assert(shapes_view(r@) =~= before + fi.take(t + 1));
        }
        assert(prepend_all(i as int, rs).take(rest.len() as int) =~= prepend_all(i as int, rs));
        assert(Seq::new((i + 1) as nat, |k: int| prepend_all(k, rs)) =~= Seq::new(
            i as nat,
            |k: int| prepend_all(k, rs),
        ).push(prepend_all(i as int, rs)));
        proof {
            Seq::new(i as nat, |k: int| prepend_all(k, rs)).lemma_flatten_push(
                prepend_all(i as int, rs),
            );
        }
    }
    assert(tail[0] == n);
    r
}

/// Every tuple within the bounds `lengths`, each once, in row-major order
/// (the last coordinate varies fastest), as the nested loops of a direct
/// einsum visit them.
pub fn index_assignments(lengths: &Vec<usize>) -> (r: Vec<Vec<usize>>)
    ensures
        shapes_view(r@) == assignments(lengths@),
        forall|t: Seq<usize>| shapes_view(r@).contains(t) <==> within_bounds(t, lengths@),
        forall|a: int, b: int|
            0 <= a < b < r@.len() ==> lex_less(#[trigger] r@[a]@, #[trigger] r@[b]@),
{
    let r = assignments_from(lengths, 0);
    assert(lengths@.skip(0) =~= lengths@);
    proof {
        lemma_assignments_lex_sorted(lengths@);
        assert forall|t: Seq<usize>| shapes_view(r@).contains(t) <==> within_bounds(t, lengths@) by {
            lemma_assignments_contains(lengths@, t);
        }
        assert forall|a: int, b: int| 0 <= a < b < r@.len() implies lex_less(
            #[trigger] r@[a]@,
            #[trigger] r@[b]@,
        ) by {
            assert(shapes_view(r@)[a] == r@[a]@);
            assert(shapes_view(r@)[b] == r@[b]@);
        }
    }
    r
}

/// The last position of `c` in `s`, or `-1` when it is not there.
pub open spec fn last_position(s: Seq<char>, c: char) -> int
    decreases s.len(),
{
    if s.len() == 0 {
        -1
    } else if s.last() == c {
        s.len() - 1
    } else {
        last_position(s.drop_last(), c)
    }
}

/// Characterisation of `last_position`.
pub proof fn lemma_last_position(s: Seq<char>, c: char)
    ensures
        -1 <= last_position(s, c) < s.len(),
        last_position(s, c) >= 0 <==> s.contains(c),
        last_position(s, c) >= 0 ==> s[last_position(s, c)] == c,
        forall|q: int| last_position(s, c) < q < s.len() ==> #[trigger] s[q] != c,
    decreases s.len(),
{
    if s.len() > 0 {
        lemma_last_position(s.drop_last(), c);
        if s.last() != c {
            if s.contains(c) {
                let i = choose|i: int| 0 <= i < s.len() && s[i] == c;
                assert(s.drop_last()[i] == c);
            }
            if s.drop_last().contains(c) {
                let i = choose|i: int| 0 <= i < s.drop_last().len() && s.drop_last()[i] == c;
                assert(s[i] == c);
            }
            assert forall|q: int| last_position(s, c) < q < s.len() implies #[trigger] s[q] != c by {
                if q < s.len() - 1 {
                    assert(s.drop_last()[q] == s[q]);
                }
            }
        } else {
            assert(s[s.len() - 1] == c);
        }
    }
}

/// The value bound to index `c`, where `bound[p]` takes the value
/// `values[p]` and a later binding of the same index overrides an earlier one.
pub open spec fn bound_value(bound: Seq<char>, values: Seq<usize>, c: char) -> usize {
    values[last_position(bound, c)]
}

/// The position at which an operand with index word `indices` is read,
/// where `bound_indices[p]` takes the value `bound_values[p]` (a later
/// binding of the same index overrides an earlier one). Every index of
/// `indices` must be bound.
pub fn make_index(indices: &str, bound_indices: &Vec<char>, bound_values: &Vec<usize>) -> (r: Vec<
    usize,
>)
    requires
        bound_indices@.len() == bound_values@.len(),
        forall|i: int| 0 <= i < indices@.len() ==> bound_indices@.contains(#[trigger] indices@[i]),
    ensures
        r@.len() == indices@.len(),
        forall|i: int|
            0 <= i < indices@.len() ==> #[trigger] r@[i] == bound_value(
                bound_indices@,
                bound_values@,
                indices@[i],
            ),
{
    let cs = chars_of(indices);
    let mut r: Vec<usize> = Vec::new();
    for i in 0..cs.len()
        invariant
            cs@ == indices@,
            bound_indices@.len() == bound_values@.len(),
            forall|i: int| 0 <= i < indices@.len() ==> bound_indices@.contains(#[trigger] indices@[i]),
            r@.len() == i,
            forall|k: int|
                0 <= k < i ==> #[trigger] r@[k] == bound_value(bound_indices@, bound_values@, cs@[k]),
    {
        let c = cs[i];
        assert(bound_indices@.contains(indices@[i as int]));
        let mut p: usize = bound_indices.len();
        while p > 0 && bound_indices[p - 1] != c
            invariant
                p <= bound_indices.len(),
                bound_indices@.contains(c),
                forall|q: int| p <= q < bound_indices@.len() ==> bound_indices@[q] != c,
            decreases p,
        {
            p -= 1;
        }
        proof {
            lemma_last_position(bound_indices@, c);
            let lp = last_position(bound_indices@, c);
            if p == 0 {
                assert(bound_indices@[lp] != c);
            } else {
                assert(lp == p - 1);
            }
        }
        r.push(bound_values[p - 1]);
    }
    r
}

/// The lengths of the indices `cs`.
pub open spec fn shape_of(cs: Seq<char>, sizes: Map<char, usize>) -> Seq<usize> {
    cs.map_values(|c: char| sizes[c])
}

impl SizedContraction {
    /// The lengths of `cs`, each of which has a length.
    fn lengths_of(&self, cs: &Vec<char>) -> (r: Vec<usize>)
        requires
            forall|i: int| 0 <= i < cs@.len() ==> self@.sizes.contains_key(#[trigger] cs@[i]),
        ensures
            r@ == shape_of(cs@, self@.sizes),
    {
        let sizes = self.output_size();
        let mut r: Vec<usize> = Vec::new();
        for i in 0..cs.len()
            invariant
                sizes@ == self@.sizes,
                forall|i: int| 0 <= i < cs@.len() ==> self@.sizes.contains_key(#[trigger] cs@[i]),
                r@ =~= shape_of(cs@, self@.sizes).take(i as int),
        {
            let n = match sizes.get(cs[i]) {
                Some(n) => n,
                None => {
                    proof {
                        assert(self@.sizes.contains_key(cs@[i as int]));
                    }
                    0
                },
            };
            r.push(n);
        }
        r
    }

    /// The shape of the result: the length of each output index, in order.
    pub fn output_shape(&self) -> (r: Vec<usize>)
        ensures
            r@ == shape_of(self@.contraction.output, self@.sizes),
    {
        let c = self.contraction();
        let out = c.output_indices();
        proof {
            assert forall|i: int| 0 <= i < out@.len() implies self@.sizes.contains_key(
                #[trigger] out@[i],
            ) by {
                assert(self@.contraction.output.contains(out@[i]));
            }
        }
        self.lengths_of(out)
    }

    /// The length of each summation index, in order.
    pub fn summation_shape(&self) -> (r: Vec<usize>)
        ensures
            r@ == shape_of(self@.contraction.summation, self@.sizes),
    {
        let c = self.contraction();
        let sum = c.summation_indices();
        proof {
            assert forall|i: int| 0 <= i < sum@.len() implies self@.sizes.contains_key(
                #[trigger] sum@[i],
            ) by {
                assert(self@.contraction.summation.contains(sum@[i]));
            }
        }
        self.lengths_of(sum)
    }

    /// The output indices followed by the summation indices: every index of
    /// the contraction, each once.
    pub fn bound_indices(&self) -> (r: Vec<char>)
        ensures
            r@ == self@.contraction.output + self@.contraction.summation,
            r@.no_duplicates(),
            forall|c: char| r@.contains(c) <==> input_chars(self@.contraction.operands).contains(c),
    {
        let c = self.contraction();
        let mut r = c.output_indices().clone();
        let mut sum = c.summation_indices().clone();
        assert(r@ =~= self@.contraction.output);
        assert(sum@ =~= self@.contraction.summation);
        r.append(&mut sum);
        proof {
            let o = self@.contraction.output;
            let s = self@.contraction.summation;
            assert forall|a: int, b: int| 0 <= a < r@.len() && 0 <= b < r@.len() && a != b implies r@[a]
                != r@[b] by {
                if a < o.len() && b >= o.len() {
                    assert(r@[b] == s[b - o.len()]);
                } else if b < o.len() && a >= o.len() {
                    assert(r@[a] == s[a - o.len()]);
                } else if a >= o.len() {
                    assert(r@[a] == s[a - o.len()] && r@[b] == s[b - o.len()]);
                }
            }
            assert forall|x: char| r@.contains(x) <==> (o.contains(x) || s.contains(x)) by {
                if r@.contains(x) {
                    let i = choose|i: int| 0 <= i < r@.len() && r@[i] == x;
                    if i >= o.len() {
                        assert(s[i - o.len()] == x);
                    }
                }
                if s.contains(x) {
                    let i = choose|i: int| 0 <= i < s.len() && s[i] == x;
                    assert(r@[i + o.len()] == x);
                }
                if o.contains(x) {
                    let i = choose|i: int| 0 <= i < o.len() && o[i] == x;
                    assert(r@[i] == x);
                }
            }
            assert(contraction_well_formed(self@.contraction));
            assert forall|x: char| r@.contains(x) <==> input_chars(
                self@.contraction.operands,
            ).contains(x) by {
                assert(r@.contains(x) <==> (o.contains(x) || s.contains(x)));
            }
        }
        r
    }
}

/// Law: reading an operand at the position that `make_index` gives, under
/// any output position and any summation assignment, stays within the shape
/// the operand was sized with.
pub proof fn lemma_index_within_shape(
    m: SizedContractionModel,
    shapes: Seq<Seq<usize>>,
    out_pos: Seq<usize>,
    sum_pos: Seq<usize>,
    k: int,
    j: int,
)
    requires
        sized_well_formed(m),
        is_size_map(m.contraction.operands, shapes, m.sizes),
        assignments(shape_of(m.contraction.output, m.sizes)).contains(out_pos),
        assignments(shape_of(m.contraction.summation, m.sizes)).contains(sum_pos),
        0 <= k < m.contraction.operands.len(),
        0 <= j < m.contraction.operands[k].len(),
    ensures
        bound_value(
            m.contraction.output + m.contraction.summation,
            out_pos + sum_pos,
            m.contraction.operands[k][j],
        ) < shapes[k][j],
{
    let o = m.contraction.output;
    let s = m.contraction.summation;
    let ops = m.contraction.operands;
    let b = o + s;
    let c = ops[k][j];
    lemma_assignments_contains(shape_of(o, m.sizes), out_pos);
    lemma_assignments_contains(shape_of(s, m.sizes), sum_pos);
    lemma_flatten_contains(ops, c);
    assert(input_chars(ops).contains(c));
    assert(b.contains(c)) by {
        if o.contains(c) {
            let i = choose|i: int| 0 <= i < o.len() && o[i] == c;
            assert(b[i] == c);
        } else {
            let i = choose|i: int| 0 <= i < s.len() && s[i] == c;
            assert(b[i + o.len()] == c);
        }
    }
    lemma_last_position(b, c);
    let p = last_position(b, c);
    assert(b[p] == c);
    if p < o.len() {
        assert(out_pos[p] < shape_of(o, m.sizes)[p]);
        assert((out_pos + sum_pos)[p] == out_pos[p]);
    } else {
        assert(sum_pos[p - o.len()] < shape_of(s, m.sizes)[p - o.len()]);
        assert((out_pos + sum_pos)[p] == sum_pos[p - o.len()]);
    }
    assert(m.sizes[c] == shapes[k][j]);
}

/// The operands of a slow einsum, flattened: the shape, and the elements in
/// row-major order.
#[derive(Debug)]
pub struct FlattenedOperand<T> {
    shape: Vec<usize>,
    contents: Vec<T>,
}

} // verus!
