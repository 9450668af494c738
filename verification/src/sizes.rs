//! The length of each index, read off the shapes of the operands.
use vstd::prelude::*;
use crate::contraction::{
    contraction_well_formed, input_chars, lemma_validation_error, validate,
    validation_error, validation_outcome, Contraction, ContractionModel,
};
use crate::parse::{join_commas, spec_parse};
use crate::text::{chars_of, lemma_flatten_contains};

verus! {

/// The shape of each operand, as sequences.
pub open spec fn shapes_view(v: Seq<Vec<usize>>) -> Seq<Seq<usize>> {
    v.map_values(|s: Vec<usize>| s@)
}

/// The index `c` is written somewhere in the operand words.
pub open spec fn occurs_in(ops: Seq<Seq<char>>, c: char) -> bool {
    exists|k: int, j: int| 0 <= k < ops.len() && 0 <= j < ops[k].len() && #[trigger] ops[k][j] == c
}

/// Within the first `n` operands, each index has one length wherever it is
/// written.
pub open spec fn sizes_agree(ops: Seq<Seq<char>>, shapes: Seq<Seq<usize>>, n: int) -> bool {
    forall|k1: int, j1: int, k2: int, j2: int|
        0 <= k1 < n && 0 <= k2 < n && 0 <= j1 < ops[k1].len() && 0 <= j2 < ops[k2].len()
            && #[trigger] ops[k1][j1] == #[trigger] ops[k2][j2] ==> shapes[k1][j1] == shapes[k2][j2]
}

pub open spec fn operand_count_message() -> Seq<char> {
    "number of operands in contraction does not match number of operands supplied"@
}

pub open spec fn operand_rank_message() -> Seq<char> {
    "number of indices in one or more operands does not match dimensions of operand"@
}

pub open spec fn repeated_size_message() -> Seq<char> {
    "repeated index with different size"@
}

/// The error met while reading the first `n` operands in order, if any: an
/// operand whose number of indices differs from its number of dimensions,
/// or one that gives an index a second, different length.
pub open spec fn sizing_error_prefix(ops: Seq<Seq<char>>, shapes: Seq<Seq<usize>>, n: int) -> Option<
    Seq<char>,
>
    decreases n,
{
    if n <= 0 {
        None
    } else {
        match sizing_error_prefix(ops, shapes, n - 1) {
            Some(e) => Some(e),
            None => if ops[n - 1].len() != shapes[n - 1].len() {
                Some(operand_rank_message())
            } else if !sizes_agree(ops, shapes, n) {
                Some(repeated_size_message())
            } else {
                None
            },
        }
    }
}

/// The error that sizing meets, if any.
pub open spec fn sizing_error(ops: Seq<Seq<char>>, shapes: Seq<Seq<usize>>) -> Option<Seq<char>> {
    if ops.len() != shapes.len() {
        Some(operand_count_message())
    } else {
        sizing_error_prefix(ops, shapes, ops.len() as int)
    }
}

/// `m` gives every index written in the operands, and only those, the
/// length of the axis it labels.
pub open spec fn is_size_map(ops: Seq<Seq<char>>, shapes: Seq<Seq<usize>>, m: Map<char, usize>) -> bool {
    &&& forall|c: char| m.contains_key(c) <==> occurs_in(ops, c)
    &&& forall|k: int, j: int|
        0 <= k < ops.len() && 0 <= j < ops[k].len() ==> m[#[trigger] ops[k][j]] == shapes[k][j]
}

/// What sizing the operands `ops` with the shapes `shapes` gives.
pub open spec fn sizing_outcome(
    ops: Seq<Seq<char>>,
    shapes: Seq<Seq<usize>>,
    r: Result<Map<char, usize>, Seq<char>>,
) -> bool {
    match sizing_error(ops, shapes) {
        Some(e) => r == Err::<Map<char, usize>, Seq<char>>(e),
        None => r matches Ok(m) && is_size_map(ops, shapes, m),
    }
}

/// The map from a list of distinct keys and a list of values.
pub open spec fn map_of(keys: Seq<char>, vals: Seq<usize>) -> Map<char, usize>
    decreases keys.len(),
{
    if keys.len() == 0 {
        Map::empty()
    } else {
        map_of(keys.drop_last(), vals.drop_last()).insert(keys.last(), vals[keys.len() - 1])
    }
}

proof fn lemma_map_of(keys: Seq<char>, vals: Seq<usize>)
    requires
        keys.len() == vals.len(),
    ensures
        forall|c: char| map_of(keys, vals).contains_key(c) <==> keys.contains(c),
        keys.no_duplicates() ==> forall|i: int|
            0 <= i < keys.len() ==> map_of(keys, vals)[#[trigger] keys[i]] == vals[i],
    decreases keys.len(),
{
    if keys.len() > 0 {
        let k0 = keys.drop_last();
        let v0 = vals.drop_last();
        lemma_map_of(k0, v0);
        assert forall|c: char| map_of(keys, vals).contains_key(c) <==> keys.contains(c) by {
            if k0.contains(c) {
                let i = choose|i: int| 0 <= i < k0.len() && k0[i] == c;
                assert(keys[i] == c);
            }
            if keys.contains(c) && c != keys.last() {
                let i = choose|i: int| 0 <= i < keys.len() && keys[i] == c;
                assert(k0[i] == c);
            }
            if c == keys.last() {
                assert(keys[keys.len() - 1] == c);
            }
        }
        if keys.no_duplicates() {
            assert(k0.no_duplicates());
            assert forall|i: int| 0 <= i < keys.len() implies map_of(keys, vals)[#[trigger] keys[i]]
                == vals[i] by {
                if i < keys.len() - 1 {
                    assert(k0[i] == keys[i]);
                    assert(keys[i] != keys.last());
                }
            }
        }
    }
}

/// An error met while reading a prefix stays the error of every longer one.
proof fn lemma_sizing_error_persists(
    ops: Seq<Seq<char>>,
    shapes: Seq<Seq<usize>>,
    n: int,
    m: int,
)
    requires
        0 <= n <= m,
        sizing_error_prefix(ops, shapes, n) is Some,
    ensures
        sizing_error_prefix(ops, shapes, m) == sizing_error_prefix(ops, shapes, n),
    decreases m - n,
{
    if m > n {
        lemma_sizing_error_persists(ops, shapes, n, m - 1);
    }
}

/// The distinct characters of `s`, in the order of their first occurrence.
pub open spec fn first_occurrences(s: Seq<char>) -> Seq<char>
    decreases s.len(),
{
    if s.len() == 0 {
        Seq::<char>::empty()
    } else {
        let p = first_occurrences(s.drop_last());
        if p.contains(s.last()) {
            p
        } else {
            p.push(s.last())
        }
    }
}

/// Within the first `n` operands every operand has one dimension per index.
pub open spec fn ranks_match(ops: Seq<Seq<char>>, shapes: Seq<Seq<usize>>, n: int) -> bool {
    forall|k: int| 0 <= k < n ==> (#[trigger] ops[k]).len() == shapes[k].len()
}

proof fn lemma_sizing_prefix_none(ops: Seq<Seq<char>>, shapes: Seq<Seq<usize>>, n: int)
    requires
        0 <= n,
    ensures
        sizing_error_prefix(ops, shapes, n) is None <==> (ranks_match(ops, shapes, n) && sizes_agree(
            ops,
            shapes,
            n,
        )),
    decreases n,
{
    if n > 0 {
        lemma_sizing_prefix_none(ops, shapes, n - 1);
        if sizes_agree(ops, shapes, n) {
            assert(sizes_agree(ops, shapes, n - 1));
        }
        if ranks_match(ops, shapes, n) {
            assert(ranks_match(ops, shapes, n - 1));
            assert(ops[n - 1].len() == shapes[n - 1].len());
        }
    }
}

/// Law: sizing succeeds exactly when there is one shape per operand, one
/// dimension per index of each operand, and one length per index wherever
/// it is written.
pub proof fn lemma_sizing_succeeds_iff(ops: Seq<Seq<char>>, shapes: Seq<Seq<usize>>)
    ensures
        sizing_error(ops, shapes) is None <==> {
            &&& ops.len() == shapes.len()
            &&& ranks_match(ops, shapes, ops.len() as int)
            &&& sizes_agree(ops, shapes, ops.len() as int)
        },
{
    lemma_sizing_prefix_none(ops, shapes, ops.len() as int);
}

/// Law: sizing succeeds when there is one shape per operand, one
/// dimension per index of each operand, and every index written twice is
/// given one length; it then gives each written index, and no other, the
/// length of the axes it labels.
pub proof fn lemma_sizing_accepts(
    ops: Seq<Seq<char>>,
    shapes: Seq<Seq<usize>>,
    r: Result<Map<char, usize>, Seq<char>>,
)
    requires
        sizing_outcome(ops, shapes, r),
        ops.len() == shapes.len(),
        forall|k: int| 0 <= k < ops.len() ==> (#[trigger] ops[k]).len() == shapes[k].len(),
        forall|k1: int, j1: int, k2: int, j2: int|
            0 <= k1 < ops.len() && 0 <= k2 < ops.len() && 0 <= j1 < ops[k1].len() && 0 <= j2
                < ops[k2].len() && #[trigger] ops[k1][j1] == #[trigger] ops[k2][j2] ==> shapes[k1][j1]
                == shapes[k2][j2],
    ensures
        r is Ok,
        forall|k: int, j: int|
            0 <= k < ops.len() && 0 <= j < ops[k].len() ==> r->Ok_0[#[trigger] ops[k][j]]
                == shapes[k][j],
        forall|c: char|
            r->Ok_0.contains_key(c) <==> exists|k: int, j: int|
                0 <= k < ops.len() && 0 <= j < ops[k].len() && #[trigger] ops[k][j] == c,
{
    lemma_sizing_succeeds_iff(ops, shapes);
    assert(ranks_match(ops, shapes, ops.len() as int));
    assert(sizes_agree(ops, shapes, ops.len() as int));
    assert forall|c: char| r->Ok_0.contains_key(c) <==> exists|k: int, j: int|
        0 <= k < ops.len() && 0 <= j < ops[k].len() && #[trigger] ops[k][j] == c by {
        assert(r->Ok_0.contains_key(c) <==> occurs_in(ops, c));
    }
}

proof fn lemma_sizing_prefix_cause(ops: Seq<Seq<char>>, shapes: Seq<Seq<usize>>, n: int, e: Seq<char>)
    requires
        0 <= n <= ops.len(),
        sizing_error_prefix(ops, shapes, n) == Some(e),
    ensures
        (e == operand_rank_message() && exists|k: int|
            0 <= k < n && (#[trigger] ops[k]).len() != shapes[k].len()) || (e == repeated_size_message()
            && exists|k1: int, j1: int, k2: int, j2: int|
            0 <= k1 < ops.len() && 0 <= k2 < ops.len() && 0 <= j1 < ops[k1].len() && j1
                < shapes[k1].len() && 0 <= j2 < ops[k2].len() && j2 < shapes[k2].len()
                && #[trigger] ops[k1][j1] == #[trigger] ops[k2][j2] && shapes[k1][j1]
                != shapes[k2][j2]),
    decreases n,
{
    if n > 0 {
        match sizing_error_prefix(ops, shapes, n - 1) {
            Some(e0) => {
                lemma_sizing_prefix_cause(ops, shapes, n - 1, e0);
            },
            None => {
                lemma_sizing_prefix_none(ops, shapes, n - 1);
                if ops[n - 1].len() != shapes[n - 1].len() {
                    assert(e == operand_rank_message());
                } else {
                    assert(!sizes_agree(ops, shapes, n));
                    let (k1, j1, k2, j2) = choose|k1: int, j1: int, k2: int, j2: int|
                        !(0 <= k1 < n && 0 <= k2 < n && 0 <= j1 < ops[k1].len() && 0 <= j2
                            < ops[k2].len() && #[trigger] ops[k1][j1] == #[trigger] ops[k2][j2]
                            ==> shapes[k1][j1] == shapes[k2][j2]);
                    assert(ops[k1].len() == shapes[k1].len());
                    assert(ops[k2].len() == shapes[k2].len());
                }
            },
        }
    }
}

/// Law: sizing fails only for a stated cause: operand and shape counts that
/// differ, an operand whose number of indices differs from its number of
/// dimensions, or an index given two different lengths.
pub proof fn lemma_sizing_error_cause(ops: Seq<Seq<char>>, shapes: Seq<Seq<usize>>, e: Seq<char>)
    requires
        sizing_outcome(ops, shapes, Err(e)),
    ensures
        (e == operand_count_message() && ops.len() != shapes.len()) || (e == operand_rank_message()
            && exists|k: int| 0 <= k < ops.len() && (#[trigger] ops[k]).len() != shapes[k].len()) || (e
            == repeated_size_message() && exists|k1: int, j1: int, k2: int, j2: int|
            0 <= k1 < ops.len() && 0 <= k2 < ops.len() && 0 <= j1 < ops[k1].len() && j1
                < shapes[k1].len() && 0 <= j2 < ops[k2].len() && j2 < shapes[k2].len()
                && #[trigger] ops[k1][j1] == #[trigger] ops[k2][j2] && shapes[k1][j1]
                != shapes[k2][j2]),
{
    if ops.len() == shapes.len() {
        lemma_sizing_prefix_cause(ops, shapes, ops.len() as int, e);
    }
}

/// The length of each index of a contraction.
#[derive(Debug)]
pub struct OutputSize {
    indices: Vec<char>,
    sizes: Vec<usize>,
}

impl OutputSize {
    #[verifier::type_invariant]
    closed spec fn inv(self) -> bool {
        &&& self.indices.len() == self.sizes.len()
        &&& self.indices@.no_duplicates()
    }
}

impl View for OutputSize {
    type V = Map<char, usize>;

    closed spec fn view(&self) -> Map<char, usize> {
        map_of(self.indices@, self.sizes@)
    }
}

impl OutputSize {
    /// The indices that have a length, in the order in which the operands
    /// first name them.
    pub closed spec fn index_order(&self) -> Seq<char> {
        self.indices@
    }

    /// The length of index `c`, if it has one.
    pub fn get(&self, c: char) -> (r: Option<usize>)
        ensures
            r == (if self@.contains_key(c) {
                Some(self@[c])
            } else {
                None::<usize>
            }),
    {
        proof {
            use_type_invariant(self);
            lemma_map_of(self.indices@, self.sizes@);
        }
        let mut i: usize = 0;
        while i < self.indices.len()
            invariant
                i <= self.indices.len(),
                self.indices.len() == self.sizes.len(),
                forall|j: int| 0 <= j < i ==> self.indices@[j] != c,
            decreases self.indices.len() - i,
        {
            if self.indices[i] == c {
                proof {
                    use_type_invariant(self);
                    lemma_map_of(self.indices@, self.sizes@);
                    assert(self.indices@[i as int] == c);
                    assert(self.indices@.contains(c));
                }
                return Some(self.sizes[i]);
            }
            i += 1;
        }
        proof {
            lemma_map_of(self.indices@, self.sizes@);
            assert(!self.indices@.contains(c));
        }
        None
    }

    /// The indices that have a length, each once, in the order in which the
    /// operands first name them.
    pub fn indices(&self) -> (r: &Vec<char>)
        ensures
            r@ == self.index_order(),
            r@.no_duplicates(),
            forall|c: char| r@.contains(c) <==> self@.contains_key(c),
    {
        proof {
            use_type_invariant(self);
            lemma_map_of(self.indices@, self.sizes@);
        }
        &self.indices
    }

    /// The lengths of the indices, in the order of `indices`.
    pub fn sizes(&self) -> (r: &Vec<usize>)
        ensures
            r@.len() == self.index_order().len(),
            forall|i: int| 0 <= i < r@.len() ==> #[trigger] r@[i] == self@[self.index_order()[i]],
    {
        proof {
            use_type_invariant(self);
            lemma_map_of(self.indices@, self.sizes@);
        }
        &self.sizes
    }
}

pub open spec fn size_result_view(r: Result<OutputSize, &'static str>) -> Result<
    Map<char, usize>,
    Seq<char>,
> {
    match r {
        Ok(m) => Ok(m@),
        Err(e) => Err(e@),
    }
}

/// Position of `c` in `keys`, if it is there.
fn position_of(keys: &Vec<char>, c: char) -> (r: Option<usize>)
    ensures
        match r {
            Some(p) => p < keys@.len() && keys@[p as int] == c,
            None => !keys@.contains(c),
        },
{
    let mut i: usize = 0;
    while i < keys.len()
        invariant
            i <= keys.len(),
            forall|j: int| 0 <= j < i ==> keys@[j] != c,
        decreases keys.len() - i,
    {
        if keys[i] == c {
            return Some(i);
        }
        i += 1;
    }
    None
}

/// Reads the length of every index of `contraction` off the shapes of the
/// operands, checking that there is one shape per operand, one dimension
/// per index, and one length per index wherever it is written. The checks
/// run operand by operand, in order; the first failure is reported.
pub fn get_output_size_from_shapes(contraction: &Contraction, operand_shapes: &Vec<Vec<usize>>) -> (result:
    Result<OutputSize, &'static str>)
    ensures
        sizing_outcome(contraction@.operands, shapes_view(operand_shapes@), size_result_view(result)),
        result matches Ok(m) ==> m.index_order() == first_occurrences(
            input_chars(contraction@.operands),
        ),
{
    let ops = contraction.operand_indices();
    let ghost o = ops.deep_view();
    let ghost s = shapes_view(operand_shapes@);
    if ops.len() != operand_shapes.len() {
        return Err("number of operands in contraction does not match number of operands supplied");
    }
    let mut keys: Vec<char> = Vec::new();
    let mut vals: Vec<usize> = Vec::new();
    for k in 0..ops.len()
        invariant
            o == ops.deep_view(),
            o == contraction@.operands,
            s == shapes_view(operand_shapes@),
            o.len() == s.len(),
            ops.len() == operand_shapes.len(),
            keys.len() == vals.len(),
            keys@.no_duplicates(),
            sizing_error_prefix(o, s, k as int) is None,
            keys@ == first_occurrences(o.take(k as int).flatten()),
            forall|k1: int, j1: int|
                0 <= k1 < k && 0 <= j1 < o[k1].len() ==> map_of(keys@, vals@).contains_key(
                    #[trigger] o[k1][j1],
                ) && map_of(keys@, vals@)[o[k1][j1]] == s[k1][j1],
            forall|c: char|
                map_of(keys@, vals@).contains_key(c) ==> exists|k1: int, j1: int|
                    0 <= k1 < k && 0 <= j1 < o[k1].len() && #[trigger] o[k1][j1] == c,
    {
        let word = chars_of(ops[k].as_str());
        let shape = &operand_shapes[k];
        assert(word@ == o[k as int]);
        assert(shape@ == s[k as int]);
        if word.len() != shape.len() {
            proof {
                assert(sizing_error_prefix(o, s, k + 1) == Some(operand_rank_message()));
                lemma_sizing_error_persists(o, s, k + 1, o.len() as int);
            }
            return Err("number of indices in one or more operands does not match dimensions of operand");
        }
        assert(o.take(k as int).flatten() + word@.take(0) =~= o.take(k as int).flatten());
        for j in 0..word.len()
            invariant
                o == ops.deep_view(),
                o == contraction@.operands,
                s == shapes_view(operand_shapes@),
                o.len() == s.len(),
                k < o.len(),
                word@ == o[k as int],
                shape@ == s[k as int],
                word.len() == shape.len(),
                keys.len() == vals.len(),
                keys@.no_duplicates(),
                sizing_error_prefix(o, s, k as int) is None,
                keys@ == first_occurrences(o.take(k as int).flatten() + word@.take(j as int)),
                forall|k1: int, j1: int|
                    ((0 <= k1 < k && 0 <= j1 < o[k1].len()) || (k1 == k && 0 <= j1 < j))
                        ==> map_of(keys@, vals@).contains_key(#[trigger] o[k1][j1]) && map_of(
                        keys@,
                        vals@,
                    )[o[k1][j1]] == s[k1][j1],
                forall|c: char|
                    map_of(keys@, vals@).contains_key(c) ==> exists|k1: int, j1: int|
                        ((0 <= k1 < k && 0 <= j1 < o[k1].len()) || (k1 == k && 0 <= j1 < j))
                            && #[trigger] o[k1][j1] == c,
        {
            let c = word[j];
            let n = shape[j];
            let ghost seen = o.take(k as int).flatten() + word@.take(j as int);
            proof {
                lemma_map_of(keys@, vals@);
                assert((o.take(k as int).flatten() + word@.take(j + 1)).drop_last() =~= seen);
                assert((o.take(k as int).flatten() + word@.take(j + 1)).last() == c);
            }
            match position_of(&keys, c) {
                Some(p) => {
                    if vals[p] != n {
                        proof {
                            assert(map_of(keys@, vals@)[keys@[p as int]] == vals@[p as int]);
                            assert(keys@.contains(c));
                            assert(map_of(keys@, vals@).contains_key(c));
                            let (k1, j1) = choose|k1: int, j1: int|
                                ((0 <= k1 < k && 0 <= j1 < o[k1].len()) || (k1 == k && 0 <= j1
                                    < j)) && #[trigger] o[k1][j1] == c;
                            assert(o[k as int][j as int] == c);
                            assert(s[k1][j1] != s[k as int][j as int]);
                            assert(!sizes_agree(o, s, k + 1));
                            assert(sizing_error_prefix(o, s, k + 1) == Some(repeated_size_message()));
                            lemma_sizing_error_persists(o, s, k + 1, o.len() as int);
                        }
                        return Err("repeated index with different size");
                    }
                    assert(map_of(keys@, vals@)[keys@[p as int]] == vals@[p as int]);
                    assert(keys@.contains(c));
                    assert(map_of(keys@, vals@).contains_key(c));
                },
                None => {
                    let ghost pk = keys@;
                    let ghost pv = vals@;
                    keys.push(c);
                    vals.push(n);
                    proof {
                        assert(keys@.drop_last() =~= pk);
                        assert(vals@.drop_last() =~= pv);
                        assert(map_of(keys@, vals@) == map_of(pk, pv).insert(c, n));
                        assert forall|a: int, b: int|
                            0 <= a < keys@.len() && 0 <= b < keys@.len() && a != b implies keys@[a]
                            != keys@[b] by {
                            if a < pk.len() && b < pk.len() {
                                assert(pk[a] != pk[b]);
                            } else if a < pk.len() {
                                assert(pk.contains(pk[a]));
                            } else {
                                assert(pk.contains(pk[b]));
                            }
                        }
                    }
                },
            }
            proof {
                let m = map_of(keys@, vals@);
                assert(o[k as int][j as int] == c);
                assert(m.contains_key(c) && m[c] == n);
                assert forall|c2: char| m.contains_key(c2) implies exists|k1: int, j1: int|
                    ((0 <= k1 < k && 0 <= j1 < o[k1].len()) || (k1 == k && 0 <= j1 < j + 1))
                        && #[trigger] o[k1][j1] == c2 by {
                    if c2 != c {
                        let (k1, j1) = choose|k1: int, j1: int|
                            ((0 <= k1 < k && 0 <= j1 < o[k1].len()) || (k1 == k && 0 <= j1 < j))
                                && #[trigger] o[k1][j1] == c2;
                        assert(o[k1][j1] == c2);
                    } else {
                        assert(o[k as int][j as int] == c2);
                    }
                }
            }
        }
        proof {
            assert(word@.take(word.len() as int) =~= word@);
            assert(o.take(k + 1) =~= o.take(k as int).push(o[k as int]));
            o.take(k as int).lemma_flatten_push(o[k as int]);
            let m = map_of(keys@, vals@);
            assert(o[k as int].len() == s[k as int].len());
            assert(sizes_agree(o, s, k + 1)) by {
                assert forall|k1: int, j1: int, k2: int, j2: int|
                    0 <= k1 < k + 1 && 0 <= k2 < k + 1 && 0 <= j1 < o[k1].len() && 0 <= j2
                        < o[k2].len() && #[trigger] o[k1][j1] == #[trigger] o[k2][j2] implies s[k1][j1]
                    == s[k2][j2] by {
                    assert(m[o[k1][j1]] == s[k1][j1]);
                    assert(m[o[k2][j2]] == s[k2][j2]);
                }
            }
            assert(sizing_error_prefix(o, s, k + 1) is None);
        }
    }
    proof {
        let m = map_of(keys@, vals@);
        assert forall|c: char| m.contains_key(c) <==> occurs_in(o, c) by {
            if occurs_in(o, c) {
                let (k1, j1) = choose|k1: int, j1: int|
                    0 <= k1 < o.len() && 0 <= j1 < o[k1].len() && #[trigger] o[k1][j1] == c;
                assert(m.contains_key(o[k1][j1]));
            }
        }
        assert(is_size_map(o, s, m));
        assert(o.take(o.len() as int) =~= o);
    }
    Ok(OutputSize { indices: keys, sizes: vals })
}


/// An index occurs in the concatenated operand words exactly when it is
/// written in some operand.
proof fn lemma_flatten_occurs(ops: Seq<Seq<char>>, c: char)
    ensures
        input_chars(ops).contains(c) <==> occurs_in(ops, c),
{
    lemma_flatten_contains(ops, c);
}

/// The abstract content of a sized contraction.
pub struct SizedContractionModel {
    pub contraction: ContractionModel,
    pub sizes: Map<char, usize>,
}

/// A contraction together with the length of each of its indices.
#[derive(Debug)]
pub struct SizedContraction {
    contraction: Contraction,
    output_size: OutputSize,
}

/// A well-formed contraction whose every index, and only those, has a length.
pub open spec fn sized_well_formed(m: SizedContractionModel) -> bool {
    &&& contraction_well_formed(m.contraction)
    &&& forall|c: char| m.sizes.contains_key(c) <==> input_chars(m.contraction.operands).contains(c)
}

impl SizedContraction {
    #[verifier::type_invariant]
    closed spec fn inv(self) -> bool {
        sized_well_formed(self@)
    }
}

impl View for SizedContraction {
    type V = SizedContractionModel;

    closed spec fn view(&self) -> SizedContractionModel {
        SizedContractionModel { contraction: self.contraction@, sizes: self.output_size@ }
    }
}

impl SizedContraction {
    /// The indices that have a length, in the order in which the operands
    /// first name them.
    pub closed spec fn size_order(&self) -> Seq<char> {
        self.output_size.index_order()
    }

    /// The contraction.
    pub fn contraction(&self) -> (r: &Contraction)
        ensures
            r@ == self@.contraction,
            sized_well_formed(self@),
    {
        proof {
            use_type_invariant(self);
        }
        &self.contraction
    }

    /// The length of each index.
    pub fn output_size(&self) -> (r: &OutputSize)
        ensures
            r@ == self@.sizes,
            r.index_order() == self.size_order(),
            sized_well_formed(self@),
    {
        proof {
            use_type_invariant(self);
        }
        &self.output_size
    }
}

pub open spec fn sized_result_view(r: Result<SizedContraction, &'static str>) -> Result<
    SizedContractionModel,
    Seq<char>,
> {
    match r {
        Ok(m) => Ok(m@),
        Err(e) => Err(e@),
    }
}

/// What validating the text `s` and sizing it with `shapes` gives: the
/// validation error if there is one, else the sizing error if there is one,
/// else the contraction and the length of each of its indices.
pub open spec fn sized_validation_outcome(
    s: Seq<char>,
    shapes: Seq<Seq<usize>>,
    r: Result<SizedContractionModel, Seq<char>>,
) -> bool {
    match validation_error(s) {
        Some(e) => r == Err::<SizedContractionModel, Seq<char>>(e),
        None => {
            let ops = spec_parse(s)->0.operands;
            match sizing_error(ops, shapes) {
                Some(e) => r == Err::<SizedContractionModel, Seq<char>>(e),
                None => r matches Ok(m) && validation_outcome(s, Ok(m.contraction)) && is_size_map(
                    ops,
                    shapes,
                    m.sizes,
                ),
            }
        },
    }
}

/// Validates the expression and reads the length of each index off the
/// operand shapes.
pub fn validate_and_size_from_shapes(input_string: &str, operand_shapes: &Vec<Vec<usize>>) -> (result:
    Result<SizedContraction, &'static str>)
    ensures
        sized_validation_outcome(
            input_string@,
            shapes_view(operand_shapes@),
            sized_result_view(result),
        ),
        result matches Ok(sc) ==> sc.size_order() == first_occurrences(
            input_chars(sc@.contraction.operands),
        ),
{
    let contraction = match validate(input_string) {
        Ok(c) => c,
        Err(e) => {
            proof {
                lemma_validation_error(input_string@, Err(e@));
            }
            return Err(e);
        },
    };
    proof {
        lemma_validation_error(input_string@, Ok(contraction@));
    }
    let output_size = match get_output_size_from_shapes(&contraction, operand_shapes) {
        Ok(m) => m,
        Err(e) => {
            return Err(e);
        },
    };
    proof {
        assert forall|c: char| output_size@.contains_key(c) <==> input_chars(
            contraction@.operands,
        ).contains(c) by {
            lemma_flatten_occurs(contraction@.operands, c);
        }
    }
    Ok(SizedContraction { contraction, output_size })
}

/// Operand shapes, as read from JSON.
#[derive(Debug)]
pub struct OperandSizes(Vec<Vec<usize>>);

impl OperandSizes {
    /// The shape of each operand.
    pub fn shapes(&self) -> (r: &Vec<Vec<usize>>)
        ensures
            shapes_view(r@) == self@,
    {
        &self.0
    }
}

impl View for OperandSizes {
    type V = Seq<Seq<usize>>;

    closed spec fn view(&self) -> Seq<Seq<usize>> {
        shapes_view(self.0@)
    }
}

#[verifier::external_type_specification]
#[verifier::external_body]
pub struct ExJsonError(serde_json::Error);

/// What `serde_json::from_str` reads from `text` as a `Vec<Vec<usize>>`:
/// the arrays of non-negative integers that the JSON text holds, or `None`
/// when the text is not such JSON.
pub uninterp spec fn json_operand_shapes(text: Seq<char>) -> Option<Seq<Seq<usize>>>;

/// The decimal digit `d`.
pub open spec fn digit_char(d: nat) -> char {
    (48 + d) as char
}

/// The decimal numeral of `n`, without leading zeros.
pub open spec fn decimal(n: nat) -> Seq<char>
    decreases n,
{
    if n < 10 {
        seq![digit_char(n)]
    } else {
        decimal(n / 10).push(digit_char(n % 10))
    }
}

/// The compact JSON text of an array of non-negative integers, e.g. `[3,2]`.
pub open spec fn json_number_array(ns: Seq<usize>) -> Seq<char> {
    seq!['['] + join_commas(ns.map_values(|n: usize| decimal(n as nat))) + seq![']']
}

/// The compact JSON text of an array of arrays of non-negative integers,
/// e.g. `[[3,2],[2,4]]`: the arrays and the numbers in their order.
pub open spec fn json_shapes_text(shapes: Seq<Seq<usize>>) -> Seq<char> {
    seq!['['] + join_commas(shapes.map_values(|s: Seq<usize>| json_number_array(s))) + seq![']']
}

/// Reads operand shapes from JSON text with `serde_json::from_str`. Trusted:
/// it succeeds exactly when `json_operand_shapes` gives a value, and then
/// yields that value; on the compact JSON text of some shapes it yields
/// those shapes, arrays and numbers in their written order. What else
/// serde_json accepts (white space, other spellings of numbers) is not
/// restated here.
#[verifier::external_body]
fn parse_operand_sizes(text: &str) -> (r: Result<OperandSizes, serde_json::Error>)
    ensures
        r is Ok <==> json_operand_shapes(text@) is Some,
        r matches Ok(v) ==> v@ == json_operand_shapes(text@)->0,
        forall|shapes: Seq<Seq<usize>>| #[trigger] json_shapes_text(shapes) == text@ ==> r is Ok && r->Ok_0@ == shapes,
{
    serde_json::from_str::<Vec<Vec<usize>>>(text).map(OperandSizes)
}

pub open spec fn shapes_parse_message() -> Seq<char> {
    "Error parsing operand shapes into Vec<Vec<usize>>"@
}

/// Like `validate_and_size_from_shapes`, with the shapes given as JSON text
/// (an array of arrays of non-negative integers).
pub fn validate_and_size_from_shapes_as_string(input_string: &str, operand_shapes_as_str: &str) -> (result:
    Result<SizedContraction, &'static str>)
    ensures
        match json_operand_shapes(operand_shapes_as_str@) {
            None => sized_result_view(result) == Err::<SizedContractionModel, Seq<char>>(
                shapes_parse_message(),
            ),
            Some(shapes) => sized_validation_outcome(
                input_string@,
                shapes,
                sized_result_view(result),
            ),
        },
        result matches Ok(sc) ==> sc.size_order() == first_occurrences(
            input_chars(sc@.contraction.operands),
        ),
        forall|shapes: Seq<Seq<usize>>|
            operand_shapes_as_str@ == #[trigger] json_shapes_text(shapes) ==> sized_validation_outcome(
                input_string@,
                shapes,
                sized_result_view(result),
            ),
{
    match parse_operand_sizes(operand_shapes_as_str) {
        Err(_) => Err("Error parsing operand shapes into Vec<Vec<usize>>"),
        Ok(sizes) => validate_and_size_from_shapes(input_string, sizes.shapes()),
    }
}

} // verus!
