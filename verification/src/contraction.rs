//! From a parsed expression to a contraction: which indices the result
//! keeps, and which are summed over.
use vstd::prelude::*;
use crate::parse::{parse_einsum_string, spec_parse, EinsumExpr, EinsumParse};
use crate::text::{
    chars_of, lemma_flatten_contains, contains_char, count_char, count_in, has_duplicate, insert_sorted,
    lemma_count_contains, strictly_increasing,
};

verus! {

broadcast use vstd::seq_lib::group_seq_properties;

/// The abstract content of a contraction.
pub struct ContractionModel {
    pub operands: Seq<Seq<char>>,
    pub output: Seq<char>,
    pub summation: Seq<char>,
}

/// A validated contraction: the operand index words, the output indices in
/// order, and the summation indices in alphabetical order.
#[derive(Debug)]
pub struct Contraction {
    operand_indices: Vec<String>,
    output_indices: Vec<char>,
    summation_indices: Vec<char>,
}

impl View for Contraction {
    type V = ContractionModel;

    closed spec fn view(&self) -> ContractionModel {
        ContractionModel {
            operands: self.operand_indices.deep_view(),
            output: self.output_indices@,
            summation: self.summation_indices@,
        }
    }
}

impl Contraction {
    /// The index word of each operand.
    pub fn operand_indices(&self) -> (r: &Vec<String>)
        ensures
            r.deep_view() == self@.operands,
    {
        &self.operand_indices
    }

    /// The indices of the result, in order.
    pub fn output_indices(&self) -> (r: &Vec<char>)
        ensures
            r@ == self@.output,
    {
        &self.output_indices
    }

    /// The indices summed over, in alphabetical order.
    pub fn summation_indices(&self) -> (r: &Vec<char>)
        ensures
            r@ == self@.summation,
    {
        &self.summation_indices
    }
}

/// All index letters of all operands, in order, with repeats.
pub open spec fn input_chars(ops: Seq<Seq<char>>) -> Seq<char> {
    ops.flatten()
}

/// The output chosen when the expression names none: each index that occurs
/// exactly once over all operands, in alphabetical order.
pub open spec fn is_implicit_output(ops: Seq<Seq<char>>, out: Seq<char>) -> bool {
    &&& strictly_increasing(out)
    &&& forall|c: char| out.contains(c) <==> count_in(input_chars(ops), c) == 1
}

/// The summation indices: each input index not in the output, in
/// alphabetical order.
pub open spec fn is_summation_listing(ops: Seq<Seq<char>>, out: Seq<char>, sum: Seq<char>) -> bool {
    &&& strictly_increasing(sum)
    &&& forall|c: char| sum.contains(c) <==> (input_chars(ops).contains(c) && !out.contains(c))
}

/// The expression names an output that repeats an index.
pub open spec fn output_has_duplicate(e: EinsumExpr) -> bool {
    e.output matches Some(o) && has_duplicate(o)
}

/// The expression names an output holding an index that no operand has.
pub open spec fn output_has_foreign(e: EinsumExpr) -> bool {
    e.output matches Some(o) && exists|i: int|
        0 <= i < o.len() && !input_chars(e.operands).contains(#[trigger] o[i])
}

pub open spec fn duplicate_output_message() -> Seq<char> {
    "Requested output has duplicate index"@
}

pub open spec fn foreign_output_message() -> Seq<char> {
    "Requested output contains an index not found in inputs"@
}

pub open spec fn invalid_string_message() -> Seq<char> {
    "Invalid string"@
}

/// `c` is the contraction of the expression `e`.
pub open spec fn contraction_of(e: EinsumExpr, c: ContractionModel) -> bool {
    &&& c.operands == e.operands
    &&& match e.output {
        Some(o) => c.output == o,
        None => is_implicit_output(e.operands, c.output),
    }
    &&& is_summation_listing(e.operands, c.output, c.summation)
}

/// What generating a contraction from `e` gives: the contraction when the
/// named output repeats no index and names only input indices; otherwise the
/// error for a repeated index, or else the one for a foreign index.
pub open spec fn generation_outcome(e: EinsumExpr, r: Result<ContractionModel, Seq<char>>) -> bool {
    match r {
        Ok(c) => !output_has_duplicate(e) && !output_has_foreign(e) && contraction_of(e, c),
        Err(m) => if output_has_duplicate(e) {
            m == duplicate_output_message()
        } else {
            output_has_foreign(e) && m == foreign_output_message()
        },
    }
}

pub open spec fn result_view(r: Result<Contraction, &'static str>) -> Result<
    ContractionModel,
    Seq<char>,
> {
    match r {
        Ok(c) => Ok(c@),
        Err(m) => Err(m@),
    }
}

/// What validating the text `s` gives.
pub open spec fn validation_outcome(s: Seq<char>, r: Result<ContractionModel, Seq<char>>) -> bool {
    match spec_parse(s) {
        None => r == Err::<ContractionModel, Seq<char>>(invalid_string_message()),
        Some(e) => generation_outcome(e, r),
    }
}

/// Law: a named output that repeats no index, and each of whose indices is
/// written in some operand, is accepted and kept as named.
pub proof fn lemma_named_output_accepted(e: EinsumExpr, r: Result<ContractionModel, Seq<char>>)
    requires
        generation_outcome(e, r),
        e.output is Some,
        forall|i: int, j: int|
            0 <= i < j < e.output->0.len() ==> #[trigger] e.output->0[i] != #[trigger] e.output->0[j],
        forall|i: int|
            0 <= i < e.output->0.len() ==> exists|k: int, j: int|
                0 <= k < e.operands.len() && 0 <= j < e.operands[k].len() && #[trigger] e.operands[k][j]
                    == #[trigger] e.output->0[i],
    ensures
        r is Ok,
        r->Ok_0.output == e.output->0,
        r->Ok_0.operands == e.operands,
{
    let o = e.output->0;
    assert(!has_duplicate(o));
    assert forall|i: int| 0 <= i < o.len() implies input_chars(e.operands).contains(#[trigger] o[i]) by {
        let (k, j) = choose|k: int, j: int|
            0 <= k < e.operands.len() && 0 <= j < e.operands[k].len() && #[trigger] e.operands[k][j]
                == #[trigger] o[i];
        lemma_flatten_contains(e.operands, o[i]);
    }
    assert(!output_has_foreign(e));
}

/// Law: generation fails only for a named output, and only when the output
/// repeats an index or holds an index written in no operand (the latter
/// with the message for a foreign index).
pub proof fn lemma_generation_error_cause(e: EinsumExpr, m: Seq<char>)
    requires
        generation_outcome(e, Err(m)),
    ensures
        e.output is Some,
        (exists|i: int, j: int|
            0 <= i < j < e.output->0.len() && #[trigger] e.output->0[i] == #[trigger] e.output->0[j])
            || (m == foreign_output_message() && exists|i: int|
            0 <= i < e.output->0.len() && forall|k: int, j: int|
                0 <= k < e.operands.len() && 0 <= j < e.operands[k].len() ==> #[trigger] e.operands[k][j]
                    != #[trigger] e.output->0[i]),
{
    if !output_has_duplicate(e) {
        let o = e.output->0;
        let i = choose|i: int| 0 <= i < o.len() && !input_chars(e.operands).contains(#[trigger] o[i]);
        lemma_flatten_contains(e.operands, o[i]);
        assert forall|k: int, j: int|
            0 <= k < e.operands.len() && 0 <= j < e.operands[k].len() implies #[trigger] e.operands[k][j]
            != #[trigger] o[i] by {}
    }
}

/// The error that validating the text `s` meets, if any.
pub open spec fn validation_error(s: Seq<char>) -> Option<Seq<char>> {
    match spec_parse(s) {
        None => Some(invalid_string_message()),
        Some(e) => if output_has_duplicate(e) {
            Some(duplicate_output_message())
        } else if output_has_foreign(e) {
            Some(foreign_output_message())
        } else {
            None
        },
    }
}

/// Law: validation fails exactly with `validation_error`, and otherwise
/// yields a well-formed contraction of the parsed expression.
pub proof fn lemma_validation_error(s: Seq<char>, r: Result<ContractionModel, Seq<char>>)
    requires
        validation_outcome(s, r),
    ensures
        match validation_error(s) {
            Some(e) => r == Err::<ContractionModel, Seq<char>>(e),
            None => r matches Ok(c) && contraction_of(spec_parse(s)->0, c)
                && contraction_well_formed(c),
        },
{
    if let Some(e) = spec_parse(s) {
        if let Ok(c) = r {
            lemma_generated_contraction_well_formed(e, c);
        }
    }
}

/// A consistent contraction: the output and the summation indices repeat
/// nothing, share nothing, and together are exactly the input indices.
pub open spec fn contraction_well_formed(c: ContractionModel) -> bool {
    &&& c.output.no_duplicates()
    &&& c.summation.no_duplicates()
    &&& c.output.disjoint(c.summation)
    &&& forall|x: char|
        input_chars(c.operands).contains(x) <==> (c.output.contains(x) || c.summation.contains(x))
}

proof fn lemma_increasing_no_duplicates(s: Seq<char>)
    requires
        strictly_increasing(s),
    ensures
        s.no_duplicates(),
{
    assert forall|i: int, j: int| 0 <= i < s.len() && 0 <= j < s.len() && i != j implies s[i]
        != s[j] by {
        if i < j {
            assert(s[i] < s[j]);
        } else {
            assert(s[j] < s[i]);
        }
    }
}

/// Law: every contraction that generation produces is well formed: its
/// output and summation indices partition the input indices.
pub proof fn lemma_generated_contraction_well_formed(e: EinsumExpr, c: ContractionModel)
    requires
        generation_outcome(e, Ok(c)),
    ensures
        contraction_well_formed(c),
{
    let all = input_chars(c.operands);
    lemma_increasing_no_duplicates(c.summation);
    match e.output {
        Some(o) => {
            assert forall|i: int, j: int|
                0 <= i < o.len() && 0 <= j < o.len() && i != j implies o[i] != o[j] by {
                if o[i] == o[j] {
                    if i < j {
                        assert(has_duplicate(o));
                    } else {
                        assert(o[j] == o[i]);
                        assert(has_duplicate(o));
                    }
                }
            }
            assert forall|x: char| c.output.contains(x) implies all.contains(x) by {
                let i = choose|i: int| 0 <= i < o.len() && o[i] == x;
                assert(!output_has_foreign(e));
                assert(all.contains(o[i]));
            }
        },
        None => {
            lemma_increasing_no_duplicates(c.output);
            assert forall|x: char| c.output.contains(x) implies all.contains(x) by {
                lemma_count_contains(all, x);
            }
        },
    }
    assert forall|i: int, j: int|
        0 <= i < c.output.len() && 0 <= j < c.summation.len() implies c.output[i]
        != c.summation[j] by {
        assert(c.output.contains(c.output[i]));
        assert(c.summation.contains(c.summation[j]));
    }
}

/// All characters of all words, concatenated.
fn concat_chars(ops: &Vec<String>) -> (all: Vec<char>)
    ensures
        all@ == input_chars(ops.deep_view()),
{
    let mut all: Vec<char> = Vec::new();
    let ghost words = ops.deep_view();
    for k in 0..ops.len()
        invariant
            words == ops.deep_view(),
            all@ == words.take(k as int).flatten(),
    {
        let mut w = chars_of(ops[k].as_str());
        assert(words.take(k + 1) =~= words.take(k as int).push(words[k as int]));
        proof { words.take(k as int).lemma_flatten_push(words[k as int]); }
        all.append(&mut w);
    }
    assert(words.take(ops.len() as int) =~= words);
    all
}

/// The distinct characters of `all`, in increasing order.
fn distinct_sorted(all: &Vec<char>) -> (d: Vec<char>)
    ensures
        strictly_increasing(d@),
        forall|c: char| d@.contains(c) <==> all@.contains(c),
{
    let mut d: Vec<char> = Vec::new();
    for j in 0..all.len()
        invariant
            strictly_increasing(d@),
            forall|c: char| d@.contains(c) <==> all@.take(j as int).contains(c),
    {
        let ghost before = d@;
        insert_sorted(&mut d, all[j]);
        assert(all@.take(j + 1) =~= all@.take(j as int).push(all@[j as int]));
        let ghost t0 = all@.take(j as int);
        let ghost t1 = all@.take(j + 1);
        assert forall|c: char| d@.contains(c) <==> t1.contains(c) by {
            if t0.contains(c) {
                let i = choose|i: int| 0 <= i < t0.len() && t0[i] == c;
                assert(t1[i] == c);
            }
            if t1.contains(c) {
                let i = choose|i: int| 0 <= i < t1.len() && t1[i] == c;
                if i < j {
                    assert(t0[i] == c);
                }
            }
            if c == all@[j as int] {
                assert(t1[j as int] == c);
            }
        }
    }
    assert(all@.take(all.len() as int) =~= all@);
    d
}

/// The elements of the increasing `d` that occur exactly once in `all`.
fn singly_occurring(d: &Vec<char>, all: &Vec<char>) -> (r: Vec<char>)
    requires
        strictly_increasing(d@),
    ensures
        strictly_increasing(r@),
        forall|c: char| r@.contains(c) <==> (d@.contains(c) && count_in(all@, c) == 1),
{
    let mut r: Vec<char> = Vec::new();
    for i in 0..d.len()
        invariant
            strictly_increasing(d@),
            strictly_increasing(r@),
            forall|k: int, m: int| 0 <= k < r@.len() && i <= m < d@.len() ==> r@[k] < d@[m],
            forall|c: char| r@.contains(c) <==> (d@.take(i as int).contains(c) && count_in(all@, c) == 1),
    {
        let x = d[i];
        assert(d@.take(i + 1) =~= d@.take(i as int).push(x));
        if count_char(all, x) == 1 {
            r.push(x);
        }
        let ghost t0 = d@.take(i as int);
        let ghost t1 = d@.take(i + 1);
        assert forall|c: char| r@.contains(c) <==> (t1.contains(c) && count_in(all@, c) == 1) by {
            if t1.contains(c) {
                let k = choose|k: int| 0 <= k < t1.len() && t1[k] == c;
                if k < i {
                    assert(t0[k] == c);
                }
            }
            if t0.contains(c) {
                let k = choose|k: int| 0 <= k < t0.len() && t0[k] == c;
                assert(t1[k] == c);
            }
        }
    }
    assert(d@.take(d.len() as int) =~= d@);
    r
}

/// The elements of the increasing `d` that are not in `out`.
fn not_in(d: &Vec<char>, out: &Vec<char>) -> (r: Vec<char>)
    requires
        strictly_increasing(d@),
    ensures
        strictly_increasing(r@),
        forall|c: char| r@.contains(c) <==> (d@.contains(c) && !out@.contains(c)),
{
    let mut r: Vec<char> = Vec::new();
    for i in 0..d.len()
        invariant
            strictly_increasing(d@),
            strictly_increasing(r@),
            forall|k: int, m: int| 0 <= k < r@.len() && i <= m < d@.len() ==> r@[k] < d@[m],
            forall|c: char| r@.contains(c) <==> (d@.take(i as int).contains(c) && !out@.contains(c)),
    {
        let x = d[i];
        assert(d@.take(i + 1) =~= d@.take(i as int).push(x));
        if !contains_char(out, x) {
            r.push(x);
        }
        let ghost t0 = d@.take(i as int);
        let ghost t1 = d@.take(i + 1);
        assert forall|c: char| r@.contains(c) <==> (t1.contains(c) && !out@.contains(c)) by {
            if t1.contains(c) {
                let k = choose|k: int| 0 <= k < t1.len() && t1[k] == c;
                if k < i {
                    assert(t0[k] == c);
                }
            }
            if t0.contains(c) {
                let k = choose|k: int| 0 <= k < t0.len() && t0[k] == c;
                assert(t1[k] == c);
            }
        }
    }
    assert(d@.take(d.len() as int) =~= d@);
    r
}

/// Whether some character occurs twice.
fn find_duplicate(v: &Vec<char>) -> (b: bool)
    ensures
        b == has_duplicate(v@),
{
    let mut k: usize = 0;
    while k < v.len()
        invariant
            k <= v.len(),
            forall|i: int, j: int| 0 <= i < j < k ==> v@[i] != v@[j],
        decreases v.len() - k,
    {
        let mut i: usize = 0;
        while i < k
            invariant
                i <= k < v.len(),
                forall|a: int| 0 <= a < i ==> v@[a] != v@[k as int],
            decreases k - i,
        {
            if v[i] == v[k] {
                assert(v@[i as int] == v@[k as int]);
                return true;
            }
            i += 1;
        }
        k += 1;
    }
    false
}

/// Whether every character of `v` occurs in `all`.
fn all_within(v: &Vec<char>, all: &Vec<char>) -> (b: bool)
    ensures
        b == (forall|i: int| 0 <= i < v@.len() ==> all@.contains(#[trigger] v@[i])),
{
    let mut k: usize = 0;
    while k < v.len()
        invariant
            k <= v.len(),
            forall|i: int| 0 <= i < k ==> all@.contains(#[trigger] v@[i]),
        decreases v.len() - k,
    {
        if !contains_char(all, v[k]) {
            return false;
        }
        k += 1;
    }
    true
}

/// Builds the contraction of a parsed expression.
///
/// When the expression names no output, the output is every index that
/// occurs exactly once over all operands, in alphabetical order. The
/// summation indices are the input indices not in the output, in
/// alphabetical order. A named output that repeats an index, or that holds
/// an index no operand has, is refused (a repeat is reported first).
pub fn generate_contraction(parse: &EinsumParse) -> (result: Result<Contraction, &'static str>)
    ensures
        generation_outcome(parse@, result_view(result)),
{
    let ops = parse.operand_indices();
    let all = concat_chars(ops);
    let distinct = distinct_sorted(&all);
    let requested: Vec<char> = match parse.output_indices() {
        Some(s) => chars_of(s.as_str()),
        None => singly_occurring(&distinct, &all),
    };
    proof {
        match parse@.output {
            Some(o) => {},
            None => {
                assert(!has_duplicate(requested@)) by {
                    if has_duplicate(requested@) {
                        let (i, j) = choose|i: int, j: int|
                            0 <= i < j < requested@.len() && requested@[i] == requested@[j];
                        assert(requested@[i] < requested@[j]);
                    }
                }
                assert forall|c: char| requested@.contains(c) <==> count_in(all@, c) == 1 by {
                    lemma_count_contains(all@, c);
                }
            },
        }
    }
    if find_duplicate(&requested) {
        return Err("Requested output has duplicate index");
    }
    if !all_within(&requested, &all) {
        return Err("Requested output contains an index not found in inputs");
    }
    let summation = not_in(&distinct, &requested);
    let operand_indices = ops.clone();
    assert(operand_indices.deep_view() =~= ops.deep_view());
    let c = Contraction {
        operand_indices,
        output_indices: requested,
        summation_indices: summation,
    };
    Ok(c)
}

/// Parses and checks an einsum expression: the contraction it describes, or
/// `"Invalid string"` when the text does not parse, or the error that
/// `generate_contraction` gives.
pub fn validate(input_string: &str) -> (result: Result<Contraction, &'static str>)
    ensures
        validation_outcome(input_string@, result_view(result)),
{
    match parse_einsum_string(input_string) {
        None => Err("Invalid string"),
        Some(p) => generate_contraction(&p),
    }
}

} // verus!
