//! The textual grammar of an einsum expression and its parser.
//!
//! An expression is a non-empty, comma-separated list of operand index
//! words, optionally followed by `->` and an output index word:
//! `operand ("," operand)* ("->" output)?`, where an operand word is one or
//! more ASCII lower-case letters and the output word is zero or more of them.
use vstd::prelude::*;
use vstd::string::*;
use crate::text::{all_index_letters, chars_of, index_letter, is_index_letter};

verus! {

/// The abstract content of a parsed expression.
pub struct EinsumExpr {
    pub operands: Seq<Seq<char>>,
    pub output: Option<Seq<char>>,
}

/// Splits `s` at every comma, as `str::split(',')` does: the result always
/// holds at least one (possibly empty) piece.
pub open spec fn split_commas(s: Seq<char>) -> Seq<Seq<char>>
    decreases s.len(),
{
    if s.len() == 0 {
        seq![Seq::<char>::empty()]
    } else {
        let prev = split_commas(s.drop_last());
        if s.last() == ',' {
            prev.push(Seq::<char>::empty())
        } else {
            prev.update(prev.len() - 1, prev.last().push(s.last()))
        }
    }
}

/// Joins words with commas between them.
pub open spec fn join_commas(ws: Seq<Seq<char>>) -> Seq<char>
    decreases ws.len(),
{
    if ws.len() == 0 {
        Seq::<char>::empty()
    } else if ws.len() == 1 {
        ws[0]
    } else {
        join_commas(ws.drop_last()) + seq![','] + ws.last()
    }
}

/// Position of the first `-` in `s`, or `s.len()` when there is none.
pub open spec fn dash_index(s: Seq<char>) -> int
    decreases s.len(),
{
    if s.len() == 0 {
        0
    } else if s[0] == '-' {
        0
    } else {
        1 + dash_index(s.drop_first())
    }
}

/// An operand word: one or more index letters.
pub open spec fn is_index_word(w: Seq<char>) -> bool {
    w.len() > 0 && all_index_letters(w)
}

/// The part before `->` is a comma-separated list of operand words.
pub open spec fn valid_operand_list(l: Seq<char>) -> bool {
    forall|k: int| 0 <= k < split_commas(l).len() ==> is_index_word(#[trigger] split_commas(l)[k])
}

/// What the grammar accepts, and what it reads out of an accepted string.
pub open spec fn spec_parse(s: Seq<char>) -> Option<EinsumExpr> {
    let p = dash_index(s);
    let lhs = s.take(p);
    if !valid_operand_list(lhs) {
        None
    } else if p == s.len() {
        Some(EinsumExpr { operands: split_commas(lhs), output: None })
    } else if p + 1 < s.len() && s[p + 1] == '>' && all_index_letters(s.skip(p + 2)) {
        Some(EinsumExpr { operands: split_commas(lhs), output: Some(s.skip(p + 2)) })
    } else {
        None
    }
}

/// The text of an expression.
pub open spec fn render(e: EinsumExpr) -> Seq<char> {
    join_commas(e.operands) + match e.output {
        Some(o) => seq!['-', '>'] + o,
        None => Seq::<char>::empty(),
    }
}

/// An expression that the grammar can express: at least one operand, every
/// operand a non-empty word of index letters, and an output of index letters.
pub open spec fn expr_well_formed(e: EinsumExpr) -> bool {
    &&& e.operands.len() > 0
    &&& forall|k: int| 0 <= k < e.operands.len() ==> is_index_word(#[trigger] e.operands[k])
    &&& e.output matches Some(o) ==> all_index_letters(o)
}

pub open spec fn comma_free(w: Seq<char>) -> bool {
    forall|i: int| 0 <= i < w.len() ==> #[trigger] w[i] != ','
}

proof fn lemma_split_nonempty(s: Seq<char>)
    ensures
        split_commas(s).len() >= 1,
    decreases s.len(),
{
    if s.len() > 0 {
        lemma_split_nonempty(s.drop_last());
    }
}

/// Joining the pieces of a split gives back the string.
proof fn lemma_join_split(s: Seq<char>)
    ensures
        join_commas(split_commas(s)) == s,
    decreases s.len(),
{
    if s.len() > 0 {
        let prev = split_commas(s.drop_last());
        lemma_split_nonempty(s.drop_last());
        lemma_join_split(s.drop_last());
        let ws = split_commas(s);
        if s.last() == ',' {
            assert(ws.drop_last() =~= prev);
            assert(s =~= s.drop_last() + seq![','] + Seq::<char>::empty());
        } else {
            if prev.len() == 1 {
                assert(s =~= s.drop_last().push(s.last()));
            } else {
                assert(ws.drop_last() =~= prev.drop_last());
                assert(join_commas(prev) == join_commas(prev.drop_last()) + seq![','] + prev.last());
                assert(s =~= s.drop_last().push(s.last()));
                assert(s =~= join_commas(prev.drop_last()) + seq![','] + prev.last().push(s.last()));
            }
        }
    }
}

/// Appending comma-free text extends the last piece.
proof fn lemma_split_append_comma_free(a: Seq<char>, b: Seq<char>)
    requires
        comma_free(b),
    ensures
        split_commas(a + b) == split_commas(a).update(
            split_commas(a).len() - 1,
            split_commas(a).last() + b,
        ),
    decreases b.len(),
{
    lemma_split_nonempty(a);
    if b.len() == 0 {
        assert(a + b =~= a);
        assert(split_commas(a).last() + b =~= split_commas(a).last());
        assert(split_commas(a).update(split_commas(a).len() - 1, split_commas(a).last())
            =~= split_commas(a));
    } else {
        let b0 = b.drop_last();
        assert(comma_free(b0));
        lemma_split_append_comma_free(a, b0);
        assert((a + b).drop_last() =~= a + b0);
        assert((a + b).last() == b.last());
        assert(b.last() != ',');
        assert(split_commas(a).last() + b =~= (split_commas(a).last() + b0).push(b.last()));
        assert(split_commas(a + b) =~= split_commas(a).update(
            split_commas(a).len() - 1,
            split_commas(a).last() + b,
        ));
    }
}

/// Splitting a comma-join of comma-free words gives back the words.
proof fn lemma_split_join(ws: Seq<Seq<char>>)
    requires
        ws.len() > 0,
        forall|k: int| 0 <= k < ws.len() ==> comma_free(#[trigger] ws[k]),
    ensures
        split_commas(join_commas(ws)) == ws,
    decreases ws.len(),
{
    if ws.len() == 1 {
        lemma_split_append_comma_free(Seq::<char>::empty(), ws[0]);
        assert(Seq::<char>::empty() + ws[0] =~= ws[0]);
        assert(split_commas(ws[0]) =~= ws);
    } else {
        let init = ws.drop_last();
        assert forall|k: int| 0 <= k < init.len() implies comma_free(#[trigger] init[k]) by {
            assert(init[k] == ws[k]);
        }
        lemma_split_join(init);
        let a = join_commas(init) + seq![','];
        assert(a.drop_last() =~= join_commas(init));
        assert(split_commas(a) =~= init.push(Seq::<char>::empty()));
        assert(comma_free(ws.last()));
        lemma_split_append_comma_free(a, ws.last());
        assert(Seq::<char>::empty() + ws.last() =~= ws.last());
        assert(split_commas(a + ws.last()) =~= ws);
    }
}

/// Characterisation of `dash_index`.
proof fn lemma_dash_index(s: Seq<char>)
    ensures
        0 <= dash_index(s) <= s.len(),
        forall|j: int| 0 <= j < dash_index(s) ==> #[trigger] s[j] != '-',
        dash_index(s) < s.len() ==> s[dash_index(s)] == '-',
    decreases s.len(),
{
    if s.len() > 0 && s[0] != '-' {
        lemma_dash_index(s.drop_first());
        assert forall|j: int| 0 <= j < dash_index(s) implies #[trigger] s[j] != '-' by {
            if j > 0 {
                assert(s[j] == s.drop_first()[j - 1]);
            }
        }
    }
}

/// `dash_index` is the first position that holds a `-`.
proof fn lemma_dash_index_at(s: Seq<char>, p: int)
    requires
        0 <= p <= s.len(),
        forall|j: int| 0 <= j < p ==> #[trigger] s[j] != '-',
        p < s.len() ==> s[p] == '-',
    ensures
        dash_index(s) == p,
    decreases p,
{
    if p > 0 {
        let t = s.drop_first();
        assert forall|j: int| 0 <= j < p - 1 implies #[trigger] t[j] != '-' by {
            assert(t[j] == s[j + 1]);
        }
        lemma_dash_index_at(t, p - 1);
    }
}

/// Completed pieces of a prefix survive in every longer prefix, and the
/// piece still open is a prefix of its final form.
proof fn lemma_split_prefix(s: Seq<char>, i: int, j: int)
    requires
        0 <= i <= j <= s.len(),
    ensures
        split_commas(s.take(j)).len() >= split_commas(s.take(i)).len(),
        forall|k: int|
            0 <= k < split_commas(s.take(i)).len() - 1 ==> #[trigger] split_commas(s.take(j))[k]
                == split_commas(s.take(i))[k],
        ({
            let a = split_commas(s.take(i));
            let w = split_commas(s.take(j))[a.len() - 1];
            w.len() >= a.last().len() && w.take(a.last().len() as int) == a.last()
        }),
    decreases j - i,
{
    lemma_split_nonempty(s.take(i));
    lemma_split_nonempty(s.take(j));
    let a = split_commas(s.take(i));
    if i == j {
        assert(a.last().take(a.last().len() as int) =~= a.last());
    } else {
        lemma_split_prefix(s, i, j - 1);
        let bp = split_commas(s.take(j - 1));
        lemma_split_nonempty(s.take(j - 1));
        assert(s.take(j).drop_last() =~= s.take(j - 1));
        let b = split_commas(s.take(j));
        let w0 = bp[a.len() - 1];
        if s[j - 1] != ',' && a.len() == bp.len() {
            let w = b[a.len() - 1];
            assert(w == w0.push(s[j - 1]));
            assert(w.take(a.last().len() as int) =~= w0.take(a.last().len() as int));
        }
    }
}

/// A well-formed expression's text holds no `-` before the arrow.
proof fn lemma_join_no_dash(ws: Seq<Seq<char>>)
    requires
        forall|k: int| 0 <= k < ws.len() ==> is_index_word(#[trigger] ws[k]),
    ensures
        forall|j: int| 0 <= j < join_commas(ws).len() ==> #[trigger] join_commas(ws)[j] != '-',
    decreases ws.len(),
{
    if ws.len() == 1 {
        assert forall|j: int| 0 <= j < join_commas(ws).len() implies #[trigger] join_commas(ws)[j]
            != '-' by {
            assert(is_index_letter(ws[0][j]));
        }
    } else if ws.len() > 1 {
        let init = ws.drop_last();
        assert forall|k: int| 0 <= k < init.len() implies is_index_word(#[trigger] init[k]) by {
            assert(init[k] == ws[k]);
        }
        lemma_join_no_dash(init);
        let ji = join_commas(init);
        let l = ws.last();
        assert(is_index_word(ws[ws.len() - 1]));
        assert forall|j: int| 0 <= j < join_commas(ws).len() implies #[trigger] join_commas(ws)[j]
            != '-' by {
            if j < ji.len() {
                assert(join_commas(ws)[j] == ji[j]);
            } else if j > ji.len() {
                assert(join_commas(ws)[j] == l[j - ji.len() - 1]);
                assert(is_index_letter(l[j - ji.len() - 1]));
            }
        }
    }
}

/// Law: a string that parses is exactly the text of what it parses to, and
/// what it parses to is well formed.
pub proof fn lemma_parse_then_render(s: Seq<char>)
    requires
        spec_parse(s) is Some,
    ensures
        render(spec_parse(s)->0) == s,
        expr_well_formed(spec_parse(s)->0),
{
    let p = dash_index(s);
    lemma_dash_index(s);
    let lhs = s.take(p);
    lemma_join_split(lhs);
    lemma_split_nonempty(lhs);
    let e = spec_parse(s)->0;
    if p == s.len() {
        assert(s =~= lhs + Seq::<char>::empty());
    } else {
        assert(s =~= lhs + (seq!['-', '>'] + s.skip(p + 2)));
    }
    assert forall|k: int| 0 <= k < e.operands.len() implies is_index_word(#[trigger] e.operands[k])
        by {
        assert(is_index_word(split_commas(lhs)[k]));
    }
}

/// Law: the text of a well-formed expression parses back to that expression.
pub proof fn lemma_render_then_parse(e: EinsumExpr)
    requires
        expr_well_formed(e),
    ensures
        spec_parse(render(e)) == Some(e),
{
    let j = join_commas(e.operands);
    let s = render(e);
    assert forall|k: int| 0 <= k < e.operands.len() implies comma_free(#[trigger] e.operands[k]) by {
        assert(is_index_word(e.operands[k]));
        assert forall|i: int| 0 <= i < e.operands[k].len() implies #[trigger] e.operands[k][i]
            != ',' by {
            assert(is_index_letter(e.operands[k][i]));
        }
    }
    lemma_split_join(e.operands);
    lemma_join_no_dash(e.operands);
    assert forall|i: int| 0 <= i < j.len() implies #[trigger] s[i] != '-' by {
        assert(s[i] == j[i]);
    }
    lemma_dash_index_at(s, j.len() as int);
    assert(s.take(j.len() as int) =~= j);
    assert(valid_operand_list(j));
    match e.output {
        Some(o) => {
            assert(s.skip(j.len() + 2int) =~= o);
        },
        None => {
            assert(s =~= j);
        },
    }
}

/// Law: any non-empty list of non-empty words of ASCII lower-case letters,
/// with or without an output word of such letters, is read back from its
/// text exactly.
pub proof fn lemma_lowercase_words_parse(e: EinsumExpr)
    requires
        e.operands.len() > 0,
        forall|k: int| 0 <= k < e.operands.len() ==> (#[trigger] e.operands[k]).len() > 0,
        forall|k: int, i: int|
            0 <= k < e.operands.len() && 0 <= i < e.operands[k].len() ==> 'a' <= #[trigger] e.operands[k][i]
                <= 'z',
        e.output matches Some(o) ==> forall|i: int| 0 <= i < o.len() ==> 'a' <= #[trigger] o[i] <= 'z',
    ensures
        spec_parse(render(e)) == Some(e),
{
    assert forall|k: int| 0 <= k < e.operands.len() implies is_index_word(#[trigger] e.operands[k]) by {
        assert forall|i: int| 0 <= i < e.operands[k].len() implies is_index_letter(
            #[trigger] e.operands[k][i],
        ) by {}
    }
    lemma_render_then_parse(e);
}

/// Law: what parses holds only non-empty operand words and an output word
/// made of ASCII lower-case letters.
pub proof fn lemma_parsed_words_lowercase(s: Seq<char>)
    requires
        spec_parse(s) is Some,
    ensures
        spec_parse(s)->0.operands.len() > 0,
        forall|k: int|
            0 <= k < spec_parse(s)->0.operands.len() ==> (#[trigger] spec_parse(s)->0.operands[k]).len()
                > 0,
        forall|k: int, i: int|
            0 <= k < spec_parse(s)->0.operands.len() && 0 <= i < spec_parse(s)->0.operands[k].len()
                ==> 'a' <= #[trigger] spec_parse(s)->0.operands[k][i] <= 'z',
        spec_parse(s)->0.output matches Some(o) ==> forall|i: int|
            0 <= i < o.len() ==> 'a' <= #[trigger] o[i] <= 'z',
{
    lemma_parse_then_render(s);
    let e = spec_parse(s)->0;
    assert forall|k: int, i: int| 0 <= k < e.operands.len() && 0 <= i < e.operands[k].len() implies 'a'
        <= #[trigger] e.operands[k][i] <= 'z' by {
        assert(is_index_word(e.operands[k]));
        assert(is_index_letter(e.operands[k][i]));
    }
    if let Some(o) = e.output {
        assert forall|i: int| 0 <= i < o.len() implies 'a' <= #[trigger] o[i] <= 'z' by {
            assert(is_index_letter(o[i]));
        }
    }
}

/// The parsed form of an einsum expression: the index word of each operand,
/// and the output index word when the expression names one.
#[derive(Debug)]
pub struct EinsumParse {
    operand_indices: Vec<String>,
    output_indices: Option<String>,
}

pub open spec fn option_string_view(o: Option<String>) -> Option<Seq<char>> {
    match o {
        Some(s) => Some(s@),
        None => None,
    }
}

impl View for EinsumParse {
    type V = EinsumExpr;

    closed spec fn view(&self) -> EinsumExpr {
        EinsumExpr {
            operands: self.operand_indices.deep_view(),
            output: option_string_view(self.output_indices),
        }
    }
}

impl EinsumParse {
    /// The index word of each operand.
    pub fn operand_indices(&self) -> (r: &Vec<String>)
        ensures
            r.deep_view() == self@.operands,
    {
        &self.operand_indices
    }

    /// The output index word, when the expression names one.
    pub fn output_indices(&self) -> (r: &Option<String>)
        ensures
            option_string_view(*r) == self@.output,
    {
        &self.output_indices
    }
}

/// Parses an einsum expression such as `"ij,jk->ik"`.
///
/// Returns `None` exactly when the text is not of the form
/// `operand ("," operand)* ("->" output)?`; otherwise the operand words and
/// the output word (present, possibly empty, whenever `->` is written).
pub fn parse_einsum_string(input_string: &str) -> (result: Option<EinsumParse>)
    ensures
        match result {
            Some(p) => spec_parse(input_string@) == Some(p@),
            None => spec_parse(input_string@) is None,
        },
{
    let cs = chars_of(input_string);
    let n = cs.len();
    let ghost s = cs@;
    assert(s == input_string@);
    let mut p: usize = 0;
    while p < n && cs[p] != '-'
        invariant
            p <= n,
            n == s.len(),
            s == cs@,
            forall|j: int| 0 <= j < p ==> #[trigger] s[j] != '-',
        decreases n - p,
    {
        p += 1;
    }
    proof {
        lemma_dash_index_at(s, p as int);
    }
    let ghost lhs = s.take(p as int);
    let output_indices: Option<String> = if p < n {
        if p + 1 < n && cs[p + 1] == '>' {
            let mut k: usize = p + 2;
            while k < n
                invariant
                    p + 2 <= k <= n,
                    n == s.len(),
                    s == cs@,
                    s == input_string@,
                    dash_index(s) == p,
                    p + 1 < n,
                    s[p + 1] == '>',
                    forall|j: int| p + 2 <= j < k ==> is_index_letter(#[trigger] s[j]),
                decreases n - k,
            {
                if !index_letter(cs[k]) {
                    proof {
                        assert(s.skip(p + 2)[k - p - 2] == s[k as int]);
                        assert(!all_index_letters(s.skip(p + 2)));
                    }
                    return None;
                }
                k += 1;
            }
            assert(all_index_letters(s.skip(p + 2))) by {
                assert forall|i: int| 0 <= i < s.skip(p + 2).len() implies is_index_letter(
                    #[trigger] s.skip(p + 2)[i],
                ) by {
                    assert(s.skip(p + 2)[i] == s[i + p + 2]);
                }
            }
            let out = input_string.substring_char(p + 2, n);
            assert(out@ =~= s.skip(p + 2));
            Some(String::from_str(out))
        } else {
            return None;
        }
    } else {
        None
    };
    let mut operand_indices: Vec<String> = Vec::new();
    let mut start: usize = 0;
    let mut i: usize = 0;
    assert(lhs.take(0) =~= Seq::<char>::empty());
    assert(s.subrange(0, 0) =~= Seq::<char>::empty());
    while i < p
        invariant
            start <= i <= p <= n,
            n == s.len(),
            s == cs@,
            s == input_string@,
            dash_index(s) == p,
            lhs == s.take(p as int),
            split_commas(lhs.take(i as int)) == operand_indices.deep_view().push(
                s.subrange(start as int, i as int),
            ),
            forall|k: int|
                0 <= k < operand_indices.deep_view().len() ==> is_index_word(
                    #[trigger] operand_indices.deep_view()[k],
                ),
            all_index_letters(s.subrange(start as int, i as int)),
        decreases p - i,
    {
        let c = cs[i];
        let ghost words = operand_indices.deep_view();
        let ghost cur = s.subrange(start as int, i as int);
        assert(lhs.take(i + 1).drop_last() =~= lhs.take(i as int));
        assert(lhs.take(i + 1).last() == c);
        if c == ',' {
            if start == i {
                proof {
                    let a = split_commas(lhs.take(i + 1));
                    assert(a == words.push(cur).push(Seq::<char>::empty()));
                    lemma_split_prefix(lhs, (i + 1) as int, p as int);
                    assert(lhs.take(p as int) =~= lhs);
                    assert(split_commas(lhs)[words.len() as int] == cur);
                    assert(cur.len() == 0);
                    assert(!is_index_word(split_commas(lhs)[words.len() as int]));
                }
                return None;
            }
            let w = input_string.substring_char(start, i);
            operand_indices.push(String::from_str(w));
            assert(operand_indices.deep_view() =~= words.push(cur));
            start = i + 1;
            assert(s.subrange(start as int, (i + 1) as int) =~= Seq::<char>::empty());
        } else if index_letter(c) {
            assert(s.subrange(start as int, (i + 1) as int) =~= cur.push(c));
        } else {
            proof {
                let a = split_commas(lhs.take(i + 1));
                assert(a == words.push(cur.push(c)));
                lemma_split_prefix(lhs, (i + 1) as int, p as int);
                assert(lhs.take(p as int) =~= lhs);
                let w = split_commas(lhs)[words.len() as int];
                assert(w.take(cur.len() + 1int) == cur.push(c));
                assert(w.take(cur.len() + 1int)[cur.len() as int] == w[cur.len() as int]);
                assert(w[cur.len() as int] == c);
                assert(!is_index_letter(c));
                assert(!is_index_word(split_commas(lhs)[words.len() as int]));
            }
            return None;
        }
        i += 1;
    }
    assert(lhs.take(p as int) =~= lhs);
    let ghost words = operand_indices.deep_view();
    if start == p {
        proof {
            assert(split_commas(lhs)[words.len() as int].len() == 0);
        }
        return None;
    }
    let w = input_string.substring_char(start, p);
    operand_indices.push(String::from_str(w));
    assert(operand_indices.deep_view() =~= split_commas(lhs));
    let result = EinsumParse { operand_indices, output_indices };
    assert(result@.operands == split_commas(lhs));
    Some(result)
}

} // verus!
