use einsum::{
    generate_contraction, get_output_size_from_shapes, index_assignments, make_index,
    parse_einsum_string, validate, validate_and_size_from_shapes,
    validate_and_size_from_shapes_as_string, Contraction, EinsumParse,
};

fn strings(v: &[&str]) -> Vec<String> {
    v.iter().map(|s| s.to_string()).collect()
}

fn render(p: &EinsumParse) -> String {
    let mut s = p.operand_indices().join(",");
    if let Some(o) = p.output_indices() {
        s.push_str("->");
        s.push_str(o);
    }
    s
}

fn parts(c: &Contraction) -> (Vec<String>, Vec<char>, Vec<char>) {
    (
        c.operand_indices().clone(),
        c.output_indices().clone(),
        c.summation_indices().clone(),
    )
}

#[test]
fn parse_with_output() {
    let p = parse_einsum_string("ij,jk->ik").unwrap();
    assert_eq!(p.operand_indices(), &strings(&["ij", "jk"]));
    assert_eq!(p.output_indices(), &Some("ik".to_string()));
}

#[test]
fn parse_without_output() {
    let p = parse_einsum_string("ij,jk").unwrap();
    assert_eq!(p.operand_indices(), &strings(&["ij", "jk"]));
    assert_eq!(p.output_indices(), &None);
}

#[test]
fn parse_empty_output() {
    let p = parse_einsum_string("ii->").unwrap();
    assert_eq!(p.operand_indices(), &strings(&["ii"]));
    assert_eq!(p.output_indices(), &Some(String::new()));
}

#[test]
fn parse_many_operands() {
    let p = parse_einsum_string("a,bc,def,a->fa").unwrap();
    assert_eq!(p.operand_indices(), &strings(&["a", "bc", "def", "a"]));
    assert_eq!(p.output_indices(), &Some("fa".to_string()));
}

#[test]
fn parse_rejects_malformed_text() {
    for s in [
        "", ",", "ij,", ",ij", "ij,,jk", "->ij", "iJ", "i j", "ij ", "ij->k->l", "ij-k", "ij-",
        "ij>k", "ij->1", "ij->K", "é", "ij\n",
    ] {
        assert!(parse_einsum_string(s).is_none(), "accepted {:?}", s);
    }
}

#[test]
fn parse_then_render_gives_back_text() {
    for s in ["i", "ij,jk->ik", "ij,jk", "abc->", "a,b,c->cba", "zz,zy->"] {
        let p = parse_einsum_string(s).unwrap();
        assert_eq!(render(&p), s);
    }
}

#[test]
fn render_then_parse_gives_back_parts() {
    let p = parse_einsum_string("xy,yz,zw->wx").unwrap();
    let q = parse_einsum_string(&render(&p)).unwrap();
    assert_eq!(p.operand_indices(), q.operand_indices());
    assert_eq!(p.output_indices(), q.output_indices());
}

#[test]
fn implicit_output_is_single_indices_sorted() {
    let c = validate("ij,jk").unwrap();
    assert_eq!(parts(&c), (strings(&["ij", "jk"]), vec!['i', 'k'], vec!['j']));
    let c = validate("ba").unwrap();
    assert_eq!(parts(&c), (strings(&["ba"]), vec!['a', 'b'], vec![]));
    let c = validate("zb,ca,bb").unwrap();
    assert_eq!(parts(&c), (strings(&["zb", "ca", "bb"]), vec!['a', 'c', 'z'], vec!['b']));
}

#[test]
fn trace_sums_repeated_index() {
    let c = validate("ii").unwrap();
    assert_eq!(parts(&c), (strings(&["ii"]), vec![], vec!['i']));
}

#[test]
fn explicit_output_keeps_order() {
    let c = validate("ij->ji").unwrap();
    assert_eq!(parts(&c), (strings(&["ij"]), vec!['j', 'i'], vec![]));
    let c = validate("kj,ji->").unwrap();
    assert_eq!(parts(&c), (strings(&["kj", "ji"]), vec![], vec!['i', 'j', 'k']));
}

#[test]
fn output_and_summation_partition_inputs() {
    let c = validate("abc,cde,ea->bd").unwrap();
    let (_, out, sum) = parts(&c);
    assert_eq!(out, vec!['b', 'd']);
    assert_eq!(sum, vec!['a', 'c', 'e']);
    let mut all: Vec<char> = out.iter().chain(sum.iter()).cloned().collect();
    all.sort();
    assert_eq!(all, vec!['a', 'b', 'c', 'd', 'e']);
}

#[test]
fn duplicate_output_index_is_refused() {
    assert_eq!(
        validate("ij->ii").err(),
        Some("Requested output has duplicate index")
    );
}

#[test]
fn foreign_output_index_is_refused() {
    assert_eq!(
        validate("ij->ik").err(),
        Some("Requested output contains an index not found in inputs")
    );
}

#[test]
fn duplicate_reported_before_foreign() {
    assert_eq!(
        validate("ij->kk").err(),
        Some("Requested output has duplicate index")
    );
    assert_eq!(
        validate("ij->kii").err(),
        Some("Requested output has duplicate index")
    );
}

#[test]
fn invalid_text_is_refused() {
    assert_eq!(validate("IJ").err(), Some("Invalid string"));
    assert_eq!(validate("").err(), Some("Invalid string"));
}

#[test]
fn generate_from_parse() {
    let p = parse_einsum_string("ab,bc->ac").unwrap();
    let c = generate_contraction(&p).unwrap();
    assert_eq!(parts(&c), (strings(&["ab", "bc"]), vec!['a', 'c'], vec!['b']));
}

#[test]
fn sizes_from_shapes() {
    let c = validate("ij,jk->ik").unwrap();
    let m = get_output_size_from_shapes(&c, &vec![vec![2, 3], vec![3, 4]]).unwrap();
    assert_eq!(m.get('i'), Some(2));
    assert_eq!(m.get('j'), Some(3));
    assert_eq!(m.get('k'), Some(4));
    assert_eq!(m.get('l'), None);
    assert_eq!(m.indices(), &vec!['i', 'j', 'k']);
    assert_eq!(m.sizes(), &vec![2, 3, 4]);
}

#[test]
fn sizes_operand_count_mismatch() {
    let c = validate("ij,jk").unwrap();
    assert_eq!(
        get_output_size_from_shapes(&c, &vec![vec![2, 3]]).err(),
        Some("number of operands in contraction does not match number of operands supplied")
    );
}

#[test]
fn sizes_rank_mismatch() {
    let c = validate("ij,jk").unwrap();
    assert_eq!(
        get_output_size_from_shapes(&c, &vec![vec![2, 3], vec![3]]).err(),
        Some("number of indices in one or more operands does not match dimensions of operand")
    );
}

#[test]
fn sizes_repeated_index_different_size() {
    let c = validate("ij,jk").unwrap();
    assert_eq!(
        get_output_size_from_shapes(&c, &vec![vec![2, 3], vec![4, 5]]).err(),
        Some("repeated index with different size")
    );
    let c = validate("ii").unwrap();
    assert_eq!(
        get_output_size_from_shapes(&c, &vec![vec![2, 3]]).err(),
        Some("repeated index with different size")
    );
}

#[test]
fn sizes_first_failing_operand_decides() {
    let c = validate("ij,jkl").unwrap();
    assert_eq!(
        get_output_size_from_shapes(&c, &vec![vec![2, 3], vec![4, 5]]).err(),
        Some("number of indices in one or more operands does not match dimensions of operand")
    );
    let c = validate("ij,jk,l").unwrap();
    assert_eq!(
        get_output_size_from_shapes(&c, &vec![vec![2, 3], vec![4, 5], vec![]]).err(),
        Some("repeated index with different size")
    );
}

#[test]
fn validate_and_size_ok() {
    let sc = validate_and_size_from_shapes("ij,jk", &vec![vec![2, 3], vec![3, 4]]).unwrap();
    assert_eq!(sc.contraction().output_indices(), &vec!['i', 'k']);
    assert_eq!(sc.contraction().summation_indices(), &vec!['j']);
    assert_eq!(sc.output_size().get('j'), Some(3));
    assert_eq!(sc.output_shape(), vec![2, 4]);
    assert_eq!(sc.summation_shape(), vec![3]);
    assert_eq!(sc.bound_indices(), vec!['i', 'k', 'j']);
}

#[test]
fn validate_and_size_errors_in_order() {
    assert_eq!(
        validate_and_size_from_shapes("ij->ii", &vec![vec![1]]).err(),
        Some("Requested output has duplicate index")
    );
    assert_eq!(
        validate_and_size_from_shapes("i!", &vec![vec![1]]).err(),
        Some("Invalid string")
    );
    assert_eq!(
        validate_and_size_from_shapes("ij", &vec![vec![1]]).err(),
        Some("number of indices in one or more operands does not match dimensions of operand")
    );
}

#[test]
fn validate_and_size_from_json() {
    let sc = validate_and_size_from_shapes_as_string("ij,jk->ik", "[[2,3],[3,4]]").unwrap();
    assert_eq!(sc.output_size().get('i'), Some(2));
    assert_eq!(sc.output_size().get('k'), Some(4));
    assert_eq!(sc.output_shape(), vec![2, 4]);
    let sc = validate_and_size_from_shapes_as_string("i", " [ [ 7 ] ] ").unwrap();
    assert_eq!(sc.output_shape(), vec![7]);
}

#[test]
fn validate_and_size_from_bad_json() {
    for text in ["", "[[2,3],", "[[-1]]", "[[1.5]]", "{\"a\":1}", "[[1]] x", "[1,2]"] {
        assert_eq!(
            validate_and_size_from_shapes_as_string("i", text).err(),
            Some("Error parsing operand shapes into Vec<Vec<usize>>"),
            "accepted {:?}",
            text
        );
    }
    assert_eq!(
        validate_and_size_from_shapes_as_string("ij", "[[2,3],[3]]").err(),
        Some("number of operands in contraction does not match number of operands supplied")
    );
}

#[test]
fn assignments_row_major() {
    assert_eq!(
        index_assignments(&vec![2, 3]),
        vec![
            vec![0, 0],
            vec![0, 1],
            vec![0, 2],
            vec![1, 0],
            vec![1, 1],
            vec![1, 2]
        ]
    );
}

#[test]
fn assignments_edge_cases() {
    assert_eq!(index_assignments(&vec![]), vec![Vec::<usize>::new()]);
    assert_eq!(index_assignments(&vec![3, 0]), Vec::<Vec<usize>>::new());
    assert_eq!(index_assignments(&vec![1, 1, 1]), vec![vec![0, 0, 0]]);
}

#[test]
fn assignments_count_is_product() {
    let a = index_assignments(&vec![2, 3, 4]);
    assert_eq!(a.len(), 24);
    let mut sorted = a.clone();
    sorted.sort();
    sorted.dedup();
    assert_eq!(sorted.len(), 24);
    assert!(a.iter().all(|t| t[0] < 2 && t[1] < 3 && t[2] < 4));
}

#[test]
fn make_index_looks_up_bindings() {
    assert_eq!(make_index("ji", &vec!['i', 'j'], &vec![1, 2]), vec![2, 1]);
    assert_eq!(make_index("iij", &vec!['j', 'k', 'i'], &vec![5, 6, 7]), vec![7, 7, 5]);
    assert_eq!(make_index("", &vec!['a'], &vec![0]), Vec::<usize>::new());
}

#[test]
fn make_index_later_binding_overrides() {
    assert_eq!(make_index("ij", &vec!['i', 'j', 'i'], &vec![1, 2, 3]), vec![3, 2]);
}

#[test]
fn indices_stay_within_shapes() {
    let shapes = vec![vec![2, 3], vec![3, 4]];
    let sc = validate_and_size_from_shapes("ij,jk", &shapes).unwrap();
    let bound = sc.bound_indices();
    let ops = sc.contraction().operand_indices().clone();
    for o in index_assignments(&sc.output_shape()) {
        for s in index_assignments(&sc.summation_shape()) {
            let values: Vec<usize> = o.iter().chain(s.iter()).cloned().collect();
            for (k, word) in ops.iter().enumerate() {
                let idx = make_index(word, &bound, &values);
                assert_eq!(idx.len(), shapes[k].len());
                for (j, &v) in idx.iter().enumerate() {
                    assert!(v < shapes[k][j]);
                }
            }
        }
    }
}
