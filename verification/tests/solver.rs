use rnr::error::ErrorKind;
use rnr::solver::{revert_operations, solve_rename_order, Operation};

fn op(s: &str, t: &str) -> Operation {
    Operation { source: s.as_bytes().to_vec(), target: t.as_bytes().to_vec() }
}

/// Applies operations to a simulated set of occupied paths, checking that
/// every step moves an existing file to a free path.
fn simulate(start: &[&str], ops: &[Operation]) -> Vec<Vec<u8>> {
    let mut fs: Vec<Vec<u8>> = start.iter().map(|p| p.as_bytes().to_vec()).collect();
    for o in ops {
        let pos = fs.iter().position(|p| *p == o.source).expect("source must be occupied");
        assert!(!fs.contains(&o.target), "target must be vacant");
        fs.remove(pos);
        fs.push(o.target.clone());
    }
    fs.sort();
    fs
}

#[test]
fn chain_schedules_occupant_first() {
    // map {B: A, C: B}: the entry that vacates B must run before A claims B
    let map = vec![op("A", "B"), op("B", "C")];
    let ops = solve_rename_order(&map).unwrap();
    assert_eq!(ops, vec![op("B", "C"), op("A", "B")]);
    assert_eq!(simulate(&["A", "B"], &ops), vec![b"B".to_vec(), b"C".to_vec()]);
}

#[test]
fn two_cycle_swap_produces_three_operations() {
    // map {B: A, A: B}: one temporary step breaks the swap
    let map = vec![op("A", "B"), op("B", "A")];
    let ops = solve_rename_order(&map).unwrap();
    assert_eq!(ops.len(), 3);
    let temp = ops[0].target.clone();
    assert_ne!(temp, b"A".to_vec());
    assert_ne!(temp, b"B".to_vec());
    assert_eq!(ops[0].source, b"A".to_vec());
    assert_eq!(ops[1], op("B", "A"));
    assert_eq!(ops[2].source, temp);
    assert_eq!(ops[2].target, b"B".to_vec());
    assert_eq!(simulate(&["A", "B"], &ops), vec![b"A".to_vec(), b"B".to_vec()]);
}

#[test]
fn disjoint_pairs_schedule_in_some_order() {
    // map {B: A, D: C}: both relative orders are acceptable
    let map = vec![op("A", "B"), op("C", "D")];
    let ops = solve_rename_order(&map).unwrap();
    assert_eq!(ops.len(), 2);
    let first = (ops[0].clone(), ops[1].clone());
    let fwd = (op("A", "B"), op("C", "D"));
    let rev = (op("C", "D"), op("A", "B"));
    assert!(first == fwd || first == rev);
    assert_eq!(
        simulate(&["A", "C"], &ops),
        vec![b"B".to_vec(), b"D".to_vec()]
    );
}

#[test]
fn duplicate_target_is_an_ordering_failure() {
    // two sources claiming one target reach the solver: it must fail loudly
    let map = vec![op("A", "C"), op("B", "C")];
    let err = solve_rename_order(&map).unwrap_err();
    assert!(matches!(err.kind, ErrorKind::SolveOrder));
}

#[test]
fn duplicate_source_is_an_ordering_failure() {
    let map = vec![op("A", "B"), op("A", "C")];
    let err = solve_rename_order(&map).unwrap_err();
    assert!(matches!(err.kind, ErrorKind::SolveOrder));
}

#[test]
fn noop_entry_is_an_ordering_failure() {
    let map = vec![op("A", "A")];
    let err = solve_rename_order(&map).unwrap_err();
    assert!(matches!(err.kind, ErrorKind::SolveOrder));
}

#[test]
fn three_cycle_produces_four_operations() {
    // map {B: A, C: B, A: C}: a rotation of length three costs one extra step
    let map = vec![op("A", "B"), op("B", "C"), op("C", "A")];
    let ops = solve_rename_order(&map).unwrap();
    assert_eq!(ops.len(), 4);
    assert_eq!(
        simulate(&["A", "B", "C"], &ops),
        vec![b"A".to_vec(), b"B".to_vec(), b"C".to_vec()]
    );
}

#[test]
fn two_disjoint_swaps_cost_one_split_each() {
    let map = vec![op("A", "B"), op("B", "A"), op("C", "D"), op("D", "C")];
    let ops = solve_rename_order(&map).unwrap();
    assert_eq!(ops.len(), 6);
    assert_eq!(
        simulate(&["A", "B", "C", "D"], &ops),
        vec![b"A".to_vec(), b"B".to_vec(), b"C".to_vec(), b"D".to_vec()]
    );
}

#[test]
fn empty_map_gives_empty_schedule() {
    let map: Vec<Operation> = vec![];
    let ops = solve_rename_order(&map).unwrap();
    assert!(ops.is_empty());
}

#[test]
fn single_rename_is_passed_through() {
    let map = vec![op("old", "new")];
    let ops = solve_rename_order(&map).unwrap();
    assert_eq!(ops, vec![op("old", "new")]);
}

#[test]
fn long_chain_runs_back_to_front() {
    // A->B->C->D: the far end moves first
    let map = vec![op("A", "B"), op("B", "C"), op("C", "D")];
    let ops = solve_rename_order(&map).unwrap();
    assert_eq!(ops, vec![op("C", "D"), op("B", "C"), op("A", "B")]);
    assert_eq!(
        simulate(&["A", "B", "C"], &ops),
        vec![b"B".to_vec(), b"C".to_vec(), b"D".to_vec()]
    );
}

#[test]
fn scheduling_is_deterministic() {
    let map = vec![op("A", "B"), op("B", "C"), op("x", "y")];
    let first = solve_rename_order(&map).unwrap();
    let second = solve_rename_order(&map).unwrap();
    assert_eq!(first, second);
}

#[test]
fn scheduling_ignores_entry_order() {
    let map1 = vec![op("A", "B"), op("B", "A"), op("C", "D")];
    let map2 = vec![op("C", "D"), op("B", "A"), op("A", "B")];
    assert_eq!(
        solve_rename_order(&map1).unwrap(),
        solve_rename_order(&map2).unwrap()
    );
}

#[test]
fn revert_restores_chain() {
    let map = vec![op("A", "B"), op("B", "C")];
    let ops = solve_rename_order(&map).unwrap();
    let back = revert_operations(&ops).unwrap();
    let after = simulate(&["A", "B"], &ops);
    assert_eq!(after, vec![b"B".to_vec(), b"C".to_vec()]);
    let ops_refs: Vec<Operation> = back.clone();
    let mut fs: Vec<Vec<u8>> = vec![b"B".to_vec(), b"C".to_vec()];
    for o in &ops_refs {
        let pos = fs.iter().position(|p| *p == o.source).expect("source must be occupied");
        assert!(!fs.contains(&o.target));
        fs.remove(pos);
        fs.push(o.target.clone());
    }
    fs.sort();
    assert_eq!(fs, vec![b"A".to_vec(), b"B".to_vec()]);
}

#[test]
fn revert_of_disjoint_pairs_restores_sources() {
    let map = vec![op("A", "B"), op("C", "D")];
    let ops = solve_rename_order(&map).unwrap();
    let back = revert_operations(&ops).unwrap();
    assert_eq!(simulate(&["B", "D"], &back), vec![b"A".to_vec(), b"C".to_vec()]);
}
