use prettydiff::basic::{diff, diff_slice, DiffOp};

fn old_side_of(ops: &[DiffOp], old: &[u64]) -> Vec<u64> {
    let mut out = Vec::new();
    for op in ops {
        match *op {
            DiffOp::Equal { old_start, len, .. } => {
                out.extend_from_slice(&old[old_start..old_start + len])
            }
            DiffOp::Remove { old_start, len, .. } => {
                out.extend_from_slice(&old[old_start..old_start + len])
            }
            DiffOp::Insert { .. } => {}
            DiffOp::Replace {
                old_start, old_len, ..
            } => out.extend_from_slice(&old[old_start..old_start + old_len]),
        }
    }
    out
}

fn new_side_of(ops: &[DiffOp], new: &[u64]) -> Vec<u64> {
    let mut out = Vec::new();
    for op in ops {
        match *op {
            DiffOp::Equal {
                new_start, len, ..
            } => out.extend_from_slice(&new[new_start..new_start + len]),
            DiffOp::Remove { .. } => {}
            DiffOp::Insert {
                new_start, len, ..
            } => out.extend_from_slice(&new[new_start..new_start + len]),
            DiffOp::Replace {
                new_start, new_len, ..
            } => out.extend_from_slice(&new[new_start..new_start + new_len]),
        }
    }
    out
}

#[test]
fn test_reconstruction() {
    let old: Vec<u64> = vec![1, 2, 3, 4, 5, 9, 9, 5];
    let new: Vec<u64> = vec![2, 3, 7, 4, 5, 5, 8];
    let ops = diff(&old, &new);
    assert_eq!(old_side_of(&ops, &old), old);
    assert_eq!(new_side_of(&ops, &new), new);
}

#[test]
fn test_identity() {
    let s: Vec<u64> = vec![4, 4, 2, 7];
    let ops = diff(&s, &s);
    assert_eq!(ops.len(), 1);
    assert!(matches!(
        ops[0],
        DiffOp::Equal {
            old_start: 0,
            new_start: 0,
            len: 4
        }
    ));
    let empty: Vec<u64> = Vec::new();
    assert_eq!(diff(&empty, &empty).len(), 0);
}

#[test]
fn test_disjoint_insert_remove() {
    let old: Vec<u64> = vec![1, 2, 3];
    let empty: Vec<u64> = Vec::new();
    let ops = diff(&old, &empty);
    assert_eq!(ops.len(), 1);
    assert!(matches!(
        ops[0],
        DiffOp::Remove {
            old_start: 0,
            new_start: 0,
            len: 3
        }
    ));
    let ops = diff(&empty, &old);
    assert_eq!(ops.len(), 1);
    assert!(matches!(
        ops[0],
        DiffOp::Insert {
            old_start: 0,
            new_start: 0,
            len: 3
        }
    ));
}

#[test]
fn test_no_adjacent_mergeable_pair() {
    let old: Vec<u64> = vec![1, 2, 3, 4, 10, 11, 5, 6, 12];
    let new: Vec<u64> = vec![0, 2, 3, 13, 4, 5, 6, 14, 15];
    let ops = diff(&old, &new);
    for pair in ops.windows(2) {
        let remove_then_insert =
            matches!(pair[0], DiffOp::Remove { .. }) && matches!(pair[1], DiffOp::Insert { .. });
        let insert_then_remove =
            matches!(pair[0], DiffOp::Insert { .. }) && matches!(pair[1], DiffOp::Remove { .. });
        let equal_then_equal =
            matches!(pair[0], DiffOp::Equal { .. }) && matches!(pair[1], DiffOp::Equal { .. });
        assert!(!remove_then_insert);
        assert!(!insert_then_remove);
        assert!(!equal_then_equal);
    }
}

#[test]
fn test_minimality() {
    // LCS of "abefcd" and "zadqwc" (as numbers) is 2, so the changed-element
    // total must be 6 + 6 - 2 * 2 = 8.
    let old: Vec<u64> = vec![1, 2, 5, 6, 3, 4];
    let new: Vec<u64> = vec![26, 1, 4, 17, 23, 3];
    let ops = diff(&old, &new);
    let mut weight = 0;
    for op in &ops {
        match *op {
            DiffOp::Equal { .. } => {}
            DiffOp::Remove { len, .. } => weight += len,
            DiffOp::Insert { len, .. } => weight += len,
            DiffOp::Replace {
                old_len, new_len, ..
            } => weight += old_len + new_len,
        }
    }
    assert_eq!(weight, 8);
}

#[test]
fn test_tie_break_determinism() {
    let old: Vec<u64> = vec![3, 1, 4, 1, 5, 9, 2, 6];
    let new: Vec<u64> = vec![2, 7, 1, 8, 2, 8, 1, 8];
    let first = diff(&old, &new);
    let second = diff(&old, &new);
    assert_eq!(first, second);
    let third = diff_slice(&old, &new);
    assert_eq!(first, third);
}

#[test]
fn test_scenario_kept_elements() {
    let old: Vec<char> = vec!['a', 'b', 'e', 'f', 'c', 'd'];
    let new: Vec<char> = vec!['z', 'a', 'd', 'q', 'w', 'c'];
    let ops = prettydiff::basic::diff(&old, &new);
    let mut kept: Vec<char> = Vec::new();
    for op in &ops {
        if let DiffOp::Equal { old_start, len, .. } = *op {
            kept.extend_from_slice(&old[old_start..old_start + len]);
        }
    }
    assert_eq!(kept, vec!['a', 'c']);
}
