use typst_diff::edit_script::{build_edit_script, same_shape_script, EditScriptMode, EditScriptOp};

#[test]
fn same_shape_pairs_by_position() {
    assert_eq!(
        build_edit_script(&["a", "b"], &["x", "y"], EditScriptMode::SameShape),
        vec![EditScriptOp::Equal {
            old_index: 0,
            new_index: 0,
            len: 2
        }]
    );
}

#[test]
fn lcs_keeps_matching_runs_and_inserts() {
    assert_eq!(
        build_edit_script(&["a", "c"], &["a", "b", "c"], EditScriptMode::Lcs),
        vec![
            EditScriptOp::Equal {
                old_index: 0,
                new_index: 0,
                len: 1
            },
            EditScriptOp::Insert {
                new_index: 1,
                new_len: 1
            },
            EditScriptOp::Equal {
                old_index: 1,
                new_index: 2,
                len: 1
            }
        ]
    );
}

#[test]
fn same_shape_script_reports_extra_children() {
    let ops = same_shape_script(2, 3);
    assert_eq!(
        ops[0],
        EditScriptOp::Equal {
            old_index: 0,
            new_index: 0,
            len: 2
        }
    );
    assert_eq!(ops.len(), 2);
}

#[test]
fn lcs_with_owned_strings_matches_str_keys() {
    let old = vec!["x".to_string(), "y".to_string()];
    let new = vec!["y".to_string()];
    let ops = build_edit_script(&old, &new, EditScriptMode::Lcs);
    assert!(ops.iter().any(|op| matches!(op, EditScriptOp::Delete { .. })));
    assert!(ops.iter().any(|op| matches!(op, EditScriptOp::Equal { len: 1, .. })));
}

#[test]
fn edit_script_of_equal_keys_keeps_everything_in_both_modes() {
    let keys = ["x", "y", "x", "z"];
    let keep = vec![EditScriptOp::Equal {
        old_index: 0,
        new_index: 0,
        len: 4,
    }];
    assert_eq!(build_edit_script(&keys, &keys, EditScriptMode::Lcs), keep);
    assert_eq!(build_edit_script(&keys, &keys, EditScriptMode::SameShape), keep);
    let none: [&str; 0] = [];
    assert!(build_edit_script(&none, &none, EditScriptMode::Lcs).is_empty());
}
