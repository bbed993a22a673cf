use typst_diff::content_runs::RunChildKind::{EnumItem, ListItem, Other, Separator, TermItem};
use typst_diff::content_runs::{
    group_list_item_runs, normalize_text_runs, GroupKind, MergedChild, RunChildKind, TextPiece,
};

fn plan(kinds: &[RunChildKind]) -> Vec<(GroupKind, Vec<usize>)> {
    group_list_item_runs(kinds)
        .into_iter()
        .map(|g| (g.kind, g.positions))
        .collect()
}

#[test]
fn bare_list_items_are_grouped_with_the_separators_between_them() {
    let kinds = [Other, ListItem, Separator, ListItem, Separator, Other];
    assert_eq!(
        plan(&kinds),
        vec![
            (GroupKind::Kept, vec![0]),
            (GroupKind::List, vec![1, 3]),
            (GroupKind::Kept, vec![5]),
        ]
    );
}

#[test]
fn runs_of_different_item_kinds_become_different_containers() {
    let kinds = [EnumItem, EnumItem, TermItem, Separator, ListItem];
    assert_eq!(
        plan(&kinds),
        vec![
            (GroupKind::Enum, vec![0, 1]),
            (GroupKind::Terms, vec![2]),
            (GroupKind::List, vec![4]),
        ]
    );
    assert!(plan(&[]).is_empty());
    assert_eq!(plan(&[Separator]), vec![(GroupKind::Kept, vec![0])]);
}

#[test]
fn neighbouring_text_and_spaces_merge_into_one_text() {
    let pieces = vec![
        TextPiece::Text("Hello".to_string()),
        TextPiece::Space,
        TextPiece::Text("world".to_string()),
        TextPiece::Other(3),
        TextPiece::Text("".to_string()),
        TextPiece::Other(5),
        TextPiece::Space,
    ];
    let merged = normalize_text_runs(&pieces);
    assert_eq!(merged.len(), 4);
    assert!(matches!(&merged[0], MergedChild::Text(t) if t == "Hello world"));
    assert!(matches!(&merged[1], MergedChild::Kept(3)));
    assert!(matches!(&merged[2], MergedChild::Kept(5)));
    assert!(matches!(&merged[3], MergedChild::Text(t) if t == " "));
}
