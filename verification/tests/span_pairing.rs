use typst_diff::span_pairing::{pair_sequence_by_span, recorded_run_end, Pairing, PreChild, PreKind, RealChild};

fn pre(kind: PreKind, span: u64) -> PreChild {
    PreChild { kind, span, invisible: false, contains_context: false, recorded_text: None }
}

fn realized_child(span: u64, text: &str) -> RealChild {
    RealChild {
        span,
        invisible: text.trim().is_empty(),
        context_span: None,
        text: text.to_string(),
        recorded_run_end: None,
    }
}

#[test]
fn children_pair_by_span_and_skipped_realized_children_stand_alone() {
    let pre_children = vec![pre(PreKind::Other, 10), pre(PreKind::Parbreak, 11), pre(PreKind::Other, 12)];
    let realized = vec![realized_child(10, "a"), realized_child(99, "inserted"), realized_child(12, "b"), realized_child(98, "tail")];
    assert_eq!(
        pair_sequence_by_span(&pre_children, &realized),
        vec![
            Pairing::One(0, 0),
            Pairing::Itself(1),
            Pairing::Alone(1),
            Pairing::One(2, 2),
            Pairing::Alone(3),
        ]
    );
}

#[test]
fn unmatched_children_fall_back_to_the_realized_child_at_the_cursor() {
    let pre_children = vec![pre(PreKind::Other, 20), pre(PreKind::Other, 21)];
    let realized = vec![realized_child(5, "x")];
    assert_eq!(
        pair_sequence_by_span(&pre_children, &realized),
        vec![Pairing::One(0, 0)]
    );
}

#[test]
fn a_context_child_is_matched_through_its_output_and_takes_it() {
    let mut context = pre(PreKind::Context, 30);
    context.contains_context = true;
    let mut output = realized_child(7, "shown");
    output.context_span = Some(30);
    let realized = vec![realized_child(8, " "), output, realized_child(31, "next")];
    let pre_children = vec![context, pre(PreKind::Other, 31)];
    assert_eq!(
        pair_sequence_by_span(&pre_children, &realized),
        vec![Pairing::Alone(0), Pairing::One(0, 1), Pairing::One(1, 2)]
    );
}

#[test]
fn recorded_context_output_is_kept_whole() {
    let mut start = realized_child(40, "");
    start.recorded_run_end = Some(3);
    let realized = vec![start, realized_child(41, "out"), realized_child(42, ""), realized_child(43, "rest")];
    assert_eq!(
        pair_sequence_by_span(&[pre(PreKind::Other, 43)], &realized),
        vec![Pairing::Recorded(0, 3), Pairing::One(0, 3)]
    );
}

#[test]
fn realized_children_are_held_in_order_and_once() {
    let pre_children = vec![
        pre(PreKind::Other, 30),
        pre(PreKind::Parbreak, 31),
        pre(PreKind::Other, 10),
        pre(PreKind::Other, 50),
    ];
    let realized = vec![
        realized_child(10, "a"),
        realized_child(20, "b"),
        realized_child(30, "c"),
        realized_child(40, "d"),
    ];
    let pairs = pair_sequence_by_span(&pre_children, &realized);
    let mut held: Vec<usize> = Vec::new();
    for p in &pairs {
        match *p {
            Pairing::One(_, i) | Pairing::Alone(i) => held.push(i),
            Pairing::Run(_, s, e) | Pairing::Recorded(s, e) => held.extend(s..e),
            Pairing::Itself(_) => {}
        }
    }
    assert_eq!(held, vec![0, 1, 2, 3]);
}

#[test]
fn recorded_run_ends_after_its_closing_tag() {
    assert_eq!(recorded_run_end(&[false, false, false, true, false], 1), 4);
    assert_eq!(recorded_run_end(&[true, false, false], 0), 1);
    assert_eq!(recorded_run_end(&[false, false, true, true], 2), 4);
}
