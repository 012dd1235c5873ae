use hephae::text::structure::{compute_structures, notify_structures, span_structure, EntityChange, SpanEntity};

fn entity(text: bool, span: bool, parent: Option<usize>, children: Vec<usize>) -> SpanEntity {
    SpanEntity { text, span, parent, children }
}

/// Text `0` with spans `1` (holding span `2`) and `3`, a plain child `4`;
/// text `5` on its own.
fn world() -> Vec<SpanEntity> {
    vec![
        entity(true, false, None, vec![1, 4, 3]),
        entity(false, true, Some(0), vec![2]),
        entity(false, true, Some(1), vec![]),
        entity(false, true, Some(0), vec![]),
        entity(false, false, Some(0), vec![]),
        entity(true, false, None, vec![]),
    ]
}

fn change(entity: usize, added: bool) -> EntityChange {
    EntityChange { entity, added, parent_changed: false, children_changed: false }
}

#[test]
fn structure_is_depth_first() {
    let es = world();
    assert_eq!(span_structure(&es, 0), vec![(0, 0), (1, 1), (2, 2), (3, 1)]);
    assert_eq!(span_structure(&es, 5), vec![(5, 0)]);
}

#[test]
fn text_spans_nested_in_text_are_not_walked() {
    let es = vec![
        entity(true, false, None, vec![1]),
        entity(true, true, Some(0), vec![2]),
        entity(false, true, Some(1), vec![]),
    ];
    assert_eq!(span_structure(&es, 0), vec![(0, 0)]);
}

#[test]
fn added_span_rebuilds_its_text() {
    let es = world();
    let mut structures = vec![Vec::new(); es.len()];
    let changes = vec![change(2, true), change(0, false), change(5, false)];
    let marked = compute_structures(&es, &changes, &vec![], &mut structures);
    assert_eq!(marked, vec![true, false, false, false, false, false]);
    assert_eq!(structures[0], vec![(0, 0), (1, 1), (2, 2), (3, 1)]);
    assert!(structures[5].is_empty());

    // The same changes again rebuild the same structure, which marks nothing.
    let again = compute_structures(&es, &changes, &vec![], &mut structures);
    assert_eq!(again, vec![false; 6]);
    assert_eq!(structures[0], vec![(0, 0), (1, 1), (2, 2), (3, 1)]);
}

#[test]
fn added_text_and_removed_span() {
    let es = world();
    let mut structures = vec![Vec::new(); es.len()];
    let changes = vec![change(5, true), change(4, false)];
    let marked = compute_structures(&es, &changes, &vec![4], &mut structures);
    assert_eq!(marked, vec![true, false, false, false, false, true]);
    assert_eq!(structures[5], vec![(5, 0)]);
    assert_eq!(structures[0], vec![(0, 0), (1, 1), (2, 2), (3, 1)]);

    // Without the removal, the plain entity asks for nothing.
    let mut fresh = vec![Vec::new(); es.len()];
    let marked = compute_structures(&es, &vec![change(4, false)], &vec![], &mut fresh);
    assert_eq!(marked, vec![false; 6]);
}

#[test]
fn a_visited_text_is_not_walked_again() {
    let es = world();
    let mut structures = vec![Vec::new(); es.len()];
    // The span's walk up marks entity 0, so its own change is passed over.
    let changes = vec![
        EntityChange { entity: 3, added: false, parent_changed: true, children_changed: false },
        EntityChange { entity: 0, added: true, parent_changed: false, children_changed: true },
    ];
    let marked = compute_structures(&es, &changes, &vec![], &mut structures);
    assert_eq!(marked, vec![true, false, false, false, false, false]);
}

#[test]
fn changed_span_notifies_its_structure() {
    let es = world();
    let structures = vec![vec![(0, 0), (1, 1), (2, 2), (3, 1)], vec![], vec![], vec![], vec![], vec![(5, 0)]];
    let marked = notify_structures(&es, &structures, &vec![false, false, true, false, true, false]);
    assert_eq!(marked, vec![true, false, false, false, false, false]);
    let marked = notify_structures(&es, &structures, &vec![false, false, false, false, true, true]);
    assert_eq!(marked, vec![false, false, false, false, false, true]);
}
