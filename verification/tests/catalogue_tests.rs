use bff_soup::catalogue::{catalogue_family, catalogue_replicators};
use bff_soup::constants::TAPE_SIZE;
use bff_soup::stats::Family;

fn tape_from(program: &[u8]) -> [u8; TAPE_SIZE] {
    let mut tape = [b'x'; TAPE_SIZE];
    tape[..program.len()].copy_from_slice(program);
    tape
}

#[test]
fn catalogue_counts_and_orders_patterns() {
    let tapes = vec![
        tape_from(b"[}<,]"),
        tape_from(b"a[}x<,]b"),
        tape_from(b"[,<}]"),
        tape_from(b"[,<}]"),
        tape_from(b"[>{.]"),
        tape_from(b"[}<,]"),
    ];
    let c = catalogue_replicators(&tapes);
    assert_eq!(c.a.total, 5);
    assert_eq!(c.a.unique, 2);
    // both A patterns occur twice... `[}<,]` three times, `[,<}]` twice
    assert_eq!(
        c.a.patterns,
        vec![(b"[}<,]".to_vec(), 3), (b"[,<}]".to_vec(), 2)]
    );
    let sum_a: u64 = c.a.patterns.iter().map(|(_, n)| n).sum();
    assert_eq!(sum_a, c.a.total);
    assert_eq!(c.b.total, 1);
    assert_eq!(c.b.unique, 1);
    assert_eq!(c.b.patterns, vec![(b"[>{.]".to_vec(), 1)]);
    assert_eq!(c.ab.total, 0);
    assert_eq!(c.ab.unique, 0);
    assert!(c.ab.patterns.is_empty());
}

#[test]
fn catalogue_ties_are_ordered_lexicographically() {
    let tapes = vec![
        tape_from(b"[}<,]"),
        tape_from(b"[,<}]"),
        tape_from(b"[<},]"),
        tape_from(b"[}<,0]"),
    ];
    let bucket = catalogue_family(&tapes, Family::A);
    assert_eq!(bucket.total, 4);
    assert_eq!(bucket.unique, 4);
    assert_eq!(
        bucket.patterns,
        vec![
            (b"[,<}]".to_vec(), 1),
            (b"[<},]".to_vec(), 1),
            (b"[}<,0]".to_vec(), 1),
            (b"[}<,]".to_vec(), 1),
        ]
    );
}

#[test]
fn catalogue_counts_nested_loops_separately() {
    let tapes = vec![tape_from(b"[}<,[>{.]]")];
    let c = catalogue_replicators(&tapes);
    assert_eq!(c.b.patterns, vec![(b"[>{.]".to_vec(), 1)]);
    assert_eq!(c.ab.patterns, vec![(b"[}<,[>{.]]".to_vec(), 1)]);
    assert_eq!(c.a.total, 0);
}

#[test]
fn catalogue_of_empty_soup_is_empty() {
    let c = catalogue_replicators(&[]);
    assert_eq!(c.a.total + c.b.total + c.ab.total, 0);
}

#[test]
fn catalogue_ignores_tape_order() {
    let tapes = vec![
        tape_from(b"[}<,]"),
        tape_from(b"[,<}]"),
        tape_from(b"[>{.]"),
        tape_from(b"[}<,]"),
    ];
    let mut reversed = tapes.clone();
    reversed.reverse();
    let c1 = catalogue_replicators(&tapes);
    let c2 = catalogue_replicators(&reversed);
    assert_eq!(c1.a.patterns, c2.a.patterns);
    assert_eq!(c1.b.patterns, c2.b.patterns);
    assert_eq!(c1.a.total, c2.a.total);
    assert_eq!(c1.ab.unique, c2.ab.unique);
}

#[test]
fn catalogue_of_joined_soups_adds_counts() {
    let x = vec![tape_from(b"[}<,]"), tape_from(b"[>{.]")];
    let y = vec![tape_from(b"[}<,]"), tape_from(b"[,<}]")];
    let mut xy = x.clone();
    xy.extend_from_slice(&y);
    let cx = catalogue_replicators(&x);
    let cy = catalogue_replicators(&y);
    let c = catalogue_replicators(&xy);
    assert_eq!(c.a.total, cx.a.total + cy.a.total);
    assert_eq!(c.b.total, cx.b.total + cy.b.total);
    assert_eq!(c.a.patterns, vec![(b"[}<,]".to_vec(), 2), (b"[,<}]".to_vec(), 1)]);
    assert_eq!(c.total_replicators(), 4);
    assert_eq!(c.unique_replicators(), 3);
}
