use bff_soup::constants::{COMBINED_SIZE, EVAL_STEPS, TAPE_SIZE};
use bff_soup::interpreter::run;
use bff_soup::soup::{interact_pair, mutations_for, progress_step, RunAction, Soup};

fn tape_from(program: &[u8]) -> [u8; TAPE_SIZE] {
    let mut tape = [0u8; TAPE_SIZE];
    tape[..program.len()].copy_from_slice(program);
    tape
}

fn sorted(mut v: Vec<[u8; TAPE_SIZE]>) -> Vec<[u8; TAPE_SIZE]> {
    v.sort();
    v
}

#[test]
fn interact_pair_runs_the_combined_tape() {
    let a = tape_from(b"+");
    let mut b = [0u8; TAPE_SIZE];
    b[3] = b'7';
    let mut pair = vec![a, b];
    interact_pair(&mut pair);
    let mut combined = [0u8; COMBINED_SIZE];
    combined[..TAPE_SIZE].copy_from_slice(&a);
    combined[TAPE_SIZE..].copy_from_slice(&b);
    run(&mut combined);
    assert_eq!(&pair[0][..], &combined[..TAPE_SIZE]);
    assert_eq!(&pair[1][..], &combined[TAPE_SIZE..]);
    assert_eq!(pair[0][0], b',');
}

#[test]
fn interact_pair_second_tape_can_be_written() {
    // head 1 moves left to the last byte of the combined tape (in tape b)
    // and `.` copies the byte under head 0 (the `{` itself) there.
    let a = tape_from(b"{.");
    let b = [0u8; TAPE_SIZE];
    let mut pair = vec![a, b];
    interact_pair(&mut pair);
    assert_eq!(pair[1][TAPE_SIZE - 1], b'{');
}

#[test]
fn mutation_count_rounds_to_nearest() {
    assert_eq!(mutations_for(0), 0);
    assert_eq!(mutations_for(2083), 0);
    assert_eq!(mutations_for(2084), 1);
    assert_eq!(mutations_for(1 << 23), 2013);
}

#[test]
fn new_soup_has_requested_size() {
    let soup = Soup::new(10);
    assert_eq!(soup.tapes().len(), 10);
    assert_eq!(soup.epoch_count(), 0);
    let empty = Soup::new(0);
    assert!(empty.tapes().is_empty());
}

#[test]
fn epoch_of_inert_soup_permutes_its_tapes() {
    // no writing instructions and too few bytes for a mutation: an epoch
    // can only reorder the tapes
    let mut tapes = Vec::new();
    for i in 0..8u8 {
        let mut t = [i; TAPE_SIZE];
        t[1] = b'[';
        t[2] = b'>';
        t[5] = b']';
        tapes.push(t);
    }
    let mut soup = Soup::from_tapes(tapes.clone());
    soup.epoch();
    assert_eq!(soup.tapes().len(), 8);
    assert_eq!(sorted(soup.tapes().clone()), sorted(tapes));
    assert_eq!(soup.epoch_count(), 0);
}

#[test]
fn mutation_changes_at_most_the_counted_bytes() {
    let tapes = vec![[b'x'; TAPE_SIZE]; 100];
    let mut soup = Soup::from_tapes(tapes.clone());
    soup.mutate_soup();
    let n = mutations_for(100 * TAPE_SIZE);
    assert_eq!(n, 2);
    let changed: usize = soup
        .tapes()
        .iter()
        .zip(tapes.iter())
        .map(|(a, b)| a.iter().zip(b.iter()).filter(|(x, y)| x != y).count())
        .sum();
    assert!(changed <= n);
    assert_eq!(soup.tapes().len(), 100);
}

#[test]
fn advance_counts_epochs_and_decides() {
    let tapes = vec![[b'x'; TAPE_SIZE]; 4];
    let mut soup = Soup::from_tapes(tapes);
    let (action, filled) = soup.advance(0);
    assert_eq!(soup.epoch_count(), 1);
    assert_eq!(action, RunAction::Keep);
    assert_eq!(filled, 0);
}

#[test]
fn progress_reports_every_eval_steps() {
    assert_eq!(progress_step(EVAL_STEPS, 17), (RunAction::Report, 0));
    assert_eq!(progress_step(2 * EVAL_STEPS, 3), (RunAction::Report, 0));
    assert_eq!(progress_step(1, 0), (RunAction::Keep, 0));
    assert_eq!(progress_step(250, 0), (RunAction::Redraw(250), 1));
    assert_eq!(progress_step(251, 1), (RunAction::Keep, 1));
    assert_eq!(progress_step(EVAL_STEPS + 500, 1), (RunAction::Redraw(500), 2));
}

#[test]
fn inert_pair_is_unchanged_by_interaction() {
    let a = tape_from(b"[<>]{}x");
    let b = tape_from(b"]]]<<<");
    let mut pair = vec![a, b];
    interact_pair(&mut pair);
    assert_eq!(pair, vec![a, b]);
}

#[test]
fn epoch_of_two_tapes_interacts_them_in_some_order() {
    let a = tape_from(b"+");
    let b = [0u8; TAPE_SIZE];
    let mut ab = vec![a, b];
    interact_pair(&mut ab);
    let mut ba = vec![b, a];
    interact_pair(&mut ba);
    let mut soup = Soup::from_tapes(vec![a, b]);
    soup.epoch();
    let got = soup.tapes().clone();
    assert!(got == ab || got == ba);
    assert_ne!(got, vec![a, b]);
    assert_ne!(got, vec![b, a]);
}

#[test]
fn new_soup_tapes_are_random() {
    let soup = Soup::new(64);
    assert!(soup.tapes().iter().any(|t| t.iter().any(|&b| b != 0)));
}

#[test]
fn applied_mutations_write_in_order() {
    let tapes = vec![[0u8; TAPE_SIZE]; 3];
    let mut soup = Soup::from_tapes(tapes);
    soup.apply_mutations(&[(1, 5, 9), (2, 0, 7), (1, 5, 4)]);
    let t = soup.tapes();
    assert_eq!(t[1][5], 4);
    assert_eq!(t[2][0], 7);
    assert_eq!(t[0], [0u8; TAPE_SIZE]);
    let changed: usize = t.iter().map(|x| x.iter().filter(|&&b| b != 0).count()).sum();
    assert_eq!(changed, 2);
}

#[test]
fn run_of_steps_counts_each_epoch() {
    let mut soup = Soup::from_tapes(vec![[b'x'; TAPE_SIZE]; 6]);
    let mut last = 0;
    for _ in 0..5 {
        let (_, f) = soup.advance(last);
        last = f;
    }
    assert_eq!(soup.epoch_count(), 5);
    assert_eq!(soup.tapes().len(), 6);
}
