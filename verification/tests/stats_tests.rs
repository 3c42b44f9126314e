use bff_soup::constants::{BAR_WIDTH, SAMPLE_COUNT, TAPE_SIZE};
use bff_soup::stats::{
    byte_counts, classify_body, code_skeleton, compress_tape, find_replicator_loops,
    is_opcode_byte, make_progress_bar, needs_redraw, opcode_count, render_tape, sample_tapes,
    unique_code, unique_count, Family,
};

fn tape_from(program: &[u8]) -> [u8; TAPE_SIZE] {
    let mut tape = [b'x'; TAPE_SIZE];
    tape[..program.len()].copy_from_slice(program);
    tape
}

#[test]
fn opcode_lookup_matches_the_ten_instructions() {
    let ops = b"<>{}+-.,[]";
    for b in 0..=255u8 {
        assert_eq!(is_opcode_byte(b), ops.contains(&b), "byte {}", b);
    }
}

#[test]
fn compress_keeps_opcodes_and_zero_characters_in_order() {
    let tape = tape_from(b"a[b0c}d<e,f]g\x00h");
    assert_eq!(compress_tape(&tape), b"[0}<,]".to_vec());
}

#[test]
fn compress_of_data_tape_is_empty() {
    let tape = [7u8; TAPE_SIZE];
    assert!(compress_tape(&tape).is_empty());
}

#[test]
fn classify_family_a() {
    assert_eq!(classify_body(b"}x<,"), Family::A);
}

#[test]
fn classify_family_b() {
    assert_eq!(classify_body(b">{."), Family::B);
}

#[test]
fn classify_family_ab() {
    assert_eq!(classify_body(b"}<,>{."), Family::AB);
}

#[test]
fn classify_incomplete_trigram_is_not_a_replicator() {
    assert_eq!(classify_body(b"}<>{"), Family::NotReplicator);
    assert_eq!(classify_body(b""), Family::NotReplicator);
}

#[test]
fn family_names() {
    assert_eq!(Family::A.as_str(), "A");
    assert_eq!(Family::B.as_str(), "B");
    assert_eq!(Family::AB.as_str(), "AB");
    assert_eq!(Family::NotReplicator.as_str(), "");
}

#[test]
fn loops_are_reported_in_order_of_their_close() {
    let loops = find_replicator_loops(b"[}<,[>{.]]");
    assert_eq!(
        loops,
        vec![
            (Family::B, b"[>{.]".to_vec()),
            (Family::AB, b"[}<,[>{.]]".to_vec()),
        ]
    );
}

#[test]
fn unmatched_close_is_skipped() {
    let loops = find_replicator_loops(b"]]}<,[}<,]");
    assert_eq!(loops, vec![(Family::A, b"[}<,]".to_vec())]);
}

#[test]
fn non_replicator_loops_are_not_reported() {
    assert!(find_replicator_loops(b"[+-][}<]").is_empty());
    assert!(find_replicator_loops(b"[}<,").is_empty());
}

#[test]
fn unique_count_counts_distinct_tapes() {
    let a = tape_from(b"abc");
    let b = tape_from(b"abd");
    let tapes = vec![a, b, a, a, b];
    assert_eq!(unique_count(&tapes), 2);
    assert_eq!(unique_count(&[]), 0);
}

#[test]
fn unique_code_ignores_data_bytes() {
    let a = tape_from(b"+a");
    let b = tape_from(b"+b");
    let c = tape_from(b"-a");
    let tapes = vec![a, b, c];
    assert_eq!(unique_count(&tapes), 3);
    assert_eq!(unique_code(&tapes), 2);
}

#[test]
fn skeleton_zeroes_data_bytes() {
    let tape = tape_from(b"a+b[");
    let skel = code_skeleton(&tape);
    let mut expected = vec![0u8; TAPE_SIZE];
    expected[1] = b'+';
    expected[3] = b'[';
    assert_eq!(skel, expected);
}

#[test]
fn byte_counts_sum_over_all_tapes() {
    let a = tape_from(b"++");
    let b = [b'+'; TAPE_SIZE];
    let counts = byte_counts(&[a, b]);
    assert_eq!(counts.len(), 256);
    assert_eq!(counts[b'+' as usize], 2 + TAPE_SIZE as u64);
    assert_eq!(counts[b'x' as usize], (TAPE_SIZE - 2) as u64);
    assert_eq!(counts.iter().sum::<u64>(), 2 * TAPE_SIZE as u64);
}

#[test]
fn opcode_count_matches_byte_counts() {
    let tapes = vec![tape_from(b"+-x[]0"), tape_from(b"<>{},.")];
    let counts = byte_counts(&tapes);
    let from_counts: u64 = b"<>{}+-.,[]".iter().map(|&b| counts[b as usize]).sum();
    assert_eq!(opcode_count(&tapes), 10);
    assert_eq!(opcode_count(&tapes) as u64, from_counts);
}

#[test]
fn render_shows_code_bytes_and_spaces() {
    let tape = tape_from(b"a[0]");
    let r = render_tape(&tape);
    let mut expected = vec![b' '; TAPE_SIZE];
    expected[1] = b'[';
    expected[2] = b'0';
    expected[3] = b']';
    assert_eq!(r, expected);
}

#[test]
fn samples_are_distinct_rendered_tapes() {
    let mut tapes = Vec::new();
    for i in 0..(SAMPLE_COUNT + 3) {
        let mut t = [b'x'; TAPE_SIZE];
        t[0] = b'0';
        t[1 + i % 60] = b'+';
        t[62] = (i as u8) % 10 + b'0';
        tapes.push(t);
    }
    let samples = sample_tapes(&tapes);
    assert_eq!(samples.len(), SAMPLE_COUNT);
    let rendered: Vec<Vec<u8>> = tapes.iter().map(render_tape).collect();
    for s in &samples {
        assert!(rendered.contains(s));
    }
    // distinct picks of distinct tapes give distinct samples here
    for i in 0..samples.len() {
        for j in (i + 1)..samples.len() {
            assert_ne!(samples[i], samples[j]);
        }
    }
}

#[test]
fn progress_bar_empty_half_full() {
    let empty = make_progress_bar(0, 10);
    assert_eq!(empty, format!("[{}]", ".".repeat(BAR_WIDTH)));
    let half = make_progress_bar(5, 10);
    assert_eq!(half, format!("[{}{}]", "=".repeat(BAR_WIDTH / 2), ".".repeat(BAR_WIDTH / 2)));
    let full = make_progress_bar(10, 10);
    assert_eq!(full, format!("[{}]", "=".repeat(BAR_WIDTH)));
    assert_eq!(make_progress_bar(1, 0), format!("[{}]", "=".repeat(BAR_WIDTH)));
    for c in 0..=10 {
        assert_eq!(make_progress_bar(c, 10).len(), BAR_WIDTH + 2);
    }
}

#[test]
fn redraw_only_when_fill_changes() {
    // 10000 steps over a 40-cell bar: one cell per 250 steps
    assert!(!needs_redraw(0, 10_000));
    assert!(!needs_redraw(1, 10_000));
    assert!(!needs_redraw(249, 10_000));
    assert!(needs_redraw(250, 10_000));
    assert!(!needs_redraw(251, 10_000));
    assert!(needs_redraw(500, 10_000));
}

#[test]
fn picks_are_rendered_in_order() {
    let tapes = vec![tape_from(b"a+"), tape_from(b"0b"), tape_from(b"[]")];
    let r = bff_soup::stats::render_picks(&tapes, &[2, 0, 2]);
    assert_eq!(r.len(), 3);
    assert_eq!(r[0], render_tape(&tapes[2]));
    assert_eq!(r[1], render_tape(&tapes[0]));
    assert_eq!(r[2], render_tape(&tapes[2]));
}
