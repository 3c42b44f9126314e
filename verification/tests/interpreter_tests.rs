use bff_soup::constants::{COMBINED_SIZE, MAX_STEPS};
use bff_soup::interpreter::{match_backward, match_forward, run};

fn tape_from(program: &[u8]) -> [u8; COMBINED_SIZE] {
    let mut tape = [0u8; COMBINED_SIZE];
    tape[..program.len()].copy_from_slice(program);
    tape
}

/// A direct interpreter written independently of the library, for comparison.
fn reference_run(tape: &mut [u8; COMBINED_SIZE]) {
    let n = COMBINED_SIZE;
    let (mut pc, mut h0, mut h1) = (0usize, 0usize, 0usize);
    for _ in 0..MAX_STEPS {
        match tape[pc] {
            b'<' => h0 = (h0 + n - 1) % n,
            b'>' => h0 = (h0 + 1) % n,
            b'{' => h1 = (h1 + n - 1) % n,
            b'}' => h1 = (h1 + 1) % n,
            b'+' => tape[h0] = tape[h0].wrapping_add(1),
            b'-' => tape[h0] = tape[h0].wrapping_sub(1),
            b'.' => tape[h1] = tape[h0],
            b',' => tape[h0] = tape[h1],
            b'[' if tape[h0] == 0 => {
                let mut depth = 0i32;
                let mut j = pc;
                loop {
                    if tape[j] == b'[' {
                        depth += 1;
                    } else if tape[j] == b']' {
                        depth -= 1;
                    }
                    if depth == 0 {
                        pc = j;
                        break;
                    }
                    j += 1;
                    if j == n {
                        break;
                    }
                }
            }
            b']' if tape[h0] != 0 => {
                let mut depth = 0i32;
                let mut j = pc as isize;
                while j >= 0 {
                    let c = tape[j as usize];
                    if c == b']' {
                        depth += 1;
                    } else if c == b'[' {
                        depth -= 1;
                    }
                    if depth == 0 {
                        pc = j as usize;
                        break;
                    }
                    j -= 1;
                }
            }
            _ => {}
        }
        pc = (pc + 1) % n;
    }
}

#[test]
fn forward_match_skips_nested_loops() {
    let tape = tape_from(b"[a[b]c]d");
    assert_eq!(match_forward(&tape, 0), Some(6));
    assert_eq!(match_forward(&tape, 2), Some(4));
}

#[test]
fn forward_match_of_unclosed_loop_is_none() {
    let tape = tape_from(b"[[]");
    assert_eq!(match_forward(&tape, 0), None);
    assert_eq!(match_forward(&tape, 1), Some(2));
    let mut last = [0u8; COMBINED_SIZE];
    last[COMBINED_SIZE - 1] = b'[';
    assert_eq!(match_forward(&last, COMBINED_SIZE - 1), None);
}

#[test]
fn backward_match_skips_nested_loops() {
    let tape = tape_from(b"[a[b]c]d");
    assert_eq!(match_backward(&tape, 6), Some(0));
    assert_eq!(match_backward(&tape, 4), Some(2));
}

#[test]
fn backward_match_of_unopened_loop_is_none() {
    let tape = tape_from(b"[]]");
    assert_eq!(match_backward(&tape, 2), None);
    assert_eq!(match_backward(&tape, 1), Some(0));
    assert_eq!(match_backward(&tape, 0), None);
}

#[test]
fn matches_are_mutual_on_example() {
    let tape = tape_from(b"x[[y]z[]]w[");
    for open in 0..COMBINED_SIZE {
        if tape[open] != b'[' {
            continue;
        }
        if let Some(close) = match_forward(&tape, open) {
            assert_eq!(tape[close], b']');
            assert_eq!(match_backward(&tape, close), Some(open));
        }
    }
}

#[test]
fn data_only_tape_is_unchanged() {
    let mut tape = [0u8; COMBINED_SIZE];
    for (i, b) in tape.iter_mut().enumerate() {
        *b = (i as u8).wrapping_mul(7) | 0x80;
    }
    let before = tape;
    run(&mut tape);
    assert_eq!(tape, before);
}

#[test]
fn tape_of_moves_and_loops_only_is_unchanged() {
    let mut tape = tape_from(b"<>{}[]][<<>>{{}}[[]]");
    let before = tape;
    run(&mut tape);
    assert_eq!(tape, before);
}

#[test]
fn single_increment_rewrites_itself() {
    // `+` at position 0 increments itself (head 0 is there) into `,`, which
    // then copies position 0 onto itself for the rest of the run.
    let mut tape = tape_from(b"+");
    run(&mut tape);
    let mut expected = [0u8; COMBINED_SIZE];
    expected[0] = b',';
    assert_eq!(tape, expected);
}

#[test]
fn single_decrement_wraps_to_a_copy() {
    // `-` (45) decrements itself into `,` (44) as well.
    let mut tape = tape_from(b"-");
    run(&mut tape);
    let mut expected = [0u8; COMBINED_SIZE];
    expected[0] = b',';
    assert_eq!(tape, expected);
}

#[test]
fn run_agrees_with_reference_interpreter() {
    let mut seed: u32 = 12345;
    let alphabet = b"<>{}+-.,[]0\x00\x01\xff";
    for _ in 0..200 {
        let mut tape = [0u8; COMBINED_SIZE];
        for b in tape.iter_mut() {
            seed = seed.wrapping_mul(1103515245).wrapping_add(12345);
            *b = alphabet[((seed >> 16) as usize) % alphabet.len()];
        }
        let mut expected = tape;
        reference_run(&mut expected);
        run(&mut tape);
        assert_eq!(tape, expected);
    }
}

#[test]
fn backward_match_from_the_tape_end() {
    let mut tape = [0u8; COMBINED_SIZE];
    tape[100] = b'[';
    assert_eq!(match_backward(&tape, COMBINED_SIZE), Some(100));
    tape[120] = b']';
    assert_eq!(match_backward(&tape, COMBINED_SIZE), None);
}

#[test]
fn forward_match_past_the_tape_is_none() {
    let tape = tape_from(b"[]");
    assert_eq!(match_forward(&tape, COMBINED_SIZE), None);
    assert_eq!(match_forward(&tape, 1000), None);
}
