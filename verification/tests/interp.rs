use brainfrick::bf::BrainFrick;

/// Drive the interpreter to its Halted state, returning how many steps ran.
fn run_to_halt(bf: &mut BrainFrick) -> usize {
    let mut steps: usize = 0;
    while !bf.exit {
        bf.eval();
        steps += 1;
        assert!(steps < 1_000_000, "interpreter did not halt");
    }
    steps
}

fn fresh(program: &str) -> BrainFrick {
    let mut bf = BrainFrick::new();
    bf.load(program.to_string());
    bf
}

#[test]
fn new_starts_running() {
    let bf = BrainFrick::new();
    assert!(!bf.exit);
    assert_eq!(bf.pointer(), 0);
    assert_eq!(bf.counter(), 0);
    assert_eq!(bf.cell(0), 0);
    assert_eq!(bf.cell(29999), 0);
}

#[test]
fn empty_program_halts_after_sentinel() {
    let mut bf = fresh("");
    let steps = run_to_halt(&mut bf);
    assert_eq!(steps, 1);
    assert!(bf.exit);
    assert_eq!(bf.counter(), 1);
}

#[test]
fn cell_is_plus_minus_count_mod_256() {
    let mut bf = fresh("+++--");
    run_to_halt(&mut bf);
    assert_eq!(bf.cell(0), 1);

    let mut wrap = fresh(&"+".repeat(258));
    run_to_halt(&mut wrap);
    assert_eq!(wrap.cell(0), 2);

    let mut under = fresh("-");
    run_to_halt(&mut under);
    assert_eq!(under.cell(0), 255);
}

#[test]
fn pointer_is_right_left_count() {
    let mut bf = fresh(">>><");
    run_to_halt(&mut bf);
    assert_eq!(bf.pointer(), 2);
}

#[test]
fn pointer_wraps_at_its_width_not_the_tape() {
    let mut bf = fresh("<");
    run_to_halt(&mut bf);
    assert_eq!(bf.pointer(), usize::MAX);
}

#[test]
fn zero_cell_skips_block_entirely() {
    let mut bf = fresh("[+>+<]");
    let steps = run_to_halt(&mut bf);
    // the sentinel, the skipping `[`, and nothing from inside the block
    assert_eq!(steps, 2);
    assert_eq!(bf.cell(0), 0);
    assert_eq!(bf.cell(1), 0);
    assert_eq!(bf.pointer(), 0);
    assert_eq!(bf.counter(), 7);
    assert!(bf.take_output().is_empty());
}

#[test]
fn loop_body_runs_exactly_n_times() {
    // cell starts at 3; each iteration is `[`, `-`, `]`; one last `[` skips
    let mut bf = fresh("+++[-]");
    let steps = run_to_halt(&mut bf);
    assert_eq!(steps, 1 + 3 + (3 * 3 + 1));
    assert_eq!(bf.cell(0), 0);
}

#[test]
fn nested_loops_balance() {
    let mut bf = fresh("+[[-]]");
    let steps = run_to_halt(&mut bf);
    assert_eq!(steps, 9);
    assert_eq!(bf.cell(0), 0);
    assert!(bf.exit);
}

#[test]
fn round_trip_eight_by_eight() {
    let mut bf = fresh("++++++++[>++++++++<-]>.");
    run_to_halt(&mut bf);
    let out = bf.take_output();
    assert_eq!(out, vec![64u8]);
    assert_eq!(bf.cell(0), 0);
    assert_eq!(bf.cell(1), 64);
    assert_eq!(bf.pointer(), 1);
}

#[test]
fn comment_bytes_are_inert() {
    let mut plain = fresh("++++++++[>++++++++<-]>.");
    run_to_halt(&mut plain);
    let mut noisy = fresh("hi ++++ la ++++ [ > +++x+++++ < y - ] z > . done?");
    run_to_halt(&mut noisy);
    assert_eq!(plain.take_output(), noisy.take_output());
    assert_eq!(plain.cell(0), noisy.cell(0));
    assert_eq!(plain.cell(1), noisy.cell(1));
    assert_eq!(plain.pointer(), noisy.pointer());
}

#[test]
fn exhausted_input_leaves_cell_unchanged() {
    let mut bf = fresh(",.");
    run_to_halt(&mut bf);
    assert_eq!(bf.cell(0), 0);
    assert_eq!(bf.take_output(), vec![0u8]);
}

#[test]
fn input_byte_is_stored_and_consumed() {
    let mut bf = fresh(",+.");
    bf.push_input(65);
    run_to_halt(&mut bf);
    assert_eq!(bf.take_output(), vec![66u8]);
    assert_eq!(bf.cell(0), 66);
}

#[test]
fn needs_input_flags_a_starving_comma() {
    let mut bf = fresh(",");
    assert!(!bf.needs_input());
    bf.eval();
    assert!(bf.needs_input());
    bf.push_input(7);
    assert!(!bf.needs_input());
    bf.eval();
    assert_eq!(bf.cell(0), 7);
}

#[test]
fn take_output_drains_the_queue() {
    let mut bf = fresh("+.+.");
    run_to_halt(&mut bf);
    assert_eq!(bf.take_output(), vec![1u8, 2u8]);
    assert!(bf.take_output().is_empty());
}
