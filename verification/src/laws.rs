//! General properties of runs of the abstract machine, stated over the same
//! spec functions that the interpreter's contracts use.

use vstd::prelude::*;

use crate::machine::{byte_dec, byte_inc, bwd_delta, bwd_match, bwd_scan, fwd_delta, fwd_match,
    fwd_scan, is_opcode, lemma_bwd_scan_range, lemma_fwd_scan_close, lemma_fwd_scan_range,
    opcode_effect, ptr_dec, ptr_inc, run, run_enabled, step, step_enabled, State, OP_CLOSE,
    OP_DEC, OP_INC, OP_LEFT, OP_OPEN, OP_RIGHT};
use vstd::arithmetic::div_mod::{lemma_add_mod_noop, lemma_mod_add_multiples_vanish,
    lemma_mod_self_0, lemma_small_mod, lemma_sub_mod_noop};

verus! {

/// How many times `op` occurs in `s`.
pub open spec fn count_op(s: Seq<u8>, op: u8) -> nat
    decreases s.len(),
{
    if s.len() == 0 {
        0
    } else {
        count_op(s.drop_last(), op) + (if s.last() == op {
            1nat
        } else {
            0nat
        })
    }
}

/// Running `a + b` steps is running `a` steps and then `b` more.
pub proof fn lemma_run_add(s: State, a: nat, b: nat)
    ensures
        run(s, a + b) == run(run(s, a), b),
        run_enabled(s, a + b) == (run_enabled(s, a) && run_enabled(run(s, a), b)),
    decreases b,
{
    if b == 0 {
        assert(run(run(s, a), 0) == run(s, a));
        assert(run_enabled(run(s, a), 0));
    } else {
        lemma_run_add(s, a, (b - 1) as nat);
        assert(run(s, a + b) == step(run(s, (a + b - 1) as nat)));
        assert(run(run(s, a), b) == step(run(run(s, a), (b - 1) as nat)));
    }
}

/// Law: a run of `+` and `-` opcodes touches only the cell under the data
/// pointer, and leaves it at (initial value + count of `+` - count of `-`)
/// mod 256.  The pointer, the counter's advance, and both byte streams are
/// pinned down as well.
pub proof fn lemma_arith_run(s: State, n: nat)
    requires
        s.d < s.mem.len(),
        s.pc + n <= s.prog.len() <= usize::MAX,
        forall|k: int|
            s.pc <= k < s.pc + n ==> (#[trigger] s.prog[k]) == OP_INC || s.prog[k] == OP_DEC,
    ensures
        run_enabled(s, n),
        run(s, n).mem =~= s.mem.update(
            s.d as int,
            (((s.mem[s.d as int] + count_op(s.prog.subrange(s.pc as int, s.pc + n), OP_INC))
                - count_op(s.prog.subrange(s.pc as int, s.pc + n), OP_DEC)) % 256) as u8,
        ),
        run(s, n).d == s.d,
        run(s, n).pc == s.pc + n,
        run(s, n).prog == s.prog,
        run(s, n).input == s.input,
        run(s, n).output == s.output,
    decreases n,
{
    let base = s.mem[s.d as int] as int;
    let w = s.prog.subrange(s.pc as int, s.pc + n);
    if n == 0 {
        lemma_small_mod(base as nat, 256);
    } else {
        let m = (n - 1) as nat;
        lemma_arith_run(s, m);
        let wm = s.prog.subrange(s.pc as int, s.pc + m);
        assert(w.drop_last() =~= wm);
        assert(w.last() == s.prog[s.pc + m]);
        let p = count_op(wm, OP_INC) as int;
        let q = count_op(wm, OP_DEC) as int;
        let x = base + p - q;
        let rm = run(s, m);
        let v = rm.mem[rm.d as int];
        assert(v == ((x % 256) as u8));
        assert(run(s, n) == step(rm));
        assert(step_enabled(rm));
        if s.prog[s.pc + m] == OP_INC {
            assert(count_op(w, OP_INC) == p + 1);
            assert(count_op(w, OP_DEC) == q);
            lemma_add_mod_noop(x, 1, 256);
            assert(byte_inc(v) == ((x + 1) % 256) as u8);
            assert(run(s, n).mem =~= s.mem.update(s.d as int, (((x + 1) % 256) as u8)));
        } else {
            assert(count_op(w, OP_INC) == p);
            assert(count_op(w, OP_DEC) == q + 1);
            lemma_sub_mod_noop(x, 1, 256);
            if v == 0 {
                lemma_mod_add_multiples_vanish(-1, 256);
                lemma_small_mod(255, 256);
            }
            assert(byte_dec(v) == ((x - 1) % 256) as u8);
            assert(run(s, n).mem =~= s.mem.update(s.d as int, (((x - 1) % 256) as u8)));
        }
    }
}

/// Law: a run of `>` and `<` opcodes changes only the data pointer, and
/// leaves it at (initial value + count of `>` - count of `<`) mod the
/// pointer's width.  The law says nothing about staying on the tape: a
/// wrapped pointer that left it faults at the next cell access, which is why
/// `step_enabled` demands the pointer be in range there.
pub proof fn lemma_move_run(s: State, n: nat)
    requires
        s.pc + n <= s.prog.len() <= usize::MAX,
        forall|k: int|
            s.pc <= k < s.pc + n ==> (#[trigger] s.prog[k]) == OP_RIGHT || s.prog[k] == OP_LEFT,
    ensures
        run_enabled(s, n),
        run(s, n).d == (((s.d + count_op(s.prog.subrange(s.pc as int, s.pc + n), OP_RIGHT))
            - count_op(s.prog.subrange(s.pc as int, s.pc + n), OP_LEFT)) % (usize::MAX
            + 1)) as usize,
        run(s, n).mem == s.mem,
        run(s, n).pc == s.pc + n,
        run(s, n).prog == s.prog,
        run(s, n).input == s.input,
        run(s, n).output == s.output,
    decreases n,
{
    let width = usize::MAX + 1;
    let w = s.prog.subrange(s.pc as int, s.pc + n);
    if n == 0 {
        lemma_small_mod(s.d as nat, width as nat);
    } else {
        let m = (n - 1) as nat;
        lemma_move_run(s, m);
        let wm = s.prog.subrange(s.pc as int, s.pc + m);
        assert(w.drop_last() =~= wm);
        assert(w.last() == s.prog[s.pc + m]);
        let p = count_op(wm, OP_RIGHT) as int;
        let q = count_op(wm, OP_LEFT) as int;
        let x = s.d + p - q;
        let rm = run(s, m);
        let v = rm.d;
        assert(v == ((x % width) as usize));
        assert(run(s, n) == step(rm));
        assert(step_enabled(rm));
        if s.prog[s.pc + m] == OP_RIGHT {
            assert(count_op(w, OP_RIGHT) == p + 1);
            assert(count_op(w, OP_LEFT) == q);
            lemma_add_mod_noop(x, 1, width);
            lemma_small_mod(1, width as nat);
            if v == usize::MAX {
                lemma_mod_self_0(width);
            } else {
                lemma_small_mod((v + 1) as nat, width as nat);
            }
            assert(ptr_inc(v) == ((x + 1) % width) as usize);
        } else {
            assert(count_op(w, OP_RIGHT) == p);
            assert(count_op(w, OP_LEFT) == q + 1);
            lemma_sub_mod_noop(x, 1, width);
            lemma_small_mod(1, width as nat);
            if v == 0 {
                lemma_mod_add_multiples_vanish(-1, width);
                lemma_small_mod((width - 1) as nat, width as nat);
            } else {
                lemma_small_mod((v - 1) as nat, width as nat);
            }
            assert(ptr_dec(v) == ((x - 1) % width) as usize);
        }
    }
}

/// The Halted state is reached irreversibly: once the exit flag is up, no
/// step takes it down again.
pub proof fn lemma_exit_latches(s: State)
    requires
        s.exit,
    ensures
        step(s).exit,
{
}

/// `prog` with one byte `c` inserted at position `j`.
pub open spec fn insert_byte(prog: Seq<u8>, j: int, c: u8) -> Seq<u8> {
    prog.subrange(0, j) + seq![c] + prog.subrange(j, prog.len() as int)
}

/// Where position `i` of the program sits after an insertion at `j`.
pub open spec fn shift(i: int, j: int) -> int {
    if i < j {
        i
    } else {
        i + 1
    }
}

/// How the inserted program reads, position by position.
proof fn lemma_insert_facts(prog: Seq<u8>, j: int, c: u8)
    requires
        0 <= j <= prog.len(),
    ensures
        insert_byte(prog, j, c).len() == prog.len() + 1,
        forall|k: int| 0 <= k < j ==> #[trigger] insert_byte(prog, j, c)[k] == prog[k],
        insert_byte(prog, j, c)[j] == c,
        forall|k: int|
            j < k < prog.len() + 1 ==> #[trigger] insert_byte(prog, j, c)[k] == prog[k - 1],
{
}

/// The forward scan lands on the same bracket after a comment byte is
/// inserted, up to the insertion's index shift.
proof fn lemma_insert_fwd_scan(prog: Seq<u8>, j: int, c: u8, i: int, b: int)
    requires
        0 <= j <= prog.len(),
        !is_opcode(c),
        0 <= i <= prog.len(),
        1 <= b,
    ensures
        fwd_scan(insert_byte(prog, j, c), shift(i, j), b) == shift(fwd_scan(prog, i, b), j),
    decreases prog.len() - i,
{
    lemma_insert_facts(prog, j, c);
    let p2 = insert_byte(prog, j, c);
    if i == prog.len() {
        assert(fwd_scan(prog, i, b) == prog.len());
        assert(fwd_scan(p2, i + 1, b) == p2.len());
    } else {
        let nb = b + fwd_delta(prog[i]);
        if i < j {
            assert(p2[i] == prog[i]);
            if nb != 0 {
                lemma_insert_fwd_scan(prog, j, c, i + 1, nb);
                if i + 1 == j {
                    // the longer scan steps across the inserted comment
                    assert(fwd_scan(p2, j, nb) == fwd_scan(p2, j + 1, nb));
                }
            }
        } else {
            assert(p2[i + 1] == prog[i]);
            if nb != 0 {
                lemma_insert_fwd_scan(prog, j, c, i + 1, nb);
            }
        }
    }
}

/// The backward scan lands on the same bracket after a comment byte is
/// inserted, up to the insertion's index shift.
proof fn lemma_insert_bwd_scan(prog: Seq<u8>, j: int, c: u8, i: int, b: int)
    requires
        0 <= j <= prog.len(),
        !is_opcode(c),
        -1 <= i < prog.len(),
        1 <= b,
    ensures
        bwd_scan(insert_byte(prog, j, c), shift(i, j), b) == shift(bwd_scan(prog, i, b), j),
    decreases i + 1,
{
    lemma_insert_facts(prog, j, c);
    let p2 = insert_byte(prog, j, c);
    if i == -1 {
        assert(bwd_scan(prog, -1, b) == -1);
        assert(bwd_scan(p2, -1, b) == -1);
    } else {
        let nb = b + bwd_delta(prog[i]);
        if i < j {
            assert(p2[i] == prog[i]);
            if nb != 0 {
                lemma_insert_bwd_scan(prog, j, c, i - 1, nb);
            }
        } else {
            assert(p2[i + 1] == prog[i]);
            if nb != 0 {
                lemma_insert_bwd_scan(prog, j, c, i - 1, nb);
                if i == j {
                    // the longer scan steps across the inserted comment
                    assert(bwd_scan(p2, j, nb) == bwd_scan(p2, j - 1, nb));
                }
            }
        }
    }
}

/// One step of a program is simulated, in the same program with one comment
/// byte inserted, by that step plus at most one inert catch-up step across
/// the insertion.
proof fn lemma_insert_sim_step(s1: State, s2: State, j: int, c: u8) -> (k: nat)
    requires
        step_enabled(s1),
        !is_opcode(c),
        0 <= j <= s1.prog.len(),
        s1.prog.len() < usize::MAX,
        s2.prog == insert_byte(s1.prog, j, c),
        s2.mem == s1.mem,
        s2.d == s1.d,
        s2.input == s1.input,
        s2.output == s1.output,
        s2.pc == shift(s1.pc as int, j),
    ensures
        1 <= k <= 2,
        run_enabled(s2, k),
        run(s2, k).prog == s2.prog,
        run(s2, k).mem == step(s1).mem,
        run(s2, k).d == step(s1).d,
        run(s2, k).input == step(s1).input,
        run(s2, k).output == step(s1).output,
        run(s2, k).pc == shift(step(s1).pc as int, j),
{
    lemma_insert_facts(s1.prog, j, c);
    let pc1 = s1.pc as int;
    let op = s1.prog[pc1];
    assert(s2.prog[s2.pc as int] == op);
    let t1 = opcode_effect(s1);
    let t2 = opcode_effect(s2);
    // the mid-step program counters correspond
    if op == OP_OPEN && s1.mem[s1.d as int] == 0 {
        let m1 = fwd_match(s1.prog, pc1);
        lemma_fwd_scan_range(s1.prog, pc1 + 1, 1);
        if pc1 + 1 == j {
            assert(fwd_scan(s2.prog, j, 1) == fwd_scan(s2.prog, j + 1, 1));
        }
        lemma_insert_fwd_scan(s1.prog, j, c, pc1 + 1, 1);
        assert(fwd_match(s2.prog, s2.pc as int) == shift(m1, j));
        assert(t2.pc == shift(t1.pc as int, j));
    } else if op == OP_CLOSE {
        let m1 = bwd_match(s1.prog, pc1);
        assert(m1 == bwd_scan(s1.prog, pc1 - 1, 1));
        lemma_bwd_scan_range(s1.prog, pc1 - 1, 1);
        assert(bwd_match(s2.prog, s2.pc as int) == bwd_scan(s2.prog, s2.pc - 1, 1));
        if pc1 == j {
            assert(bwd_scan(s2.prog, j, 1) == bwd_scan(s2.prog, j - 1, 1));
        }
        lemma_insert_bwd_scan(s1.prog, j, c, pc1 - 1, 1);
        assert(bwd_scan(s2.prog, s2.pc - 1, 1) == shift(m1, j));
        assert(t1.pc == m1 - 1);
        assert(t2.pc == shift(m1, j) - 1);
    } else {
        assert(t2.pc == shift(t1.pc as int, j));
    }
    assert(step_enabled(s2));
    let s2a = step(s2);
    assert(run(s2, 0) == s2);
    assert(run(s2, 1) == s2a);
    assert(run_enabled(s2, 0));
    assert(run_enabled(s2, 1));
    if s2a.pc == j {
        // the counter stopped on the inserted comment: one inert step
        // carries it across
        assert(step_enabled(s2a));
        assert(run(s2, 2) == step(run(s2, 1)));
        assert(run_enabled(s2, 2));
        assert(step(s2a).pc == j + 1);
        assert(step(s2a).pc == shift(step(s1).pc as int, j));
        2
    } else {
        assert(s2a.pc == shift(step(s1).pc as int, j));
        1
    }
}

/// Law: inserting a comment byte anywhere in a program changes nothing a
/// run can observe.  For every run of the plain program there is a run of
/// the lengthened one — at most one inert step longer per step taken — with
/// the same tape, data pointer, input and output, and with the program
/// counter on the same instruction, shifted past the insertion.  Inserting
/// several comment bytes is this law applied once per byte.
pub proof fn lemma_insert_comment_run(s1: State, s2: State, j: int, c: u8, n: nat) -> (n2: nat)
    requires
        run_enabled(s1, n),
        !is_opcode(c),
        0 <= j <= s1.prog.len(),
        s1.prog.len() < usize::MAX,
        s2.prog == insert_byte(s1.prog, j, c),
        s2.mem == s1.mem,
        s2.d == s1.d,
        s2.input == s1.input,
        s2.output == s1.output,
        s2.pc == shift(s1.pc as int, j),
    ensures
        n <= n2 <= 2 * n,
        run_enabled(s2, n2),
        run(s2, n2).prog == s2.prog,
        run(s2, n2).mem == run(s1, n).mem,
        run(s2, n2).d == run(s1, n).d,
        run(s2, n2).input == run(s1, n).input,
        run(s2, n2).output == run(s1, n).output,
        run(s2, n2).pc == shift(run(s1, n).pc as int, j),
    decreases n,
{
    if n == 0 {
        0
    } else {
        let m = (n - 1) as nat;
        // peel the first step off the plain run
        lemma_run_add(s1, 1, m);
        assert(run(s1, 0) == s1);
        assert(run(s1, 1) == step(s1));
        assert(run_enabled(s1, 0));
        assert(run_enabled(s1, 1) == step_enabled(s1));
        let k = lemma_insert_sim_step(s1, s2, j, c);
        assert(step(s1).prog == s1.prog);
        let rest = lemma_insert_comment_run(step(s1), run(s2, k), j, c, m);
        lemma_run_add(s2, k, rest);
        k + rest
    }
}

/// Law: a whole stretch of comment bytes is fully inert.  Running across it
/// only carries the program counter to its far end; tape, data pointer and
/// both byte streams come through untouched.
pub proof fn lemma_comment_run(s: State, n: nat)
    requires
        s.pc + n <= s.prog.len() <= usize::MAX,
        forall|k: int| s.pc <= k < s.pc + n ==> !is_opcode(#[trigger] s.prog[k]),
    ensures
        run_enabled(s, n),
        run(s, n) == (State {
            pc: (s.pc + n) as usize,
            exit: s.exit || (n > 0 && s.pc + n >= s.prog.len()),
            ..s
        }),
    decreases n,
{
    if n == 0 {
    } else {
        let m = (n - 1) as nat;
        lemma_comment_run(s, m);
        let rm = run(s, m);
        assert(run(s, n) == step(rm));
        assert(step_enabled(rm));
    }
}

/// Law: a `[` whose cell is zero on entry skips its block entirely, in one
/// step: the program counter lands exactly one past the matching `]`, and no
/// opcode inside the block executes, so tape, data pointer and both byte
/// streams are untouched.
pub proof fn lemma_zero_cell_skips_loop(s: State)
    requires
        step_enabled(s),
        s.prog.len() <= usize::MAX,
        s.prog[s.pc as int] == OP_OPEN,
        s.mem[s.d as int] == 0,
    ensures
        s.pc < fwd_match(s.prog, s.pc as int) < s.prog.len(),
        s.prog[fwd_match(s.prog, s.pc as int)] == OP_CLOSE,
        step(s).pc == fwd_match(s.prog, s.pc as int) + 1,
        step(s).mem == s.mem,
        step(s).d == s.d,
        step(s).input == s.input,
        step(s).output == s.output,
{
    lemma_fwd_scan_range(s.prog, s.pc + 1, 1);
    lemma_fwd_scan_close(s.prog, s.pc + 1, 1);
}

/// The forward scan's intermediate states: from position `i` with balance
/// `b`, the scan reaches position `j` with balance `c` without stopping on
/// the way.
pub open spec fn fwd_reaches(prog: Seq<u8>, i: int, b: int, j: int, c: int) -> bool
    decreases j - i,
{
    if i == j {
        b == c
    } else if i < j {
        let nb = b + fwd_delta(prog[i]);
        nb != 0 && fwd_reaches(prog, i + 1, nb, j, c)
    } else {
        false
    }
}

/// A forward scan that finds its match passes through the stop position,
/// carrying the balance that the stop byte takes to zero.
proof fn lemma_fwd_scan_reaches(prog: Seq<u8>, i: int, b: int)
    requires
        0 <= i,
        fwd_scan(prog, i, b) < prog.len(),
    ensures
        exists|c: int|
            #[trigger] fwd_reaches(prog, i, b, fwd_scan(prog, i, b), c) && c + fwd_delta(
                prog[fwd_scan(prog, i, b)],
            ) == 0,
    decreases prog.len() - i,
{
    let m = fwd_scan(prog, i, b);
    let nb = b + fwd_delta(prog[i]);
    if nb == 0 {
        assert(fwd_reaches(prog, i, b, m, b) && b + fwd_delta(prog[m]) == 0);
    } else {
        lemma_fwd_scan_range(prog, i + 1, nb);
        lemma_fwd_scan_reaches(prog, i + 1, nb);
        let c = choose|c: int|
            #[trigger] fwd_reaches(prog, i + 1, nb, m, c) && c + fwd_delta(prog[m]) == 0;
        assert(fwd_reaches(prog, i, b, m, c) && c + fwd_delta(prog[m]) == 0);
    }
}

/// A path of the forward scan can be peeled from its right end.
proof fn lemma_fwd_reaches_last(prog: Seq<u8>, i: int, b: int, j: int, c: int)
    requires
        i < j,
        fwd_reaches(prog, i, b, j, c),
    ensures
        exists|bp: int|
            #[trigger] fwd_reaches(prog, i, b, j - 1, bp) && c == bp + fwd_delta(prog[j - 1])
                && c != 0,
    decreases j - i,
{
    let nb = b + fwd_delta(prog[i]);
    if i + 1 == j {
        assert(fwd_reaches(prog, i + 1, nb, j, c));
        assert(c == nb);
        assert(fwd_reaches(prog, i, b, i, b));
        assert(fwd_reaches(prog, i, b, j - 1, b) && c == b + fwd_delta(prog[j - 1]) && c != 0);
    } else {
        lemma_fwd_reaches_last(prog, i + 1, nb, j, c);
        let bp = choose|bp: int|
            #[trigger] fwd_reaches(prog, i + 1, nb, j - 1, bp) && c == bp + fwd_delta(
                prog[j - 1],
            ) && c != 0;
        assert(fwd_reaches(prog, i, b, j - 1, bp) && c == bp + fwd_delta(prog[j - 1]) && c != 0);
    }
}

/// Walking a forward scan's path backward with the balance it carried
/// returns exactly to the opening bracket the scan started from.
proof fn lemma_fwd_path_bwd(prog: Seq<u8>, pc: int, j: int, c: int)
    requires
        0 <= pc < prog.len(),
        prog[pc] == OP_OPEN,
        fwd_reaches(prog, pc + 1, 1, j, c),
    ensures
        1 <= c,
        bwd_scan(prog, j - 1, c) == pc,
    decreases j - pc,
{
    if j == pc + 1 {
        assert(c == 1);
        assert(bwd_scan(prog, pc, 1) == pc);
    } else {
        lemma_fwd_reaches_last(prog, pc + 1, 1, j, c);
        let bp = choose|bp: int|
            #[trigger] fwd_reaches(prog, pc + 1, 1, j - 1, bp) && c == bp + fwd_delta(
                prog[j - 1],
            ) && c != 0;
        lemma_fwd_path_bwd(prog, pc, j - 1, bp);
        assert(bwd_delta(prog[j - 1]) == -fwd_delta(prog[j - 1]));
        assert(c + bwd_delta(prog[j - 1]) == bp);
        assert(bwd_scan(prog, j - 1, c) == bwd_scan(prog, j - 2, bp));
    }
}

/// Law: the two bracket scans are mutual inverses, so nested loops balance:
/// the `]` that a `[` skips forward to scans backward to exactly that `[`.
pub proof fn lemma_bracket_duality(prog: Seq<u8>, pc: int)
    requires
        0 <= pc < prog.len(),
        prog[pc] == OP_OPEN,
        fwd_match(prog, pc) < prog.len(),
    ensures
        prog[fwd_match(prog, pc)] == OP_CLOSE,
        bwd_match(prog, fwd_match(prog, pc)) == pc,
{
    let m = fwd_match(prog, pc);
    lemma_fwd_scan_range(prog, pc + 1, 1);
    lemma_fwd_scan_close(prog, pc + 1, 1);
    lemma_fwd_scan_reaches(prog, pc + 1, 1);
    let c = choose|c: int|
        #[trigger] fwd_reaches(prog, pc + 1, 1, m, c) && c + fwd_delta(prog[m]) == 0;
    assert(c == 1);
    lemma_fwd_path_bwd(prog, pc, m, c);
    assert(bwd_scan(prog, m, 0) == bwd_scan(prog, m - 1, 1));
}

/// Law: a `[` re-tests its condition on every iteration.  For a loop whose
/// body is a single decrement, entered with the cell at `n`, the body runs
/// exactly `n` times — three steps per iteration (`[`, `-`, `]`) and one
/// final step that skips the emptied loop — after which the cell is zero and
/// the counter sits exactly one past the `]`.
pub proof fn lemma_countdown_loop(s: State, n: u8)
    requires
        s.d < s.mem.len(),
        1 <= s.pc,
        s.pc + 3 <= s.prog.len() <= usize::MAX,
        s.prog[s.pc as int] == OP_OPEN,
        s.prog[s.pc + 1] == OP_DEC,
        s.prog[s.pc + 2] == OP_CLOSE,
        s.mem[s.d as int] == n,
    ensures
        run_enabled(s, 3 * (n as nat) + 1),
        run(s, 3 * (n as nat) + 1).mem =~= s.mem.update(s.d as int, 0u8),
        run(s, 3 * (n as nat) + 1).d == s.d,
        run(s, 3 * (n as nat) + 1).pc == s.pc + 3,
        run(s, 3 * (n as nat) + 1).prog == s.prog,
        run(s, 3 * (n as nat) + 1).input == s.input,
        run(s, 3 * (n as nat) + 1).output == s.output,
    decreases n,
{
    let pc = s.pc as int;
    if n == 0 {
        // the zero cell makes the `[` skip straight past its `]`
        assert(fwd_scan(s.prog, pc + 2, 1) == pc + 2);
        assert(fwd_scan(s.prog, pc + 1, 1) == pc + 2);
        assert(step_enabled(s));
        assert(run(s, 0) == s);
        assert(run(s, 1) == step(s));
        assert(run_enabled(s, 0));
        assert(run_enabled(s, 1));
        assert(run(s, 1).mem =~= s.mem.update(s.d as int, 0u8));
    } else {
        // one iteration: fall through the `[`, decrement, scan back to the `[`
        assert(step_enabled(s));
        let s1 = step(s);
        assert(run(s, 0) == s);
        assert(run(s, 1) == step(run(s, 0)));
        assert(s1.pc == pc + 1);
        assert(step_enabled(s1));
        let s2 = step(s1);
        assert(run(s, 2) == step(run(s, 1)));
        assert(s2.mem == s.mem.update(s.d as int, byte_dec(n)));
        assert(s2.pc == pc + 2);
        assert(bwd_scan(s.prog, pc, 1) == pc);
        assert(bwd_scan(s.prog, pc + 1, 1) == pc);
        assert(bwd_scan(s.prog, pc + 2, 0) == pc);
        assert(step_enabled(s2));
        let s3 = step(s2);
        assert(run(s, 3) == step(run(s, 2)));
        assert(s3.pc == s.pc);
        assert(run_enabled(s, 0));
        assert(run_enabled(s, 1));
        assert(run_enabled(s, 2));
        assert(run_enabled(s, 3));
        assert(s3.mem[s.d as int] == byte_dec(n));
        assert(byte_dec(n) == n - 1);
        lemma_countdown_loop(s3, (n - 1) as u8);
        lemma_run_add(s, 3, 3 * ((n - 1) as nat) + 1);
        assert(3 + (3 * ((n - 1) as nat) + 1) == 3 * (n as nat) + 1);
        assert(run(s3, 3 * ((n - 1) as nat) + 1).mem =~= s3.mem.update(s.d as int, 0u8));
        assert(s3.mem.update(s.d as int, 0u8) =~= s.mem.update(s.d as int, 0u8));
    }
}

} // verus!
