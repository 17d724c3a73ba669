//! The abstract machine: state, opcodes, and the meaning of one step.

use vstd::prelude::*;

verus! {

/// Number of cells on the tape.
pub const TAPE_LEN: usize = 30000;

/// Opcode `>`: move the data pointer right.
pub const OP_RIGHT: u8 = 62;

/// Opcode `<`: move the data pointer left.
pub const OP_LEFT: u8 = 60;

/// Opcode `+`: increment the cell under the data pointer.
pub const OP_INC: u8 = 43;

/// Opcode `-`: decrement the cell under the data pointer.
pub const OP_DEC: u8 = 45;

/// Opcode `.`: emit the cell under the data pointer.
pub const OP_OUT: u8 = 46;

/// Opcode `,`: store one input byte in the cell under the data pointer.
pub const OP_IN: u8 = 44;

/// Opcode `[`: enter a loop, or skip it when the cell is zero.
pub const OP_OPEN: u8 = 91;

/// Opcode `]`: return to the matching `[`.
pub const OP_CLOSE: u8 = 93;

/// Everything the engine reads or writes: the tape, the data pointer, the
/// loaded program, the program counter, the termination flag, and the byte
/// streams the `,` and `.` opcodes consume and produce.
pub ghost struct State {
    pub mem: Seq<u8>,
    pub d: usize,
    pub prog: Seq<u8>,
    pub pc: usize,
    pub exit: bool,
    pub input: Seq<u8>,
    pub output: Seq<u8>,
}

/// The interpreter's invariant: a fixed-size tape, and a program that starts
/// with the single no-op sentinel byte laid down at construction.
pub open spec fn state_wf(s: State) -> bool {
    &&& s.mem.len() == TAPE_LEN
    &&& 1 <= s.prog.len()
    &&& s.prog[0] == 0u8
}

/// The state a freshly constructed interpreter is in.
pub open spec fn init_state() -> State {
    State {
        mem: Seq::new(TAPE_LEN as nat, |i: int| 0u8),
        d: 0,
        prog: seq![0u8],
        pc: 0,
        exit: false,
        input: Seq::empty(),
        output: Seq::empty(),
    }
}

/// A cell increment, wrapping at 8 bits.
pub open spec fn byte_inc(v: u8) -> u8 {
    if v == 255 {
        0
    } else {
        (v + 1) as u8
    }
}

/// A cell decrement, wrapping at 8 bits.
pub open spec fn byte_dec(v: u8) -> u8 {
    if v == 0 {
        255
    } else {
        (v - 1) as u8
    }
}

/// A data-pointer increment, wrapping at the pointer's own width, not at the
/// tape size: a wrapped pointer may well point off the tape.
pub open spec fn ptr_inc(d: usize) -> usize {
    if d == usize::MAX {
        0
    } else {
        (d + 1) as usize
    }
}

/// A data-pointer decrement, wrapping at the pointer's own width.
pub open spec fn ptr_dec(d: usize) -> usize {
    if d == 0 {
        usize::MAX
    } else {
        (d - 1) as usize
    }
}

/// How a byte changes the nesting balance during the forward scan of `[`.
pub open spec fn fwd_delta(b: u8) -> int {
    if b == OP_OPEN {
        1
    } else if b == OP_CLOSE {
        -1
    } else {
        0
    }
}

/// How a byte changes the nesting balance during the backward scan of `]`.
pub open spec fn bwd_delta(b: u8) -> int {
    if b == OP_CLOSE {
        1
    } else if b == OP_OPEN {
        -1
    } else {
        0
    }
}

/// The forward scan: starting at position `i` with nesting balance `bal`,
/// the first position at which the balance reaches zero, or `prog.len()`
/// when it never does.
pub open spec fn fwd_scan(prog: Seq<u8>, i: int, bal: int) -> int
    decreases prog.len() - i,
{
    if i < 0 || i >= prog.len() {
        prog.len() as int
    } else {
        let nb = bal + fwd_delta(prog[i]);
        if nb == 0 {
            i
        } else {
            fwd_scan(prog, i + 1, nb)
        }
    }
}

/// Where a `[` at `pc` jumps when its cell is zero: the scan starts one past
/// the bracket with balance 1, so it stops at the matching `]`.
pub open spec fn fwd_match(prog: Seq<u8>, pc: int) -> int {
    fwd_scan(prog, pc + 1, 1)
}

/// The backward scan: starting at position `i` with nesting balance `bal`,
/// the first position, moving left, at which the balance returns to zero,
/// or -1 when it never does.
pub open spec fn bwd_scan(prog: Seq<u8>, i: int, bal: int) -> int
    decreases i + 1,
{
    if i < 0 {
        -1
    } else {
        let nb = bal + bwd_delta(prog[i]);
        if nb == 0 {
            i
        } else {
            bwd_scan(prog, i - 1, nb)
        }
    }
}

/// Where a `]` at `pc` scans back to: the `]` itself raises the balance to 1
/// on the first tracked step, and the matching `[` returns it to zero.
pub open spec fn bwd_match(prog: Seq<u8>, pc: int) -> int {
    bwd_scan(prog, pc, 0)
}

/// The eight recognized instruction bytes; every other byte is a comment.
pub open spec fn is_opcode(b: u8) -> bool {
    ||| b == OP_RIGHT
    ||| b == OP_LEFT
    ||| b == OP_INC
    ||| b == OP_DEC
    ||| b == OP_OUT
    ||| b == OP_IN
    ||| b == OP_OPEN
    ||| b == OP_CLOSE
}

/// The opcodes that read or write the cell under the data pointer.
pub open spec fn touches_cell(b: u8) -> bool {
    ||| b == OP_INC
    ||| b == OP_DEC
    ||| b == OP_OUT
    ||| b == OP_IN
    ||| b == OP_OPEN
}

/// When one step runs without a fault.  Outside these conditions execution
/// dies of an abrupt out-of-range fault, deliberately unrecovered: a
/// wrapped data pointer that left the tape, or a bracket with no match in a
/// malformed program.
pub open spec fn step_enabled(s: State) -> bool {
    &&& s.pc < s.prog.len()
    &&& touches_cell(s.prog[s.pc as int]) ==> s.d < s.mem.len()
    &&& (s.prog[s.pc as int] == OP_OPEN && s.d < s.mem.len() && s.mem[s.d as int] == 0) ==> fwd_match(
        s.prog,
        s.pc as int,
    ) < s.prog.len()
    &&& s.prog[s.pc as int] == OP_CLOSE ==> 1 <= bwd_match(s.prog, s.pc as int)
}

/// What the instruction at `pc` does to the state, before the counter
/// advances.
pub open spec fn opcode_effect(s: State) -> State {
    let op = s.prog[s.pc as int];
    if op == OP_RIGHT {
        State { d: ptr_inc(s.d), ..s }
    } else if op == OP_LEFT {
        State { d: ptr_dec(s.d), ..s }
    } else if op == OP_INC {
        State { mem: s.mem.update(s.d as int, byte_inc(s.mem[s.d as int])), ..s }
    } else if op == OP_DEC {
        State { mem: s.mem.update(s.d as int, byte_dec(s.mem[s.d as int])), ..s }
    } else if op == OP_OUT {
        State { output: s.output.push(s.mem[s.d as int]), ..s }
    } else if op == OP_IN {
        if s.input.len() > 0 {
            State {
                mem: s.mem.update(s.d as int, s.input[0]),
                input: s.input.drop_first(),
                ..s
            }
        } else {
            s
        }
    } else if op == OP_OPEN {
        if s.mem[s.d as int] == 0 {
            State { pc: fwd_match(s.prog, s.pc as int) as usize, ..s }
        } else {
            s
        }
    } else if op == OP_CLOSE {
        State { pc: (bwd_match(s.prog, s.pc as int) - 1) as usize, ..s }
    } else {
        s
    }
}

/// One full step: apply the instruction's effect, advance the counter, and
/// raise the exit flag once the counter has run off the program's end.
pub open spec fn step(s: State) -> State {
    let t = opcode_effect(s);
    State { pc: (t.pc + 1) as usize, exit: t.exit || t.pc + 1 >= t.prog.len(), ..t }
}

/// `n` steps from `s`.
pub open spec fn run(s: State, n: nat) -> State
    decreases n,
{
    if n == 0 {
        s
    } else {
        step(run(s, (n - 1) as nat))
    }
}

/// Whether every one of the `n` steps from `s` is free of faults.
pub open spec fn run_enabled(s: State, n: nat) -> bool
    decreases n,
{
    if n == 0 {
        true
    } else {
        run_enabled(s, (n - 1) as nat) && step_enabled(run(s, (n - 1) as nat))
    }
}

/// The forward scan never stops before its starting point nor past the end.
pub proof fn lemma_fwd_scan_range(prog: Seq<u8>, i: int, bal: int)
    requires
        0 <= i <= prog.len(),
    ensures
        i <= fwd_scan(prog, i, bal) <= prog.len(),
    decreases prog.len() - i,
{
    if i < prog.len() {
        let nb = bal + fwd_delta(prog[i]);
        if nb != 0 {
            lemma_fwd_scan_range(prog, i + 1, nb);
        }
    }
}

/// A forward scan entered with a positive balance stops on a `]`.
pub proof fn lemma_fwd_scan_close(prog: Seq<u8>, i: int, bal: int)
    requires
        0 <= i,
        1 <= bal,
        fwd_scan(prog, i, bal) < prog.len(),
    ensures
        prog[fwd_scan(prog, i, bal)] == OP_CLOSE,
    decreases prog.len() - i,
{
    if i < prog.len() {
        let nb = bal + fwd_delta(prog[i]);
        if nb != 0 {
            lemma_fwd_scan_close(prog, i + 1, nb);
        }
    }
}

/// The backward scan never stops past its starting point.
pub proof fn lemma_bwd_scan_range(prog: Seq<u8>, i: int, bal: int)
    requires
        -1 <= i,
    ensures
        -1 <= bwd_scan(prog, i, bal) <= i,
    decreases i + 1,
{
    if 0 <= i {
        let nb = bal + bwd_delta(prog[i]);
        if nb != 0 {
            lemma_bwd_scan_range(prog, i - 1, nb);
        }
    }
}

} // verus!
