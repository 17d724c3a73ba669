//! The executable interpreter, proved to follow the abstract machine.

use vstd::prelude::*;

use crate::machine::{byte_dec, byte_inc, bwd_match, bwd_scan, fwd_match, fwd_scan, init_state,
    lemma_bwd_scan_range, lemma_fwd_scan_range, opcode_effect, ptr_dec, ptr_inc, state_wf, step,
    step_enabled, State, OP_CLOSE, OP_DEC, OP_IN, OP_INC, OP_LEFT, OP_OPEN, OP_OUT, OP_RIGHT,
    TAPE_LEN};
use vstd::string::StrSliceExecFns;
use vstd::utf8::encode_utf8;

verus! {

/// The interpreter: a fixed-size byte tape, a data pointer into it, the
/// loaded program, a program counter, the exit flag the driver polls, and
/// the queues of input not yet consumed and output not yet taken.
pub struct BrainFrick {
    /// The tape: a fixed-size array of byte cells, all starting at zero.
    mem: Vec<u8>,
    /// The data pointer: the tape index currently read or written.
    d: usize,
    /// The loaded program, behind a leading no-op sentinel byte.
    prog: Vec<u8>,
    /// The program counter: the next instruction to execute.
    pc: usize,
    /// True once the program counter has run off the end of the program.
    pub exit: bool,
    /// Input bytes queued for the `,` opcode, consumed front first.
    input: Vec<u8>,
    /// Bytes the `.` opcode has emitted and nobody has taken yet.
    output: Vec<u8>,
}

impl View for BrainFrick {
    type V = State;

    closed spec fn view(&self) -> State {
        State {
            mem: self.mem@,
            d: self.d,
            prog: self.prog@,
            pc: self.pc,
            exit: self.exit,
            input: self.input@,
            output: self.output@,
        }
    }
}

impl BrainFrick {
    /// The interpreter's invariant, kept by every operation.
    pub open spec fn wf(self) -> bool {
        state_wf(self@)
    }

    /// A fresh interpreter: a zeroed tape, both pointers at zero, and a
    /// program holding only the sentinel byte.
    pub fn new() -> (r: BrainFrick)
        ensures
            r@ == init_state(),
            r.wf(),
    {
        let mut mem: Vec<u8> = Vec::new();
        let mut i: usize = 0;
        while i < TAPE_LEN
            invariant
                i <= TAPE_LEN,
                mem@.len() == i,
                forall|k: int| 0 <= k < i ==> mem@[k] == 0u8,
            decreases TAPE_LEN - i,
        {
            mem.push(0);
            i += 1;
        }
        let mut prog: Vec<u8> = Vec::new();
        prog.push(0);
        let r = BrainFrick {
            mem,
            d: 0,
            prog,
            pc: 0,
            exit: false,
            input: Vec::new(),
            output: Vec::new(),
        };
        proof {
            assert(r@.mem =~= init_state().mem);
            assert(r@.prog =~= init_state().prog);
            assert(r@.input =~= init_state().input);
            assert(r@.output =~= init_state().output);
        }
        r
    }

    /// Append the bytes of `program` to the program buffer, behind the
    /// sentinel.  To be called exactly once, before the first `eval`; no
    /// bracket balance is checked here.
    pub fn load(&mut self, program: String)
        ensures
            final(self)@ == (State { prog: old(self)@.prog + encode_utf8(program@), ..old(self)@ }),
    {
        let bytes: Vec<u8> = program.as_str().as_bytes_vec();
        proof {
            assert(self@.prog =~= old(self)@.prog + bytes@.subrange(0, 0));
        }
        let n = bytes.len();
        let mut i: usize = 0;
        while i < n
            invariant
                i <= n,
                n == bytes@.len(),
                self@.prog == old(self)@.prog + bytes@.subrange(0, i as int),
                self@.mem == old(self)@.mem,
                self@.d == old(self)@.d,
                self@.pc == old(self)@.pc,
                self@.exit == old(self)@.exit,
                self@.input == old(self)@.input,
                self@.output == old(self)@.output,
            decreases n - i,
        {
            let b = bytes[i];
            self.prog.push(b);
            i += 1;
            proof {
                assert(self@.prog =~= old(self)@.prog + bytes@.subrange(0, i as int));
            }
        }
        proof {
            assert(bytes@.subrange(0, n as int) =~= bytes@);
        }
    }

    /// Queue one byte for the `,` opcode to consume later.
    pub fn push_input(&mut self, b: u8)
        ensures
            final(self)@ == (State { input: old(self)@.input.push(b), ..old(self)@ }),
    {
        self.input.push(b);
    }

    /// Hand out everything `.` has emitted since the last call, oldest first,
    /// and leave the output queue empty.
    pub fn take_output(&mut self) -> (r: Vec<u8>)
        ensures
            r@ == old(self)@.output,
            final(self)@ == (State { output: Seq::<u8>::empty(), ..old(self)@ }),
    {
        let mut r: Vec<u8> = Vec::new();
        core::mem::swap(&mut r, &mut self.output);
        r
    }

    /// True when the instruction about to run is `,` and no input byte is
    /// queued: the moment a driver would block on its input source.
    pub fn needs_input(&self) -> (r: bool)
        ensures
            r == (self@.pc < self@.prog.len() && self@.prog[self@.pc as int] == OP_IN
                && self@.input.len() == 0),
    {
        self.pc < self.prog.len() && self.prog[self.pc] == OP_IN && self.input.len() == 0
    }

    /// The value of the tape cell at `i`.
    pub fn cell(&self, i: usize) -> (r: u8)
        requires
            i < self@.mem.len(),
        ensures
            r == self@.mem[i as int],
    {
        self.mem[i]
    }

    /// The data pointer.
    pub fn pointer(&self) -> (r: usize)
        ensures
            r == self@.d,
    {
        self.d
    }

    /// The program counter.
    pub fn counter(&self) -> (r: usize)
        ensures
            r == self@.pc,
    {
        self.pc
    }

    /// Increment the data pointer (position on tape), wrapping at the
    /// pointer's width.
    fn inc_pos(&mut self)
        ensures
            final(self)@ == (State { d: ptr_inc(old(self)@.d), ..old(self)@ }),
    {
        let before = self.d;
        let result = before.wrapping_add(1);
        self.d = result;
    }

    /// Decrement the data pointer (position on tape), wrapping at the
    /// pointer's width.
    fn dec_pos(&mut self)
        ensures
            final(self)@ == (State { d: ptr_dec(old(self)@.d), ..old(self)@ }),
    {
        let before = self.d;
        let result = before.wrapping_sub(1);
        self.d = result;
    }

    /// Increment the cell at the data pointer, wrapping at 8 bits.
    fn inc_data(&mut self)
        requires
            old(self)@.d < old(self)@.mem.len(),
        ensures
            final(self)@ == (State {
                mem: old(self)@.mem.update(
                    old(self)@.d as int,
                    byte_inc(old(self)@.mem[old(self)@.d as int]),
                ),
                ..old(self)@
            }),
    {
        let before = self.mem[self.d];
        let result = before.wrapping_add(1);
        self.mem.set(self.d, result);
    }

    /// Decrement the cell at the data pointer, wrapping at 8 bits.
    fn dec_data(&mut self)
        requires
            old(self)@.d < old(self)@.mem.len(),
        ensures
            final(self)@ == (State {
                mem: old(self)@.mem.update(
                    old(self)@.d as int,
                    byte_dec(old(self)@.mem[old(self)@.d as int]),
                ),
                ..old(self)@
            }),
    {
        let before = self.mem[self.d];
        let result = before.wrapping_sub(1);
        self.mem.set(self.d, result);
    }

    /// Emit the cell at the data pointer on the output queue.
    fn out_char(&mut self)
        requires
            old(self)@.d < old(self)@.mem.len(),
        ensures
            final(self)@ == (State {
                output: old(self)@.output.push(old(self)@.mem[old(self)@.d as int]),
                ..old(self)@
            }),
    {
        let b = self.mem[self.d];
        self.output.push(b);
    }

    /// Store the next queued input byte in the cell at the data pointer;
    /// with the queue exhausted, leave the cell unchanged.
    fn in_char(&mut self)
        requires
            old(self)@.d < old(self)@.mem.len(),
        ensures
            final(self)@ == (if old(self)@.input.len() > 0 {
                State {
                    mem: old(self)@.mem.update(old(self)@.d as int, old(self)@.input[0]),
                    input: old(self)@.input.drop_first(),
                    ..old(self)@
                }
            } else {
                old(self)@
            }),
    {
        if self.input.len() > 0 {
            let b = self.input.remove(0);
            self.mem.set(self.d, b);
            proof {
                assert(self@.input =~= old(self)@.input.drop_first());
            }
        }
    }

    /// Handle an open bracket: with the cell at the data pointer zero, scan
    /// forward, tracking the nesting balance, and leave the counter on the
    /// matching `]`; otherwise fall through into the loop body.
    fn open(&mut self)
        requires
            old(self)@.pc < old(self)@.prog.len(),
            old(self)@.prog[old(self)@.pc as int] == OP_OPEN,
            old(self)@.d < old(self)@.mem.len(),
            old(self)@.mem[old(self)@.d as int] == 0 ==> fwd_match(
                old(self)@.prog,
                old(self)@.pc as int,
            ) < old(self)@.prog.len(),
        ensures
            final(self)@ == (if old(self)@.mem[old(self)@.d as int] == 0 {
                State {
                    pc: fwd_match(old(self)@.prog, old(self)@.pc as int) as usize,
                    ..old(self)@
                }
            } else {
                old(self)@
            }),
    {
        let ghost s0 = self@;
        let ghost m = fwd_match(s0.prog, s0.pc as int);
        let plen = self.prog.len();
        let mut balance: usize = 1;
        if self.mem[self.d] == 0 {
            proof {
                lemma_fwd_scan_range(s0.prog, s0.pc + 1, 1);
            }
            while balance != 0
                invariant
                    self@.mem == s0.mem,
                    self@.d == s0.d,
                    self@.prog == s0.prog,
                    self@.exit == s0.exit,
                    self@.input == s0.input,
                    self@.output == s0.output,
                    plen == s0.prog.len(),
                    m == fwd_match(s0.prog, s0.pc as int),
                    m < plen,
                    s0.pc <= self@.pc,
                    balance <= self@.pc - s0.pc + 1,
                    (if balance == 0 {
                        self@.pc == m
                    } else {
                        &&& 1 <= balance
                        &&& self@.pc < m
                        &&& fwd_scan(s0.prog, self@.pc + 1, balance as int) == m
                    }),
                decreases m - self@.pc,
            {
                self.pc += 1;
                let ghost bal0 = balance as int;
                let op = self.prog[self.pc];
                if op == OP_OPEN {
                    balance += 1;
                } else if op == OP_CLOSE {
                    balance -= 1;
                }
                proof {
                    // one unfolding of the scan at the position just examined
                    assert(fwd_scan(s0.prog, self@.pc as int, bal0) == m);
                    if balance != 0 {
                        assert(fwd_scan(s0.prog, self@.pc + 1, balance as int) == m);
                        lemma_fwd_scan_range(s0.prog, self@.pc + 1, balance as int);
                    }
                }
            }
        }
    }

    /// Handle a closed bracket: scan backward, tracking the nesting balance,
    /// and leave the counter one before the matching `[`, so that the step's
    /// advance lands back on it and the loop condition is tested again.
    fn close(&mut self)
        requires
            old(self)@.pc < old(self)@.prog.len(),
            old(self)@.prog[old(self)@.pc as int] == OP_CLOSE,
            1 <= bwd_match(old(self)@.prog, old(self)@.pc as int),
        ensures
            final(self)@ == (State {
                pc: (bwd_match(old(self)@.prog, old(self)@.pc as int) - 1) as usize,
                ..old(self)@
            }),
    {
        let ghost s0 = self@;
        let ghost m = bwd_match(s0.prog, s0.pc as int);
        proof {
            // the `]` itself raises the balance to 1 on the first tracked step
            assert(m == bwd_scan(s0.prog, s0.pc - 1, 1));
            lemma_bwd_scan_range(s0.prog, s0.pc - 1, 1);
        }
        let mut balance: usize = 1;
        self.pc -= 1;
        while balance != 0
            invariant
                self@.mem == s0.mem,
                self@.d == s0.d,
                self@.prog == s0.prog,
                self@.exit == s0.exit,
                self@.input == s0.input,
                self@.output == s0.output,
                1 <= m,
                m == bwd_match(s0.prog, s0.pc as int),
                (if balance == 0 {
                    self@.pc == m - 1
                } else {
                    &&& 1 <= balance
                    &&& m <= self@.pc < s0.prog.len()
                    &&& balance <= s0.pc - self@.pc
                    &&& bwd_scan(s0.prog, self@.pc as int, balance as int) == m
                }),
            decreases self@.pc,
        {
            let ghost bal0 = balance as int;
            let ghost pc0 = self@.pc as int;
            let op = self.prog[self.pc];
            if op == OP_CLOSE {
                balance += 1;
            } else if op == OP_OPEN {
                balance -= 1;
            }
            proof {
                assert(bwd_scan(s0.prog, pc0, bal0) == m);
                if balance != 0 {
                    assert(bwd_scan(s0.prog, pc0 - 1, balance as int) == m);
                    lemma_bwd_scan_range(s0.prog, pc0 - 1, balance as int);
                }
            }
            self.pc -= 1;
        }
    }

    /// Evaluate the instruction under the program counter (an unmatched byte
    /// is a no-op), advance the counter, and raise the exit flag once the
    /// counter has run off the end of the program.
    pub fn eval(&mut self)
        requires
            old(self).wf(),
            step_enabled(old(self)@),
        ensures
            final(self).wf(),
            final(self)@ == step(old(self)@),
    {
        let ghost s0 = self@;
        let plen = self.prog.len();
        let op = self.prog[self.pc];
        if op == OP_RIGHT {
            self.inc_pos();
        } else if op == OP_LEFT {
            self.dec_pos();
        } else if op == OP_INC {
            self.inc_data();
        } else if op == OP_DEC {
            self.dec_data();
        } else if op == OP_OUT {
            self.out_char();
        } else if op == OP_IN {
            self.in_char();
        } else if op == OP_OPEN {
            self.open();
        } else if op == OP_CLOSE {
            proof {
                lemma_bwd_scan_range(s0.prog, s0.pc - 1, 1);
            }
            self.close();
        }
        proof {
            assert(self@ == opcode_effect(s0));
            if op == OP_OPEN && s0.mem[s0.d as int] == 0 {
                lemma_fwd_scan_range(s0.prog, s0.pc + 1, 1);
            }
            if op == OP_CLOSE {
                assert(bwd_match(s0.prog, s0.pc as int) == bwd_scan(s0.prog, s0.pc - 1, 1));
                assert(bwd_match(s0.prog, s0.pc as int) <= s0.pc - 1);
            }
            assert(self@.pc < plen);
        }
        self.pc += 1;
        if self.pc >= plen {
            self.exit = true;
        }
    }
}

} // verus!
