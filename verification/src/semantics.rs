use vstd::prelude::*;
use crate::value::{Val, render, decimal};
use crate::program::{ID, lookup};
use crate::collect::FnModel;

verus! {

/// `{`: opens a function body, which is skipped.
pub const OPEN: u8 = 123;

/// `}`: returns from a function.
pub const CLOSE: u8 = 125;

/// `0`: the lowest digit.
pub const DIGIT_0: u8 = 48;

/// `9`: the highest digit.
pub const DIGIT_9: u8 = 57;

/// `t`: drops the top value.
pub const DROP: u8 = 116;

/// `)`: moves the top value to the frame's stack.
pub const STASH: u8 = 41;

/// `(`: moves a value back from the frame's stack.
pub const UNSTASH: u8 = 40;

/// `a`: moves all the frame's stack back.
pub const UNSTASH_ALL: u8 = 97;

/// `r`: rotates the three top values.
pub const ROTATE: u8 = 114;

/// `s`: swaps the two top values.
pub const SWAP: u8 = 115;

/// `d`: duplicates the top value.
pub const DUP: u8 = 100;

/// `+`: adds, or joins two lists.
pub const ADD: u8 = 43;

/// `-`: subtracts.
pub const SUB: u8 = 45;

/// `*`: multiplies.
pub const MUL: u8 = 42;

/// `/`: divides.
pub const DIV: u8 = 47;

/// `>`: compares: greater.
pub const GT: u8 = 62;

/// `<`: compares: less.
pub const LT: u8 = 60;

/// `=`: compares: equal.
pub const EQ: u8 = 61;

/// `i`: reads a byte.
pub const INPUT: u8 = 105;

/// `o`: prints a value as characters.
pub const OUT_CHAR: u8 = 111;

/// `n`: prints a value as numbers.
pub const OUT_NUM: u8 = 110;

/// `c`: calls a function.
pub const CALL: u8 = 99;

/// `b`: calls one of two functions.
pub const BRANCH: u8 = 98;

/// `l`: pushes an empty list.
pub const NEW_LIST: u8 = 108;

/// `p`: appends to a list.
pub const APPEND: u8 = 112;

/// `e`: prints a newline.
pub const NEWLINE: u8 = 101;

/// `[`: takes the first item of a list.
pub const HEAD: u8 = 91;

/// `]`: takes the last item of a list.
pub const LAST: u8 = 93;

/// `_`: pushes the length of a list.
pub const LEN: u8 = 95;

/// `f`: runs a function on each item of a list.
pub const MAP: u8 = 102;

/// Why a run stops short: each case is a panic of the interpreter.
#[derive(Copy, Clone, Debug, PartialEq, Eq, Structural)]
pub enum Fault {
    /// A digit continues a number, but the top of the stack is not an integer.
    NotANumber,
    /// An integer operation overflowed.
    Overflow,
    /// Division by zero.
    DivideByZero,
    /// `)` or `(` found its source stack empty.
    StackEmpty,
    /// The instruction at `at` needs `need` values and finds fewer (or of the wrong kind).
    TooFew { need: u8, at: u32 },
    /// The instruction at `at` needs a value and the stack is empty.
    EmptyAt(u32),
    /// `d` found the stack empty.
    Empty,
    /// The operator `op` at `at` does not apply to lists.
    ListOp { op: u8, at: u32 },
    /// An operator got an integer and a list.
    TypeMismatch,
    /// `i` at `at` found the input closed.
    StdinClosed(u32),
    /// The call by `op` at `at` names `name`, which is not bound in the current scope.
    NotInScope { op: u8, name: i64, at: u32 },
    /// The call by `op` at `at` reached an identity with no function.
    NoSuchFunction { op: u8, at: u32 },
    /// `c` at `at` got a list in place of a function name.
    ListCall(u32),
    /// `[` or `]` got an empty list.
    ListEmpty,
    /// `[`, `]` or `_` did not find a list on top.
    NotAList,
}

/// The model of a call frame: where to return, the frame's own stack, the caller's scope.
pub struct FrameM {
    pub ret_addr: u32,
    pub stack: Seq<Val>,
    pub env: Seq<(ID, ID)>,
}

/// The model of one run of the interpreter.
pub struct RunM {
    pub eip: u32,
    pub frames: Seq<FrameM>,
    pub stack: Seq<Val>,
    pub num_state: bool,
    pub scope: Seq<(ID, ID)>,
}

/// The model of a map (`f`) in progress: the function's first instruction, the items, the
/// index of the next item to run, the results gathered so far.
pub struct JobM {
    pub entry: u32,
    pub items: Seq<Val>,
    pub next: int,
    pub results: Seq<Val>,
}

/// The model of the machine: the runs, innermost last, and one map per run that waits for
/// the run above it.
pub struct MachineM {
    pub runs: Seq<RunM>,
    pub jobs: Seq<JobM>,
}

/// What one instruction does to a run.
pub enum Outcome {
    /// The run goes on in this state, after printing this text.
    Next(RunM, Seq<char>),
    /// The instruction reads a byte of input.
    Wait,
    /// The run ends with this result.
    Done(Option<Val>),
    /// The run goes on in this state once the function starting at the position has been run
    /// on each of the items.
    ForEach(RunM, u32, Seq<Val>),
    /// The interpreter panics.
    Failed(Fault),
}

/// What one step of the machine asks of its driver.
pub enum Act {
    Continue,
    ReadByte,
    Halt(Option<Val>),
    Fail(Fault),
}

/// One step of the machine: the new state, the text to print, the action.
pub struct StepM {
    pub next: MachineM,
    pub out: Seq<char>,
    pub act: Act,
}

/// The top of a stack, if any.
pub open spec fn top(s: Seq<Val>) -> Option<Val> {
    if s.len() > 0 {
        Some(s.last())
    } else {
        None
    }
}

/// A stack after a pop (unchanged when empty).
pub open spec fn rest(s: Seq<Val>) -> Seq<Val> {
    if s.len() > 0 {
        s.drop_last()
    } else {
        s
    }
}

/// Whether a value fits in 64 bits.
pub open spec fn fits(v: int) -> bool {
    i64::MIN <= v <= i64::MAX
}

/// Division rounding towards zero.
pub open spec fn trunc_div(a: int, b: int) -> int {
    let q = (if a < 0 {
        -a
    } else {
        a
    }) / (if b < 0 {
        -b
    } else {
        b
    });
    if (a < 0) != (b < 0) {
        -q
    } else {
        q
    }
}

/// A fresh run of the code from `entry` on `stack`, in the outermost scope.
pub open spec fn new_run(stack: Seq<Val>, entry: u32, global: Seq<(ID, ID)>) -> RunM {
    RunM {
        eip: entry,
        frames: seq![FrameM { ret_addr: u32::MAX, stack: Seq::empty(), env: global }],
        stack,
        num_state: false,
        scope: global,
    }
}

/// The position just after the brace that closes the body being skipped, scanning from `j`
/// with `level` braces open; `None` when it is never closed.
pub open spec fn skip_body(code: Seq<u8>, j: int, level: int) -> Result<Option<int>, Fault>
    decreases code.len() - j,
{
    if j >= code.len() || j < 0 {
        Ok(None)
    } else if code[j] == OPEN {
        if level + 1 > i32::MAX {
            Err(Fault::Overflow)
        } else {
            skip_body(code, j + 1, level + 1)
        }
    } else if code[j] == CLOSE {
        if level - 1 == 0 {
            Ok(Some(j + 1))
        } else {
            skip_body(code, j + 1, level - 1)
        }
    } else {
        skip_body(code, j + 1, level)
    }
}

/// A digit `d`: starts a number, or extends the number on top when the previous instruction
/// was a digit.
pub open spec fn digit_push(s: Seq<Val>, d: int, continues: bool) -> Result<Seq<Val>, Fault> {
    if !continues {
        Ok(s.push(Val::Int(d as i64)))
    } else {
        match top(s) {
            Some(Val::Int(x)) => if !fits(x * 10) || !fits(x * 10 + d) {
                Err(Fault::Overflow)
            } else {
                Ok(s.drop_last().push(Val::Int((x * 10 + d) as i64)))
            },
            _ => Err(Fault::NotANumber),
        }
    }
}

/// An integer operator applied to the top `a` and the value below it `b`.
pub open spec fn arith(op: u8, a: i64, b: i64) -> Result<i64, Fault> {
    if op == ADD {
        if fits(a + b) { Ok((a + b) as i64) } else { Err(Fault::Overflow) }
    } else if op == SUB {
        if fits(a - b) { Ok((a - b) as i64) } else { Err(Fault::Overflow) }
    } else if op == MUL {
        if fits(a * b) { Ok((a * b) as i64) } else { Err(Fault::Overflow) }
    } else if op == DIV {
        if b == 0 {
            Err(Fault::DivideByZero)
        } else if fits(trunc_div(a as int, b as int)) {
            Ok(trunc_div(a as int, b as int) as i64)
        } else {
            Err(Fault::Overflow)
        }
    } else if op == EQ {
        Ok(if a == b { 1 } else { 0 })
    } else if op == GT {
        Ok(if a > b { 1 } else { 0 })
    } else {
        Ok(if a < b { 1 } else { 0 })
    }
}

/// Whether a byte is one of the binary operators.
pub open spec fn is_binary(op: u8) -> bool {
    op == ADD || op == SUB || op == MUL || op == DIV || op == GT || op == LT || op == EQ
}

/// A binary operator on the two values on top (`a` the top one): integers give an integer,
/// `+` on two lists gives the top list followed by the other.
pub open spec fn binary(op: u8, s: Seq<Val>, at: u32) -> Result<Seq<Val>, Fault> {
    if s.len() < 2 {
        Err(Fault::TooFew { need: 2, at })
    } else {
        let base = s.take(s.len() - 2);
        match (s[s.len() - 1], s[s.len() - 2]) {
            (Val::Int(a), Val::Int(b)) => match arith(op, a, b) {
                Ok(v) => Ok(base.push(Val::Int(v))),
                Err(f) => Err(f),
            },
            (Val::List(a), Val::List(b)) => if op == ADD {
                Ok(base.push(Val::List(a + b)))
            } else {
                Err(Fault::ListOp { op, at })
            },
            _ => Err(Fault::TypeMismatch),
        }
    }
}

/// The instructions that only work on the main stack.
pub open spec fn stack_op(inst: u8, s: Seq<Val>, at: u32) -> Result<Seq<Val>, Fault> {
    let n = s.len();
    if inst == DROP {
        Ok(rest(s))
    } else if inst == ROTATE {
        if n < 3 {
            Err(Fault::TooFew { need: 3, at })
        } else {
            Ok(s.take(n - 3) + seq![s[n - 1], s[n - 3], s[n - 2]])
        }
    } else if inst == SWAP {
        if n < 2 {
            Err(Fault::TooFew { need: 2, at })
        } else {
            Ok(s.take(n - 2) + seq![s[n - 1], s[n - 2]])
        }
    } else if inst == DUP {
        if n < 1 {
            Err(Fault::Empty)
        } else {
            Ok(s.push(s[n - 1]))
        }
    } else if is_binary(inst) {
        binary(inst, s, at)
    } else if inst == NEW_LIST {
        Ok(s.push(Val::List(Seq::empty())))
    } else if inst == APPEND {
        if n >= 2 && s[n - 2] is List {
            Ok(s.take(n - 2).push(Val::List(s[n - 2]->List_0.push(s[n - 1]))))
        } else {
            Err(Fault::TooFew { need: 2, at })
        }
    } else if inst == HEAD || inst == LAST || inst == LEN {
        if n >= 1 && s[n - 1] is List {
            let l = s[n - 1]->List_0;
            if inst == LEN {
                Ok(s.push(Val::Int(l.len() as i64)))
            } else if l.len() == 0 {
                Err(Fault::ListEmpty)
            } else if inst == HEAD {
                Ok(s.drop_last().push(Val::List(l.drop_first())).push(l[0]))
            } else {
                Ok(s.drop_last().push(Val::List(l.drop_last())).push(l.last()))
            }
        } else {
            Err(Fault::NotAList)
        }
    } else {
        Ok(s)
    }
}

/// A call of the function bound to `name` in the run's scope: a new frame remembers where to
/// return and the caller's scope; the body runs in the function's own scope.
pub open spec fn call(r: RunM, name: u32, shown: i64, op: u8, at: u32, funcs: Seq<FnModel>) -> Outcome {
    match lookup(r.scope, ID(name)) {
        None => Outcome::Failed(Fault::NotInScope { op, name: shown, at }),
        Some(id) => if id.0 >= funcs.len() {
            Outcome::Failed(Fault::NoSuchFunction { op, at })
        } else if funcs[id.0 as int].ip.0 >= u32::MAX {
            Outcome::Failed(Fault::Overflow)
        } else {
            let e = funcs[id.0 as int];
            Outcome::Next(
                RunM {
                    frames: r.frames.push(
                        FrameM { ret_addr: r.eip, stack: Seq::empty(), env: r.scope },
                    ),
                    eip: (e.ip.0 + 1) as u32,
                    scope: e.env,
                    ..r
                },
                Seq::empty(),
            )
        },
    }
}

/// The instructions on the frame's own stack: `)` moves the top of the main stack there,
/// `(` moves it back, `a` moves all of it back, last in first.
pub open spec fn frame_op(inst: u8, r: RunM) -> Outcome {
    let fr = r.frames.last();
    let k = r.frames.len() - 1;
    if inst == STASH {
        if r.stack.len() == 0 {
            Outcome::Failed(Fault::StackEmpty)
        } else {
            Outcome::Next(
                RunM {
                    stack: r.stack.drop_last(),
                    frames: r.frames.update(k, FrameM { stack: fr.stack.push(r.stack.last()), ..fr }),
                    ..r
                },
                Seq::empty(),
            )
        }
    } else if inst == UNSTASH {
        if fr.stack.len() == 0 {
            Outcome::Failed(Fault::StackEmpty)
        } else {
            Outcome::Next(
                RunM {
                    stack: r.stack.push(fr.stack.last()),
                    frames: r.frames.update(k, FrameM { stack: fr.stack.drop_last(), ..fr }),
                    ..r
                },
                Seq::empty(),
            )
        }
    } else {
        Outcome::Next(
            RunM {
                stack: r.stack + fr.stack.reverse(),
                frames: r.frames.update(k, FrameM { stack: Seq::empty(), ..fr }),
                ..r
            },
            Seq::empty(),
        )
    }
}

/// `}`: return to the caller, whose scope is taken from the frame below; the run ends when
/// no frame is left.
pub open spec fn close(r: RunM) -> Outcome {
    let fr = r.frames.last();
    let fs = r.frames.drop_last();
    if fs.len() > 0 {
        Outcome::Next(RunM { eip: fr.ret_addr, frames: fs, scope: fs.last().env, ..r }, Seq::empty())
    } else {
        Outcome::Done(top(r.stack))
    }
}

/// The instruction at `r.eip`, which is inside the code.
pub open spec fn exec_inst(r: RunM, code: Seq<u8>, funcs: Seq<FnModel>) -> Outcome {
    let at = r.eip;
    let inst = code[at as int];
    let r1 = RunM { eip: (at + 1) as u32, num_state: false, ..r };
    let s = r.stack;
    let n = s.len();
    if inst == INPUT {
        Outcome::Wait
    } else if inst == OPEN {
        match skip_body(code, at + 1, 1) {
            Err(f) => Outcome::Failed(f),
            Ok(e) => Outcome::Next(
                RunM {
                    stack: rest(s),
                    eip: match e {
                        Some(j) => j as u32,
                        None => (at + 1) as u32,
                    },
                    ..r1
                },
                Seq::empty(),
            ),
        }
    } else if inst == CLOSE {
        close(r1)
    } else if DIGIT_0 <= inst <= DIGIT_9 {
        match digit_push(s, inst - 48, r.num_state) {
            Ok(s2) => Outcome::Next(RunM { stack: s2, num_state: true, ..r1 }, Seq::empty()),
            Err(f) => Outcome::Failed(f),
        }
    } else if inst == STASH || inst == UNSTASH || inst == UNSTASH_ALL {
        frame_op(inst, r1)
    } else if inst == OUT_CHAR || inst == OUT_NUM {
        if n == 0 {
            Outcome::Failed(Fault::EmptyAt(at))
        } else {
            Outcome::Next(RunM { stack: s.drop_last(), ..r1 }, render(s.last(), inst == OUT_NUM))
        }
    } else if inst == NEWLINE {
        Outcome::Next(r1, seq!['\n'])
    } else if inst == CALL {
        if n == 0 {
            Outcome::Failed(Fault::EmptyAt(at))
        } else {
            match s.last() {
                Val::Int(c) => call(RunM { stack: s.drop_last(), ..r1 }, c as u32, c, inst, at, funcs),
                Val::List(_) => Outcome::Failed(Fault::ListCall(at)),
            }
        }
    } else if inst == BRANCH {
        if n >= 3 && s[n - 1] is Int && s[n - 2] is Int && s[n - 3] is Int {
            let a = s[n - 1]->Int_0;
            let b = s[n - 2]->Int_0;
            let c = s[n - 3]->Int_0;
            let x = if c == 0 {
                b
            } else {
                a
            };
            call(RunM { stack: s.take(n - 3), ..r1 }, x as u32, c, inst, at, funcs)
        } else {
            Outcome::Failed(Fault::TooFew { need: 3, at })
        }
    } else if inst == MAP {
        if n >= 2 && s[n - 1] is Int && s[n - 2] is List {
            let x = s[n - 1]->Int_0;
            match lookup(r.scope, ID(x as u32)) {
                None => Outcome::Failed(Fault::NotInScope { op: inst, name: x, at }),
                Some(id) => if id.0 >= funcs.len() {
                    Outcome::Failed(Fault::NoSuchFunction { op: inst, at })
                } else if funcs[id.0 as int].ip.0 >= u32::MAX {
                    Outcome::Failed(Fault::Overflow)
                } else {
                    Outcome::ForEach(
                        RunM { stack: s.take(n - 2), ..r1 },
                        (funcs[id.0 as int].ip.0 + 1) as u32,
                        s[n - 2]->List_0,
                    )
                },
            }
        } else {
            Outcome::Failed(Fault::TooFew { need: 2, at })
        }
    } else {
        match stack_op(inst, s, at) {
            Ok(s2) => Outcome::Next(RunM { stack: s2, ..r1 }, Seq::empty()),
            Err(f) => Outcome::Failed(f),
        }
    }
}

/// The numeric text of each value followed by a space.
pub open spec fn trace_items(s: Seq<Val>) -> Seq<char>
    decreases s.len(),
{
    if s.len() == 0 {
        Seq::empty()
    } else {
        trace_items(s.drop_last()) + render(s.last(), true) + seq![' ']
    }
}

/// The trace line printed before an instruction: `eip IP(5). size 2: 1 2 ` and a newline.
pub open spec fn trace(r: RunM) -> Seq<char> {
    seq!['e', 'i', 'p', ' ', 'I', 'P', '('] + decimal(r.eip as int) + seq![
        ')',
        '.',
        ' ',
        's',
        'i',
        'z',
        'e',
        ' ',
    ] + decimal(r.stack.len() as int) + seq![':', ' '] + trace_items(r.stack) + seq!['\n']
}

/// The end of the innermost run with result `res`: the machine halts when it was the only
/// run; otherwise the map that waits for it keeps the result, if any, and runs the function
/// on the next item, or, after the last item, pushes the list of results.
pub open spec fn finish(m: MachineM, res: Option<Val>, global: Seq<(ID, ID)>) -> (MachineM, Act) {
    let runs = m.runs.drop_last();
    if runs.len() == 0 {
        (MachineM { runs, jobs: m.jobs }, Act::Halt(res))
    } else {
        let k = m.jobs.len() - 1;
        let job = m.jobs[k];
        let results = match res {
            Some(v) => job.results.push(v),
            None => job.results,
        };
        if job.next < job.items.len() {
            (
                MachineM {
                    runs: runs.push(new_run(seq![job.items[job.next]], job.entry, global)),
                    jobs: m.jobs.update(k, JobM { next: job.next + 1, results, ..job }),
                },
                Act::Continue,
            )
        } else {
            let parent = runs.last();
            (
                MachineM {
                    runs: runs.update(
                        runs.len() - 1,
                        RunM { stack: parent.stack.push(Val::List(results)), ..parent },
                    ),
                    jobs: m.jobs.drop_last(),
                },
                Act::Continue,
            )
        }
    }
}

/// One step of the machine.
pub open spec fn machine_step(
    m: MachineM,
    code: Seq<u8>,
    funcs: Seq<FnModel>,
    global: Seq<(ID, ID)>,
    debug: bool,
) -> StepM {
    let k = m.runs.len() - 1;
    let r = m.runs[k];
    if r.eip >= code.len() {
        let (n, a) = finish(m, top(r.stack), global);
        StepM { next: n, out: Seq::empty(), act: a }
    } else {
        let out0 = if debug {
            trace(r)
        } else {
            Seq::empty()
        };
        match exec_inst(r, code, funcs) {
            Outcome::Next(r2, out) => StepM {
                next: MachineM { runs: m.runs.update(k, r2), jobs: m.jobs },
                out: out0 + out,
                act: Act::Continue,
            },
            Outcome::Wait => StepM { next: m, out: out0, act: Act::ReadByte },
            Outcome::Done(res) => {
                let (n, a) = finish(m, res, global);
                StepM { next: n, out: out0, act: a }
            },
            Outcome::ForEach(r2, entry, items) => if items.len() == 0 {
                StepM {
                    next: MachineM {
                        runs: m.runs.update(
                            k,
                            RunM { stack: r2.stack.push(Val::List(Seq::empty())), ..r2 },
                        ),
                        jobs: m.jobs,
                    },
                    out: out0,
                    act: Act::Continue,
                }
            } else {
                StepM {
                    next: MachineM {
                        runs: m.runs.update(k, r2).push(new_run(seq![items[0]], entry, global)),
                        jobs: m.jobs.push(
                            JobM { entry, items, next: 1, results: Seq::empty() },
                        ),
                    },
                    out: out0,
                    act: Act::Continue,
                }
            },
            Outcome::Failed(f) => StepM { next: m, out: out0, act: Act::Fail(f) },
        }
    }
}

/// The machine waits for a byte of input: its innermost run is at an `i`.
pub open spec fn waiting(m: MachineM, code: Seq<u8>) -> bool {
    let r = m.runs.last();
    m.runs.len() > 0 && r.eip < code.len() && code[r.eip as int] == INPUT
}

/// The `i` at which the machine waits, given the byte read (or `None` when the input is
/// closed).
pub open spec fn feed_step(m: MachineM, byte: Option<u8>) -> (MachineM, Act) {
    let k = m.runs.len() - 1;
    let r = m.runs[k];
    match byte {
        Some(b) => (
            MachineM {
                runs: m.runs.update(
                    k,
                    RunM {
                        eip: (r.eip + 1) as u32,
                        num_state: false,
                        stack: r.stack.push(Val::Int(b as i64)),
                        ..r
                    },
                ),
                jobs: m.jobs,
            },
            Act::Continue,
        ),
        None => (m, Act::Fail(Fault::StdinClosed(r.eip))),
    }
}

/// The shape of a machine that can step: one map waiting under each run but the innermost,
/// each run with a frame, each map part way through its items.
pub open spec fn machine_wf(m: MachineM) -> bool {
    &&& m.runs.len() == m.jobs.len() + 1
    &&& forall|i: int| 0 <= i < m.runs.len() ==> (#[trigger] m.runs[i]).frames.len() > 0
    &&& forall|k: int|
        0 <= k < m.jobs.len() ==> 1 <= (#[trigger] m.jobs[k]).next <= m.jobs[k].items.len()
}

/// A run that goes on after an instruction still has a frame.
pub proof fn lemma_exec_inst_frames(r: RunM, code: Seq<u8>, funcs: Seq<FnModel>)
    requires
        r.frames.len() > 0,
        r.eip < code.len(),
    ensures
        exec_inst(r, code, funcs) matches Outcome::Next(r2, _) ==> r2.frames.len() > 0,
        exec_inst(r, code, funcs) matches Outcome::ForEach(r2, _, _) ==> r2.frames.len() > 0,
{
}

/// Every step that goes on (or waits for input) leaves the machine well formed, and a step
/// that halts leaves no run.
pub proof fn lemma_step_wf(
    m: MachineM,
    code: Seq<u8>,
    funcs: Seq<FnModel>,
    global: Seq<(ID, ID)>,
    debug: bool,
)
    requires
        machine_wf(m),
    ensures
        ({
            let st = machine_step(m, code, funcs, global, debug);
            &&& (st.act is Continue || st.act is ReadByte) ==> machine_wf(st.next)
            &&& st.act is Halt ==> st.next.runs.len() == 0
        }),
{
    let k = m.runs.len() - 1;
    let r = m.runs[k];
    let st = machine_step(m, code, funcs, global, debug);
    assert(r.frames.len() > 0);
    if r.eip < code.len() {
        lemma_exec_inst_frames(r, code, funcs);
    }
    if st.act is Continue || st.act is ReadByte {
        let n = st.next;
        assert forall|i: int| 0 <= i < n.runs.len() implies (#[trigger] n.runs[i]).frames.len() > 0 by {
            if i < k {
                assert(m.runs[i].frames.len() > 0);
                if r.eip >= code.len() {
                    assert(n.runs[i].frames == m.runs[i].frames);
                } else {
                    match exec_inst(r, code, funcs) {
                        Outcome::Done(res) => {
                            assert(n.runs[i].frames == m.runs[i].frames);
                        },
                        _ => {
                            assert(n.runs[i] == m.runs[i]);
                        },
                    }
                }
            }
        }
        assert forall|j: int| 0 <= j < n.jobs.len() implies 1 <= (#[trigger] n.jobs[j]).next
            <= n.jobs[j].items.len() by {
            if j < m.jobs.len() - 1 {
                assert(n.jobs[j] == m.jobs[j]);
            }
        }
    }
}

} // verus!
