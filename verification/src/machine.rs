use vstd::prelude::*;
use crate::value::{Value, Val, models, lemma_models, lemma_models_push, lemma_models_ext, push_digits};
use crate::program::{IP, ID, Function, Setting};
use crate::semantics::lemma_step_wf;
use crate::collect::fn_models;
use crate::semantics::{
    Fault, FrameM, RunM, JobM, MachineM, Outcome, Act, top, rest, arith, is_binary, binary,
    stack_op, digit_push, skip_body, call, frame_op, close, exec_inst, trace, trace_items,
    finish, machine_step, waiting, feed_step, machine_wf, new_run, OPEN, CLOSE, DIGIT_0, DIGIT_9,
    DROP, STASH, UNSTASH, UNSTASH_ALL, ROTATE, SWAP, DUP, ADD, SUB, MUL, DIV, GT, LT, EQ, INPUT,
    OUT_CHAR, OUT_NUM, CALL, BRANCH, NEW_LIST, APPEND, NEWLINE, HEAD, LAST, LEN, MAP,
};

verus! {

broadcast use vstd::std_specs::vec::group_vec_axioms;

/// A call frame: where to return, the frame's own stack, and the scope of the caller.
#[derive(Debug)]
pub struct Frame<'a> {
    pub ret_addr: IP,
    pub stack: Vec<Value>,
    pub env: &'a Vec<(ID, ID)>,
}

impl<'a> Frame<'a> {
    /// The model of this frame.
    pub open spec fn model(self) -> FrameM {
        FrameM { ret_addr: self.ret_addr.0, stack: models(self.stack@), env: self.env@ }
    }
}

/// The models of a sequence of frames.
pub open spec fn frame_models<'a>(fs: Seq<Frame<'a>>) -> Seq<FrameM> {
    fs.map_values(|f: Frame<'a>| f.model())
}

/// The value of an optional value.
pub open spec fn opt_model(o: Option<Value>) -> Option<Val> {
    match o {
        Some(v) => Some(v.model()),
        None => None,
    }
}

/// Pops the top value.
fn pop_value(v: &mut Vec<Value>) -> (r: Option<Value>)
    ensures
        models(final(v)@) == rest(models(old(v)@)),
        opt_model(r) == top(models(old(v)@)),
        final(v)@ == if old(v)@.len() > 0 {
            old(v)@.drop_last()
        } else {
            old(v)@
        },
        r is Some <==> old(v)@.len() > 0,
{
    proof {
        lemma_models(old(v)@);
    }
    let r = v.pop();
    proof {
        if old(v)@.len() > 0 {
            assert(old(v)@.drop_last() =~= final(v)@);
        }
    }
    r
}

/// Pushes a value.
fn push_value(v: &mut Vec<Value>, x: Value)
    ensures
        models(final(v)@) == models(old(v)@).push(x.model()),
        final(v)@ == old(v)@.push(x),
{
    proof {
        lemma_models_push(old(v)@, x);
    }
    v.push(x);
}

/// An integer operator applied to the top `a` and the value below it `b`.
fn exec_arith(op: u8, a: i64, b: i64) -> (r: Result<i64, Fault>)
    requires
        is_binary(op),
    ensures
        r == arith(op, a, b),
{
    if op == ADD {
        match a.checked_add(b) {
            Some(v) => Ok(v),
            None => Err(Fault::Overflow),
        }
    } else if op == SUB {
        match a.checked_sub(b) {
            Some(v) => Ok(v),
            None => Err(Fault::Overflow),
        }
    } else if op == MUL {
        match a.checked_mul(b) {
            Some(v) => Ok(v),
            None => Err(Fault::Overflow),
        }
    } else if op == DIV {
        if b == 0 {
            return Err(Fault::DivideByZero);
        }
        let ma: u64 = if a < 0 {
            (-(a as i128)) as u64
        } else {
            a as u64
        };
        let mb: u64 = if b < 0 {
            (-(b as i128)) as u64
        } else {
            b as u64
        };
        let q: u64 = ma / mb;
        assert(q <= ma) by (nonlinear_arith)
            requires
                mb >= 1,
                q == ma / mb,
        ;
        if (a < 0) != (b < 0) {
            Ok((-(q as i128)) as i64)
        } else if q <= i64::MAX as u64 {
            Ok(q as i64)
        } else {
            Err(Fault::Overflow)
        }
    } else if op == EQ {
        Ok(if a == b { 1 } else { 0 })
    } else if op == GT {
        Ok(if a > b { 1 } else { 0 })
    } else {
        Ok(if a < b { 1 } else { 0 })
    }
}

/// What an operation on the main stack did, against what it should do.
pub open spec fn stack_matches(r: Result<(), Fault>, after: Seq<Val>, expected: Result<Seq<Val>, Fault>) -> bool {
    match expected {
        Ok(s) => r is Ok && after == s,
        Err(f) => r == Err::<(), Fault>(f),
    }
}

fn exec_binary(op: u8, stack: &mut Vec<Value>, at: u32) -> (r: Result<(), Fault>)
    requires
        is_binary(op),
    ensures
        stack_matches(r, models(final(stack)@), binary(op, models(old(stack)@), at)),
{
    let ghost s = models(stack@);
    proof {
        lemma_models(stack@);
    }
    if stack.len() < 2 {
        return Err(Fault::TooFew { need: 2, at });
    }
    let a = pop_value(stack).unwrap();
    let b = pop_value(stack).unwrap();
    assert(models(stack@) =~= s.take(s.len() - 2));
    match (a, b) {
        (Value::Int(x), Value::Int(y)) => {
            match exec_arith(op, x, y) {
                Ok(v) => {
                    push_value(stack, Value::Int(v));
                    Ok(())
                },
                Err(f) => Err(f),
            }
        },
        (Value::List(mut x), Value::List(y)) => {
            if op == ADD {
                let ghost xs = x@;
                let mut y = y;
                let ghost ys = y@;
                x.append(&mut y);
                proof {
                    lemma_models(xs);
                    lemma_models(ys);
                    lemma_models(x@);
                    assert(models(x@) =~= models(xs) + models(ys));
                }
                push_value(stack, Value::List(x));
                Ok(())
            } else {
                Err(Fault::ListOp { op, at })
            }
        },
        _ => Err(Fault::TypeMismatch),
    }
}

fn exec_rotate(stack: &mut Vec<Value>, at: u32) -> (r: Result<(), Fault>)
    ensures
        stack_matches(r, models(final(stack)@), stack_op(ROTATE, models(old(stack)@), at)),
{
    let ghost s = models(stack@);
    proof {
        lemma_models(stack@);
    }
    if stack.len() < 3 {
        return Err(Fault::TooFew { need: 3, at });
    }
    let a = pop_value(stack).unwrap();
    let b = pop_value(stack).unwrap();
    let c = pop_value(stack).unwrap();
    assert(models(stack@) =~= s.take(s.len() - 3));
    push_value(stack, a);
    push_value(stack, c);
    push_value(stack, b);
    let ghost n = s.len();
    assert(models(stack@) =~= s.take(n - 3) + seq![s[n - 1], s[n - 3], s[n - 2]]);
    Ok(())
}

fn exec_swap(stack: &mut Vec<Value>, at: u32) -> (r: Result<(), Fault>)
    ensures
        stack_matches(r, models(final(stack)@), stack_op(SWAP, models(old(stack)@), at)),
{
    let ghost s = models(stack@);
    proof {
        lemma_models(stack@);
    }
    if stack.len() < 2 {
        return Err(Fault::TooFew { need: 2, at });
    }
    let a = pop_value(stack).unwrap();
    let b = pop_value(stack).unwrap();
    assert(models(stack@) =~= s.take(s.len() - 2));
    push_value(stack, a);
    push_value(stack, b);
    let ghost n = s.len();
    assert(models(stack@) =~= s.take(n - 2) + seq![s[n - 1], s[n - 2]]);
    Ok(())
}

fn exec_dup(stack: &mut Vec<Value>, at: u32) -> (r: Result<(), Fault>)
    ensures
        stack_matches(r, models(final(stack)@), stack_op(DUP, models(old(stack)@), at)),
{
    let ghost s = models(stack@);
    proof {
        lemma_models(stack@);
    }
    match pop_value(stack) {
        Some(v) => {
            let w = v.clone();
            push_value(stack, v);
            push_value(stack, w);
            assert(models(stack@) =~= s.push(s[s.len() - 1]));
            Ok(())
        },
        None => Err(Fault::Empty),
    }
}

fn exec_append(stack: &mut Vec<Value>, at: u32) -> (r: Result<(), Fault>)
    ensures
        stack_matches(r, models(final(stack)@), stack_op(APPEND, models(old(stack)@), at)),
{
    let ghost s = models(stack@);
    proof {
        lemma_models(stack@);
    }
    if stack.len() < 2 {
        return Err(Fault::TooFew { need: 2, at });
    }
    let a = pop_value(stack).unwrap();
    let b = pop_value(stack).unwrap();
    assert(models(stack@) =~= s.take(s.len() - 2));
    match b {
        Value::List(mut l) => {
            let ghost l0 = l@;
            l.push(a);
            proof {
                lemma_models_push(l0, a);
            }
            push_value(stack, Value::List(l));
            Ok(())
        },
        _ => Err(Fault::TooFew { need: 2, at }),
    }
}

fn exec_list_access(inst: u8, stack: &mut Vec<Value>, at: u32) -> (r: Result<(), Fault>)
    requires
        inst == HEAD || inst == LAST || inst == LEN,
    ensures
        stack_matches(r, models(final(stack)@), stack_op(inst, models(old(stack)@), at)),
{
    let ghost s = models(stack@);
    proof {
        lemma_models(stack@);
    }
    match pop_value(stack) {
        Some(Value::List(mut l)) => {
            let ghost l0 = l@;
            proof {
                lemma_models(l0);
            }
            if inst == LEN {
                let len = l.len();
                push_value(stack, Value::List(l));
                push_value(stack, Value::Int(len as i64));
                assert(models(stack@) =~= s.push(Val::Int(models(l0).len() as i64)));
                Ok(())
            } else if l.len() == 0 {
                Err(Fault::ListEmpty)
            } else if inst == HEAD {
                let v = l[0].clone();
                l.remove(0);
                proof {
                    lemma_models(l@);
                    assert(models(l@) =~= models(l0).drop_first());
                }
                push_value(stack, Value::List(l));
                push_value(stack, v);
                Ok(())
            } else {
                let v = l.pop().unwrap();
                proof {
                    lemma_models(l@);
                    assert(models(l@) =~= models(l0).drop_last());
                }
                push_value(stack, Value::List(l));
                push_value(stack, v);
                Ok(())
            }
        },
        _ => Err(Fault::NotAList),
    }
}

/// The instructions that only work on the main stack.
fn exec_stack_op(inst: u8, stack: &mut Vec<Value>, at: u32) -> (r: Result<(), Fault>)
    ensures
        stack_matches(r, models(final(stack)@), stack_op(inst, models(old(stack)@), at)),
{
    if inst == DROP {
        pop_value(stack);
        Ok(())
    } else if inst == ROTATE {
        exec_rotate(stack, at)
    } else if inst == SWAP {
        exec_swap(stack, at)
    } else if inst == DUP {
        exec_dup(stack, at)
    } else if inst == ADD || inst == SUB || inst == MUL || inst == DIV || inst == GT || inst == LT
        || inst == EQ {
        exec_binary(inst, stack, at)
    } else if inst == NEW_LIST {
        proof {
            lemma_models_ext(Seq::<Value>::empty(), Seq::<Val>::empty());
        }
        push_value(stack, Value::List(Vec::new()));
        Ok(())
    } else if inst == APPEND {
        exec_append(stack, at)
    } else if inst == HEAD || inst == LAST || inst == LEN {
        exec_list_access(inst, stack, at)
    } else {
        Ok(())
    }
}

/// One run of the interpreter: the instruction pointer, the call frames, the main stack,
/// whether the previous instruction was a digit, and the current scope.
#[derive(Debug)]
pub struct Run<'a> {
    pub eip: IP,
    pub frames: Vec<Frame<'a>>,
    pub stack: Vec<Value>,
    pub num_state: bool,
    pub scope: &'a Vec<(ID, ID)>,
}

impl<'a> Run<'a> {
    /// The model of this run.
    pub open spec fn model(self) -> RunM {
        RunM {
            eip: self.eip.0,
            frames: frame_models(self.frames@),
            stack: models(self.stack@),
            num_state: self.num_state,
            scope: self.scope@,
        }
    }

    /// A run of the code from `entry_point` on `stack`, in the outermost scope, with one frame
    /// that returns nowhere.
    pub fn new(global: &'a Vec<(ID, ID)>, stack: Vec<Value>, entry_point: IP) -> (r: Run<'a>)
        ensures
            r.model() == new_run(models(stack@), entry_point.0, global@),
    {
        let mut frames: Vec<Frame<'a>> = Vec::new();
        frames.push(Frame { ret_addr: IP(u32::MAX), stack: Vec::new(), env: global });
        let r = Run { eip: entry_point, frames, stack, num_state: false, scope: global };
        proof {
            lemma_models_ext(Seq::<Value>::empty(), Seq::<Val>::empty());
            assert(frame_models(r.frames@) =~= new_run(models(stack@), entry_point.0, global@).frames);
        }
        r
    }
}

/// What one instruction did to a run (see [`Outcome`]).
enum Flow {
    Next(Vec<char>),
    Wait,
    Done(Option<Value>),
    ForEach(IP, Vec<Value>),
    Failed(Fault),
}

/// The instruction did what the semantics says, leaving the run in `after`.
spec fn flow_matches(f: Flow, after: RunM, o: Outcome) -> bool {
    match o {
        Outcome::Next(r2, out) => f matches Flow::Next(t) && t@ == out && after == r2,
        Outcome::Wait => f is Wait,
        Outcome::Done(v) => f matches Flow::Done(x) && opt_model(x) == v,
        Outcome::ForEach(r2, e, items) => f matches Flow::ForEach(ip, xs) && ip.0 == e && models(
            xs@,
        ) == items && after == r2,
        Outcome::Failed(fault) => f matches Flow::Failed(g) && g == fault,
    }
}

/// Finds the end of the body whose brace is just before `from`.
fn exec_skip(code: &[u8], from: usize) -> (r: Result<Option<usize>, Fault>)
    requires
        from <= code@.len(),
    ensures
        match r {
            Ok(Some(j)) => skip_body(code@, from as int, 1) == Ok::<Option<int>, Fault>(
                Some(j as int),
            ),
            Ok(None) => skip_body(code@, from as int, 1) == Ok::<Option<int>, Fault>(None),
            Err(f) => skip_body(code@, from as int, 1) == Err::<Option<int>, Fault>(f),
        },
{
    let mut level: i32 = 1;
    let mut j: usize = from;
    while j < code.len()
        invariant
            from <= j <= code@.len(),
            1 <= level,
            skip_body(code@, from as int, 1) == skip_body(code@, j as int, level as int),
        decreases code.len() - j,
    {
        let c = code[j];
        if c == OPEN {
            if level == i32::MAX {
                return Err(Fault::Overflow);
            }
            level += 1;
        } else if c == CLOSE {
            level -= 1;
            if level == 0 {
                return Ok(Some(j + 1));
            }
        }
        j = j + 1;
    }
    Ok(None)
}

/// A digit: starts a number, or extends the number on top.
fn exec_digit(stack: &mut Vec<Value>, d: i64, continues: bool) -> (r: Result<(), Fault>)
    requires
        0 <= d <= 9,
    ensures
        stack_matches(r, models(final(stack)@), digit_push(models(old(stack)@), d as int, continues)),
{
    let ghost s = models(stack@);
    if !continues {
        push_value(stack, Value::Int(d));
        return Ok(());
    }
    match pop_value(stack) {
        Some(Value::Int(x)) => match x.checked_mul(10) {
            Some(y) => match y.checked_add(d) {
                Some(v) => {
                    push_value(stack, Value::Int(v));
                    Ok(())
                },
                None => Err(Fault::Overflow),
            },
            None => Err(Fault::Overflow),
        },
        _ => Err(Fault::NotANumber),
    }
}

/// `)`, `(` and `a`: moves between the main stack and the frame's own stack.
fn exec_frame_op(inst: u8, run: &mut Run) -> (r: Result<(), Fault>)
    requires
        inst == STASH || inst == UNSTASH || inst == UNSTASH_ALL,
        old(run).frames@.len() > 0,
    ensures
        match frame_op(inst, old(run).model()) {
            Outcome::Next(r2, out) => r is Ok && final(run).model() == r2 && out.len() == 0,
            Outcome::Failed(f) => r == Err::<(), Fault>(f),
            _ => false,
        },
{
    let ghost r0 = run.model();
    let ghost fs0 = run.frames@;
    let mut fr = run.frames.pop().unwrap();
    let ghost f0 = fr.model();
    proof {
        assert(fs0.last() == fr);
        assert(r0.frames.last() == f0);
        lemma_models(fr.stack@);
        lemma_models(run.stack@);
    }
    let result: Result<(), Fault>;
    if inst == STASH {
        match pop_value(&mut run.stack) {
            Some(x) => {
                push_value(&mut fr.stack, x);
                result = Ok(());
            },
            None => {
                result = Err(Fault::StackEmpty);
            },
        }
    } else if inst == UNSTASH {
        match pop_value(&mut fr.stack) {
            Some(x) => {
                push_value(&mut run.stack, x);
                result = Ok(());
            },
            None => {
                result = Err(Fault::StackEmpty);
            },
        }
    } else {
        let ghost m = f0.stack.len();
        let ghost s0 = models(run.stack@);
        proof {
            assert(f0.stack.take(m as int) =~= f0.stack);
            assert(s0 + f0.stack.reverse().take(0) =~= s0);
        }
        while fr.stack.len() > 0
            invariant
                models(fr.stack@) == f0.stack.take(fr.stack@.len() as int),
                fr.stack@.len() <= m,
                m == f0.stack.len(),
                models(run.stack@) == s0 + f0.stack.reverse().take(m - fr.stack@.len()),
                fr.ret_addr.0 == f0.ret_addr,
                fr.env@ == f0.env,
                fs0.len() > 0,
                run.frames@ == fs0.drop_last(),
                run.eip.0 == r0.eip,
                run.num_state == r0.num_state,
                run.scope@ == r0.scope,
            decreases fr.stack.len(),
        {
            let ghost k = fr.stack@.len();
            let x = pop_value(&mut fr.stack).unwrap();
            push_value(&mut run.stack, x);
            proof {
                assert(f0.stack.take(k as int).drop_last() =~= f0.stack.take(k - 1));
                assert(f0.stack.reverse()[m - k] == f0.stack[k - 1]);
                assert(s0 + f0.stack.reverse().take(m - k + 1) =~= (s0 + f0.stack.reverse().take(
                    m - k,
                )).push(f0.stack[k - 1]));
            }
        }
        proof {
            assert(models(fr.stack@) =~= Seq::<Val>::empty());
            assert(f0.stack.reverse().take(m as int) =~= f0.stack.reverse());
        }
        result = Ok(());
    }
    let ghost fm = fr.model();
    run.frames.push(fr);
    proof {
        let k = r0.frames.len() - 1;
        assert(run.frames@ =~= fs0.update(k, fr));
        assert forall|i: int| 0 <= i < run.frames@.len() implies #[trigger] frame_models(
            run.frames@,
        )[i] == r0.frames.update(k, fm)[i] by {
            if i < k {
                assert(run.frames@[i] == fs0[i]);
            }
        }
        assert(frame_models(run.frames@) =~= r0.frames.update(k, fm));
    }
    result
}

/// `}`: returns to the caller.
fn exec_close(run: &mut Run) -> (f: Flow)
    requires
        old(run).frames@.len() > 0,
    ensures
        flow_matches(f, final(run).model(), close(old(run).model())),
{
    let ghost r0 = run.model();
    let ghost fs0 = run.frames@;
    let fr = run.frames.pop().unwrap();
    proof {
        assert(fs0.last() == fr);
        assert(frame_models(run.frames@) =~= r0.frames.drop_last());
    }
    run.eip = fr.ret_addr;
    let n = run.frames.len();
    if n > 0 {
        run.scope = run.frames[n - 1].env;
        proof {
            assert(frame_models(run.frames@)[n - 1] == run.frames@[n - 1].model());
        }
        Flow::Next(Vec::new())
    } else {
        let v = pop_value(&mut run.stack);
        Flow::Done(v)
    }
}

/// A call of the function bound to `name` in the run's scope.
fn exec_call<'a>(
    run: &mut Run<'a>,
    name: u32,
    shown: i64,
    op: u8,
    at: u32,
    functions: &'a Vec<Function>,
) -> (f: Flow)
    ensures
        flow_matches(
            f,
            final(run).model(),
            call(old(run).model(), name, shown, op, at, fn_models(functions@)),
        ),
{
    match Function::search_by_id(run.scope, &ID(name)) {
        None => Flow::Failed(Fault::NotInScope { op, name: shown, at }),
        Some(id) => {
            let k = id.0 as usize;
            if k >= functions.len() {
                return Flow::Failed(Fault::NoSuchFunction { op, at });
            }
            let entry: &'a Function = &functions[k];
            proof {
                assert(fn_models(functions@)[k as int] == entry.model());
            }
            if entry.ip.0 == u32::MAX {
                return Flow::Failed(Fault::Overflow);
            }
            let ghost r0 = run.model();
            run.frames.push(Frame { ret_addr: run.eip, stack: Vec::new(), env: run.scope });
            let mut e = entry.ip;
            e.next();
            run.eip = e;
            run.scope = &entry.env;
            proof {
                lemma_models_ext(Seq::<Value>::empty(), Seq::<Val>::empty());
                assert(frame_models(run.frames@) =~= r0.frames.push(
                    FrameM { ret_addr: r0.eip, stack: Seq::empty(), env: r0.scope },
                ));
            }
            Flow::Next(Vec::new())
        },
    }
}

/// `b`: calls the top function name, or the one below it when the third value is zero.
fn exec_branch<'a>(run: &mut Run<'a>, at: u32, functions: &'a Vec<Function>) -> (f: Flow)
    ensures
        ({
            let r = old(run).model();
            let s = r.stack;
            let n = s.len();
            if n >= 3 && s[n - 1] is Int && s[n - 2] is Int && s[n - 3] is Int {
                let a = s[n - 1]->Int_0;
                let b = s[n - 2]->Int_0;
                let c = s[n - 3]->Int_0;
                let x = if c == 0 {
                    b
                } else {
                    a
                };
                flow_matches(
                    f,
                    final(run).model(),
                    call(
                        RunM { stack: s.take(n - 3), ..r },
                        x as u32,
                        c,
                        BRANCH,
                        at,
                        fn_models(functions@),
                    ),
                )
            } else {
                f matches Flow::Failed(g) && g == Fault::TooFew { need: 3, at }
            }
        }),
{
    let ghost s = models(run.stack@);
    proof {
        lemma_models(run.stack@);
    }
    if run.stack.len() < 3 {
        return Flow::Failed(Fault::TooFew { need: 3, at });
    }
    let a = pop_value(&mut run.stack).unwrap();
    let b = pop_value(&mut run.stack).unwrap();
    let c = pop_value(&mut run.stack).unwrap();
    assert(models(run.stack@) =~= s.take(s.len() - 3));
    match (a, b, c) {
        (Value::Int(a), Value::Int(b), Value::Int(c)) => {
            let x = if c == 0 {
                b
            } else {
                a
            };
            exec_call(run, x as u32, c, BRANCH, at, functions)
        },
        _ => Flow::Failed(Fault::TooFew { need: 3, at }),
    }
}

/// `f`: the function named on top, to be run on each item of the list below it.
fn exec_map<'a>(run: &mut Run<'a>, at: u32, functions: &'a Vec<Function>) -> (f: Flow)
    ensures
        ({
            let r = old(run).model();
            let s = r.stack;
            let n = s.len();
            let funcs = fn_models(functions@);
            if n >= 2 && s[n - 1] is Int && s[n - 2] is List {
                let x = s[n - 1]->Int_0;
                match crate::program::lookup(r.scope, ID(x as u32)) {
                    None => f matches Flow::Failed(g) && g == Fault::NotInScope {
                        op: MAP,
                        name: x,
                        at,
                    },
                    Some(id) => if id.0 >= funcs.len() {
                        f matches Flow::Failed(g) && g == Fault::NoSuchFunction { op: MAP, at }
                    } else if funcs[id.0 as int].ip.0 >= u32::MAX {
                        f matches Flow::Failed(g) && g == Fault::Overflow
                    } else {
                        f matches Flow::ForEach(ip, xs) && ip.0 == funcs[id.0 as int].ip.0 + 1
                            && models(xs@) == s[n - 2]->List_0 && final(run).model() == RunM {
                            stack: s.take(n - 2),
                            ..r
                        }
                    },
                }
            } else {
                f matches Flow::Failed(g) && g == Fault::TooFew { need: 2, at }
            }
        }),
{
    let ghost s = models(run.stack@);
    proof {
        lemma_models(run.stack@);
    }
    if run.stack.len() < 2 {
        return Flow::Failed(Fault::TooFew { need: 2, at });
    }
    let a = pop_value(&mut run.stack).unwrap();
    let b = pop_value(&mut run.stack).unwrap();
    assert(models(run.stack@) =~= s.take(s.len() - 2));
    match (a, b) {
        (Value::Int(x), Value::List(items)) => {
            match Function::search_by_id(run.scope, &ID(x as u32)) {
                None => Flow::Failed(Fault::NotInScope { op: MAP, name: x, at }),
                Some(id) => {
                    let k = id.0 as usize;
                    if k >= functions.len() {
                        return Flow::Failed(Fault::NoSuchFunction { op: MAP, at });
                    }
                    let entry = &functions[k];
                    proof {
                        assert(fn_models(functions@)[k as int] == entry.model());
                    }
                    if entry.ip.0 == u32::MAX {
                        return Flow::Failed(Fault::Overflow);
                    }
                    let mut e = entry.ip;
                    e.next();
                    Flow::ForEach(e, items)
                },
            }
        },
        _ => Flow::Failed(Fault::TooFew { need: 2, at }),
    }
}

/// Carries out the instruction at the run's position.
fn exec_instruction<'a>(run: &mut Run<'a>, code: &[u8], functions: &'a Vec<Function>) -> (f: Flow)
    requires
        old(run).eip.0 < code@.len(),
        code@.len() < u32::MAX,
        old(run).frames@.len() > 0,
    ensures
        flow_matches(f, final(run).model(), exec_inst(old(run).model(), code@, fn_models(functions@))),
        f is Wait ==> final(run).model() == old(run).model(),
{
    let at = run.eip.0;
    let inst = code[at as usize];
    if inst == INPUT {
        return Flow::Wait;
    }
    let continues = run.num_state;
    run.num_state = false;
    run.eip.next();
    if inst == OPEN {
        match exec_skip(code, at as usize + 1) {
            Err(f) => Flow::Failed(f),
            Ok(e) => {
                pop_value(&mut run.stack);
                match e {
                    Some(j) => {
                        run.eip = IP(j as u32);
                    },
                    None => {},
                }
                Flow::Next(Vec::new())
            },
        }
    } else if inst == CLOSE {
        exec_close(run)
    } else if DIGIT_0 <= inst && inst <= DIGIT_9 {
        match exec_digit(&mut run.stack, (inst - 48) as i64, continues) {
            Ok(()) => {
                run.num_state = true;
                Flow::Next(Vec::new())
            },
            Err(f) => Flow::Failed(f),
        }
    } else if inst == STASH || inst == UNSTASH || inst == UNSTASH_ALL {
        match exec_frame_op(inst, run) {
            Ok(()) => Flow::Next(Vec::new()),
            Err(f) => Flow::Failed(f),
        }
    } else if inst == OUT_CHAR || inst == OUT_NUM {
        match pop_value(&mut run.stack) {
            Some(v) => {
                let t = if inst == OUT_NUM {
                    v.print_val()
                } else {
                    v.print()
                };
                Flow::Next(t)
            },
            None => Flow::Failed(Fault::EmptyAt(at)),
        }
    } else if inst == NEWLINE {
        let mut t: Vec<char> = Vec::new();
        t.push('\n');
        assert(t@ =~= seq!['\n']);
        Flow::Next(t)
    } else if inst == CALL {
        match pop_value(&mut run.stack) {
            Some(Value::Int(c)) => exec_call(run, c as u32, c, CALL, at, functions),
            Some(Value::List(_)) => Flow::Failed(Fault::ListCall(at)),
            None => Flow::Failed(Fault::EmptyAt(at)),
        }
    } else if inst == BRANCH {
        exec_branch(run, at, functions)
    } else if inst == MAP {
        exec_map(run, at, functions)
    } else {
        match exec_stack_op(inst, &mut run.stack, at) {
            Ok(()) => Flow::Next(Vec::new()),
            Err(f) => Flow::Failed(f),
        }
    }
}

/// A map (`f`) in progress: where the function starts, the items, the index of the next item
/// to run, and the results so far.
#[derive(Debug)]
pub struct MapJob {
    pub entry: IP,
    pub items: Vec<Value>,
    pub next: usize,
    pub results: Vec<Value>,
}

impl MapJob {
    /// The model of this map in progress.
    pub open spec fn model(self) -> JobM {
        JobM {
            entry: self.entry.0,
            items: models(self.items@),
            next: self.next as int,
            results: models(self.results@),
        }
    }
}

/// The models of a sequence of runs.
pub open spec fn run_models<'a>(rs: Seq<Run<'a>>) -> Seq<RunM> {
    rs.map_values(|r: Run<'a>| r.model())
}

/// The models of a sequence of maps in progress.
pub open spec fn job_models(js: Seq<MapJob>) -> Seq<JobM> {
    js.map_values(|j: MapJob| j.model())
}

/// What the driver of the machine is asked to do after a step.
#[derive(Debug)]
pub enum Action {
    /// Step again.
    Continue,
    /// Read one byte of input and hand it to [`Machine::input`].
    ReadByte,
    /// The run is over, with this result.
    Halt(Option<Value>),
    /// The interpreter panics for this reason.
    Fail(Fault),
}

/// The model of an action.
pub open spec fn act_model(a: Action) -> Act {
    match a {
        Action::Continue => Act::Continue,
        Action::ReadByte => Act::ReadByte,
        Action::Halt(v) => Act::Halt(opt_model(v)),
        Action::Fail(f) => Act::Fail(f),
    }
}

/// The trace line printed before an instruction.
fn exec_trace(run: &Run) -> (t: Vec<char>)
    ensures
        t@ == trace(run.model()),
{
    let mut t: Vec<char> = Vec::new();
    t.push('e');
    t.push('i');
    t.push('p');
    t.push(' ');
    t.push('I');
    t.push('P');
    t.push('(');
    push_digits(run.eip.0 as u64, &mut t);
    t.push(')');
    t.push('.');
    t.push(' ');
    t.push('s');
    t.push('i');
    t.push('z');
    t.push('e');
    t.push(' ');
    push_digits(run.stack.len() as u64, &mut t);
    t.push(':');
    t.push(' ');
    let ghost start = t@;
    let ghost ms = models(run.stack@);
    proof {
        lemma_models(run.stack@);
        assert(ms.take(0) =~= Seq::<Val>::empty());
    }
    let mut i: usize = 0;
    while i < run.stack.len()
        invariant
            i <= run.stack@.len(),
            ms == models(run.stack@),
            ms.len() == run.stack@.len(),
            forall|j: int| 0 <= j < run.stack@.len() ==> #[trigger] ms[j] == run.stack@[j].model(),
            t@ == start + trace_items(ms.take(i as int)),
        decreases run.stack.len() - i,
    {
        run.stack[i].print_inner(true, &mut t);
        t.push(' ');
        proof {
            assert(ms.take(i + 1).drop_last() =~= ms.take(i as int));
            assert(ms.take(i + 1).last() == run.stack@[i as int].model());
        }
        i = i + 1;
        assert(t@ =~= start + trace_items(ms.take(i as int)));
    }
    t.push('\n');
    proof {
        assert(ms.take(i as int) =~= ms);
        assert(t@ =~= trace(run.model()));
    }
    t
}

/// The interpreter: the runs under way, innermost last, and the maps waiting for them.
#[derive(Debug)]
pub struct Machine<'a> {
    pub runs: Vec<Run<'a>>,
    pub jobs: Vec<MapJob>,
}

impl<'a> Machine<'a> {
    /// The model of this machine.
    pub open spec fn model(self) -> MachineM {
        MachineM { runs: run_models(self.runs@), jobs: job_models(self.jobs@) }
    }

    /// A machine that runs the code from `entry_point` on `stack`, in the outermost scope.
    pub fn new(global: &'a Vec<(ID, ID)>, stack: Vec<Value>, entry_point: IP) -> (m: Machine<'a>)
        ensures
            m.model() == (MachineM {
                runs: seq![new_run(models(stack@), entry_point.0, global@)],
                jobs: Seq::empty(),
            }),
            machine_wf(m.model()),
    {
        let ghost st = models(stack@);
        let run = Run::new(global, stack, entry_point);
        let mut runs: Vec<Run<'a>> = Vec::new();
        runs.push(run);
        let m = Machine { runs, jobs: Vec::new() };
        proof {
            assert(run_models(m.runs@) =~= seq![new_run(st, entry_point.0, global@)]);
            assert(job_models(m.jobs@) =~= Seq::<JobM>::empty());
        }
        m
    }

    /// Ends the innermost run (already taken off) with `res`.
    fn finish_run(&mut self, res: Option<Value>, global: &'a Vec<(ID, ID)>, Ghost(m): Ghost<MachineM>) -> (act: Action)
        requires
            machine_wf(m),
            run_models(old(self).runs@) == m.runs.drop_last(),
            job_models(old(self).jobs@) == m.jobs,
        ensures
            (final(self).model(), act_model(act)) == finish(m, opt_model(res), global@),
    {
        if self.runs.len() == 0 {
            proof {
                assert(run_models(self.runs@) =~= m.runs.drop_last());
                assert(job_models(self.jobs@) =~= m.jobs);
            }
            return Action::Halt(res);
        }
        proof {
            assert(run_models(self.runs@).len() == self.runs@.len());
            assert(job_models(self.jobs@).len() == self.jobs@.len());
        }
        let ghost k = m.jobs.len() - 1;
        let ghost js0 = self.jobs@;
        let ghost rs0 = self.runs@;
        let mut job = self.jobs.pop().unwrap();
        proof {
            assert(job_models(js0)[k] == job.model());
            assert(job.model() == m.jobs[k]);
            lemma_models(job.items@);
        }
        let ghost res_model = opt_model(res);
        match res {
            Some(v) => push_value(&mut job.results, v),
            None => {},
        }
        if job.next < job.items.len() {
            let item = job.items[job.next].clone();
            job.next = job.next + 1;
            let entry = job.entry;
            let ghost jm = job.model();
            self.jobs.push(job);
            let mut st: Vec<Value> = Vec::new();
            st.push(item);
            let ghost stm = models(st@);
            proof {
                lemma_models_ext(st@, seq![m.jobs[k].items[m.jobs[k].next]]);
            }
            let run = Run::new(global, st, entry);
            self.runs.push(run);
            proof {
                assert(job_models(self.jobs@) =~= m.jobs.update(k, jm));
                assert(run_models(self.runs@) =~= m.runs.drop_last().push(run.model()));
            }
        } else {
            let ghost rk = self.runs@.len() - 1;
            let mut parent = self.runs.pop().unwrap();
            proof {
                assert(run_models(rs0)[rk] == parent.model());
            }
            push_value(&mut parent.stack, Value::List(job.results));
            let ghost pm = parent.model();
            self.runs.push(parent);
            proof {
                assert(job_models(self.jobs@) =~= m.jobs.drop_last());
                assert(run_models(self.runs@) =~= m.runs.drop_last().update(rk, pm));
            }
        }
        Action::Continue
    }

    /// One step of the interpreter (see [`machine_step`]): the text to print, and what to do
    /// next.
    pub fn step(
        &mut self,
        code: &[u8],
        functions: &'a Vec<Function>,
        global: &'a Vec<(ID, ID)>,
        setting: &Setting,
    ) -> (r: (Vec<char>, Action))
        requires
            machine_wf(old(self).model()),
            code@.len() < u32::MAX,
        ensures
            ({
                let st = machine_step(
                    old(self).model(),
                    code@,
                    fn_models(functions@),
                    global@,
                    setting.debug,
                );
                &&& r.0@ == st.out
                &&& act_model(r.1) == st.act
                &&& !(r.1 is Fail) ==> final(self).model() == st.next
                &&& (r.1 is Continue || r.1 is ReadByte) ==> machine_wf(final(self).model())
                &&& r.1 is Halt ==> final(self).model().runs.len() == 0
            }),
    {
        let ghost m = self.model();
        let ghost funcs = fn_models(functions@);
        proof {
            lemma_step_wf(m, code@, funcs, global@, setting.debug);
        }
        let ghost k = m.runs.len() - 1;
        let ghost rs0 = self.runs@;
        let mut run = self.runs.pop().unwrap();
        proof {
            assert(run_models(rs0)[k] == run.model());
            assert(run_models(self.runs@) =~= m.runs.drop_last());
            assert(run.frames@.len() > 0) by {
                assert(m.runs[k].frames.len() > 0);
            }
        }
        if run.eip.to_usize() >= code.len() {
            let res = pop_value(&mut run.stack);
            let act = self.finish_run(res, global, Ghost(m));
            return (Vec::new(), act);
        }
        let mut out: Vec<char> = if setting.debug {
            exec_trace(&run)
        } else {
            Vec::new()
        };
        let ghost r0 = run.model();
        let flow = exec_instruction(&mut run, code, functions);
        match flow {
            Flow::Next(mut t) => {
                out.append(&mut t);
                let ghost rm = run.model();
                self.runs.push(run);
                proof {
                    assert(run_models(self.runs@) =~= m.runs.update(k, rm));
                }
                (out, Action::Continue)
            },
            Flow::Wait => {
                self.runs.push(run);
                proof {
                    assert(run_models(self.runs@) =~= m.runs);
                }
                (out, Action::ReadByte)
            },
            Flow::Done(res) => {
                let act = self.finish_run(res, global, Ghost(m));
                (out, act)
            },
            Flow::ForEach(entry, items) => {
                if items.len() == 0 {
                    proof {
                        lemma_models_ext(Seq::<Value>::empty(), Seq::<Val>::empty());
                    }
                    push_value(&mut run.stack, Value::List(Vec::new()));
                    let ghost rm = run.model();
                    self.runs.push(run);
                    proof {
                        lemma_models(items@);
                        assert(run_models(self.runs@) =~= m.runs.update(k, rm));
                    }
                } else {
                    let ghost rm = run.model();
                    self.runs.push(run);
                    proof {
                        lemma_models(items@);
                    }
                    let first = items[0].clone();
                    let mut st: Vec<Value> = Vec::new();
                    st.push(first);
                    proof {
                        lemma_models_ext(st@, seq![models(items@)[0]]);
                    }
                    let job = MapJob { entry, items, next: 1, results: Vec::new() };
                    proof {
                        lemma_models_ext(Seq::<Value>::empty(), Seq::<Val>::empty());
                    }
                    let ghost jm = job.model();
                    self.jobs.push(job);
                    let nr = Run::new(global, st, entry);
                    let ghost nm = nr.model();
                    self.runs.push(nr);
                    proof {
                        assert(run_models(self.runs@) =~= m.runs.update(k, rm).push(nm));
                        assert(job_models(self.jobs@) =~= m.jobs.push(jm));
                    }
                }
                (out, Action::Continue)
            },
            Flow::Failed(f) => {
                self.runs.push(run);
                (out, Action::Fail(f))
            },
        }
    }

    /// Whether the machine waits for a byte of input (its innermost run is at an `i`).
    pub fn awaits_input(&self, code: &[u8]) -> (b: bool)
        ensures
            b == waiting(self.model(), code@),
    {
        let n = self.runs.len();
        if n == 0 {
            return false;
        }
        let run = &self.runs[n - 1];
        proof {
            assert(run_models(self.runs@)[n - 1] == run.model());
        }
        run.eip.to_usize() < code.len() && code[run.eip.to_usize()] == INPUT
    }

    /// Carries out the `i` at which the machine waits, with the byte read, or `None` when the
    /// input is closed.
    pub fn input(&mut self, code: &[u8], byte: Option<u8>) -> (act: Action)
        requires
            machine_wf(old(self).model()),
            waiting(old(self).model(), code@),
            code@.len() < u32::MAX,
        ensures
            ({
                let (n, a) = feed_step(old(self).model(), byte);
                &&& act_model(act) == a
                &&& !(act is Fail) ==> final(self).model() == n
                &&& act is Continue ==> machine_wf(final(self).model())
            }),
    {
        let ghost m = self.model();
        let ghost k = m.runs.len() - 1;
        let ghost rs0 = self.runs@;
        let mut run = self.runs.pop().unwrap();
        proof {
            assert(run_models(rs0)[k] == run.model());
        }
        let at = run.eip.0;
        let act = match byte {
            Some(b) => {
                run.eip.next();
                run.num_state = false;
                push_value(&mut run.stack, Value::Int(b as i64));
                Action::Continue
            },
            None => Action::Fail(Fault::StdinClosed(at)),
        };
        let ghost rm = run.model();
        self.runs.push(run);
        proof {
            assert(run_models(self.runs@) =~= m.runs.update(k, rm));
            if act is Continue {
                let n = self.model();
                assert forall|i: int| 0 <= i < n.runs.len() implies (#[trigger] n.runs[i]).frames.len()
                    > 0 by {
                    assert(m.runs[i].frames.len() > 0);
                }
            } else {
                assert(run_models(self.runs@) =~= m.runs);
            }
        }
        act
    }
}

} // verus!
