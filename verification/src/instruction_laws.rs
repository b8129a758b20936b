use vstd::prelude::*;
use crate::value::{Val, render};
use crate::program::{ID, lookup};
use crate::collect::FnModel;
use crate::semantics::{
    RunM, Outcome, Fault, MachineM, exec_inst, stack_op, frame_op, call, close, arith,
    machine_step, skip_body, trunc_div, fits, SWAP, ROTATE, DUP, APPEND, HEAD, LAST, LEN, OPEN,
    CLOSE, UNSTASH_ALL, ADD, SUB, MUL, DIV, GT, LT, EQ, CALL, BRANCH, OUT_CHAR, OUT_NUM,
};

verus! {

/// The comparisons are strict and exclusive: for the top `a` and the value below it `b`,
/// exactly one of `>`, `<`, `=` gives 1 and the others 0, `>` gives 1 only when `a > b`, `<`
/// only when `a < b`, `=` only when they are equal; and `>` on `a, b` is `<` on `b, a`.
pub proof fn law_comparisons_exclusive(a: i64, b: i64)
    ensures
        arith(GT, a, b) matches Ok(g) && arith(LT, a, b) matches Ok(l) && arith(EQ, a, b) matches Ok(e)
            && 0 <= g <= 1 && 0 <= l <= 1 && 0 <= e <= 1 && g + l + e == 1 && (g == 1 ==> a > b)
            && (l == 1 ==> a < b) && (e == 1 ==> a == b),
        arith(GT, a, b) == arith(LT, b, a),
{
}

/// `>` compares the top value with the one below it: it replaces both by 1 when the top is
/// strictly greater, by 0 otherwise (so equal values give 0).
pub proof fn law_greater_on_stack(s: Seq<Val>, a: i64, b: i64, at: u32)
    ensures
        stack_op(GT, s.push(Val::Int(b)).push(Val::Int(a)), at) == Ok::<Seq<Val>, Fault>(
            s.push(Val::Int(if a > b { 1 } else { 0 })),
        ),
        a == b ==> stack_op(GT, s.push(Val::Int(b)).push(Val::Int(a)), at) == Ok::<Seq<Val>, Fault>(
            s.push(Val::Int(0)),
        ),
{
    let st = s.push(Val::Int(b)).push(Val::Int(a));
    assert(st.take(st.len() - 2) =~= s);
}

/// `[` splits a non-empty list into its first item, pushed on top, and the rest, pushed below
/// it in order: the first item followed by the rest is the list.
pub proof fn law_head_splits_list(s: Seq<Val>, l: Seq<Val>, at: u32)
    requires
        l.len() > 0,
    ensures
        stack_op(HEAD, s.push(Val::List(l)), at) matches Ok(t) && t.len() == s.len() + 2 && t.take(
            s.len() as int,
        ) == s && t[s.len() as int] is List && seq![t[s.len() + 1int]] + t[s.len() as int]->List_0
            == l,
{
    let st = s.push(Val::List(l));
    let t = st.drop_last().push(Val::List(l.drop_first())).push(l[0]);
    assert(t.take(s.len() as int) =~= s);
    assert(seq![l[0]] + l.drop_first() =~= l);
}

/// `]` splits a non-empty list into its last item, pushed on top, and the rest, pushed below
/// it in order: the rest followed by the last item is the list.
pub proof fn law_last_splits_list(s: Seq<Val>, l: Seq<Val>, at: u32)
    requires
        l.len() > 0,
    ensures
        stack_op(LAST, s.push(Val::List(l)), at) matches Ok(t) && t.len() == s.len() + 2 && t.take(
            s.len() as int,
        ) == s && t[s.len() as int] is List && t[s.len() as int]->List_0 + seq![t[s.len() + 1int]]
            == l,
{
    let st = s.push(Val::List(l));
    let t = st.drop_last().push(Val::List(l.drop_last())).push(l.last());
    assert(t.take(s.len() as int) =~= s);
    assert(l.drop_last() + seq![l.last()] =~= l);
}

/// `_` keeps the list and pushes its length.
pub proof fn law_length_keeps_list(s: Seq<Val>, l: Seq<Val>, at: u32)
    ensures
        stack_op(LEN, s.push(Val::List(l)), at) == Ok::<Seq<Val>, Fault>(
            s.push(Val::List(l)).push(Val::Int(l.len() as i64)),
        ),
{
}

/// A `}` that closes the last frame of a run ends it with the value pushed last.
pub proof fn law_outermost_return_gives_top(r: RunM, x: Val)
    requires
        r.frames.len() == 1,
    ensures
        close(RunM { stack: r.stack.push(x), ..r }) == Outcome::Done(Some(x)),
{
}

/// Ending a run at the `}` of its last frame gives the machine the same next state and action
/// as ending it by reaching the end of the code: in both cases the run's result is the top of
/// its stack.
pub proof fn law_outermost_return_same_as_end(
    m: MachineM,
    code1: Seq<u8>,
    code2: Seq<u8>,
    funcs: Seq<FnModel>,
    global: Seq<(ID, ID)>,
)
    requires
        m.runs.len() > 0,
        m.runs.last().frames.len() == 1,
        m.runs.last().eip >= code1.len(),
        m.runs.last().eip < code2.len(),
        code2[m.runs.last().eip as int] == CLOSE,
    ensures
        machine_step(m, code1, funcs, global, false) == machine_step(m, code2, funcs, global, false),
{
    let k = m.runs.len() - 1;
    assert(m.runs[k] == m.runs.last());
    let r = m.runs[k];
    let r1 = RunM { eip: (r.eip + 1) as u32, num_state: false, ..r };
    assert(r1.frames.drop_last().len() == 0);
}

/// How much a byte changes the brace depth.
pub open spec fn brace_delta(b: u8) -> int {
    if b == OPEN {
        1
    } else if b == CLOSE {
        -1
    } else {
        0
    }
}

/// Opening braces minus closing braces among the bytes from `i` up to (not including) `j`.
pub open spec fn brace_depth(code: Seq<u8>, i: int, j: int) -> int
    decreases j - i,
{
    if j <= i {
        0
    } else {
        brace_depth(code, i, j - 1) + brace_delta(code[j - 1])
    }
}

proof fn lemma_brace_depth_bound(code: Seq<u8>, i: int, j: int)
    ensures
        brace_depth(code, i, j) <= if j > i { j - i } else { 0 },
    decreases j - i,
{
    if j > i {
        lemma_brace_depth_bound(code, i, j - 1);
    }
}

/// Skipping from `j` inside a body that starts at `from` and whose closing brace is at `q`
/// ends just after `q`.
proof fn lemma_skip_to_match(code: Seq<u8>, from: int, q: int, j: int)
    requires
        0 <= from <= j <= q < code.len(),
        code.len() <= i32::MAX,
        code[q] == CLOSE,
        brace_depth(code, from, q) == 0,
        forall|k: int| from <= k < q ==> brace_depth(code, from, #[trigger] (k + 1)) >= 0,
    ensures
        skip_body(code, j, 1 + brace_depth(code, from, j)) == Ok::<Option<int>, Fault>(Some(q + 1)),
    decreases q - j,
{
    let level = 1 + brace_depth(code, from, j);
    lemma_brace_depth_bound(code, from, j);
    if j < q {
        assert(brace_depth(code, from, j + 1) == brace_depth(code, from, j) + brace_delta(code[j]));
        assert(brace_depth(code, from, j + 1) >= 0);
        lemma_skip_to_match(code, from, q, j + 1);
    }
}

/// `{` drops the top value (the function's name) and goes on just after the brace that closes
/// the body: the first closing brace at which as many braces have closed as opened since.
pub proof fn law_open_skips_body(r: RunM, code: Seq<u8>, funcs: Seq<FnModel>, q: int)
    requires
        r.eip < q < code.len(),
        code.len() <= i32::MAX,
        code[r.eip as int] == OPEN,
        code[q] == CLOSE,
        brace_depth(code, r.eip + 1, q) == 0,
        forall|k: int| r.eip + 1 <= k < q ==> brace_depth(code, r.eip + 1, #[trigger] (k + 1)) >= 0,
    ensures
        exec_inst(r, code, funcs) == Outcome::Next(
            RunM {
                eip: (q + 1) as u32,
                stack: if r.stack.len() > 0 {
                    r.stack.drop_last()
                } else {
                    r.stack
                },
                num_state: false,
                ..r
            },
            Seq::empty(),
        ),
{
    lemma_skip_to_match(code, r.eip + 1, q, r.eip + 1);
}

/// `+`, `-` and `*` on the top `a` and the value below it `b`: the sum, the top minus the
/// other (so adding back `b` gives `a`), the product, or an overflow when the exact result
/// does not fit in 64 bits.
pub proof fn law_add_sub_mul(a: i64, b: i64)
    ensures
        arith(ADD, a, b) matches Ok(v) ==> v == a + b,
        arith(SUB, a, b) matches Ok(v) ==> v + b == a,
        arith(MUL, a, b) matches Ok(v) ==> v == a * b,
        arith(ADD, a, b) is Err <==> !fits(a + b),
        arith(SUB, a, b) is Err <==> !fits(a - b),
        arith(MUL, a, b) is Err <==> !fits(a * b),
        arith(ADD, a, b) == arith(ADD, b, a),
        arith(MUL, a, b) == arith(MUL, b, a),
{
}

proof fn lemma_div_mod(ma: int, mb: int)
    by (nonlinear_arith)
    requires
        ma >= 0,
        mb > 0,
    ensures
        ma == (ma / mb) * mb + ma % mb,
        0 <= ma % mb < mb,
        ma / mb >= 0,
{
}

/// `/` divides the top `a` by the value below it `b`, rounding towards zero: the quotient
/// `q` leaves a remainder `a - q * b` smaller than `b` in size and of the sign of `a`.
pub proof fn law_division_rounds_toward_zero(a: i64, b: i64)
    requires
        b != 0,
    ensures
        arith(DIV, a, b) matches Ok(q) ==> {
            let r = a - q * b;
            &&& (if r < 0 { -r } else { r }) < (if b < 0 { -b } else { b as int })
            &&& (r == 0 || (r < 0) == (a < 0))
        },
        arith(DIV, a, b) is Err <==> (a == i64::MIN && b == -1),
{
    let ma: int = if a < 0 { -a } else { a as int };
    let mb: int = if b < 0 { -b } else { b as int };
    lemma_div_mod(ma, mb);
    let qm = ma / mb;
    let rm = ma % mb;
    let q = trunc_div(a as int, b as int);
    assert(q == if (a < 0) != (b < 0) { -qm } else { qm });
    assert(q * b == if a < 0 { -(qm * mb) } else { qm * mb }) by (nonlinear_arith)
        requires
            q == (if (a < 0) != (b < 0) { -qm } else { qm }),
            mb == (if b < 0 { -b } else { b as int }),
    ;
    assert(a - q * b == if a < 0 { -rm } else { rm });
    if a == i64::MIN && b == -1 {
        assert(q == 0x8000_0000_0000_0000int) by (nonlinear_arith)
            requires
                ma == 0x8000_0000_0000_0000int,
                mb == 1,
                qm == ma / mb,
                q == qm,
        ;
    } else {
        assert(qm <= ma) by (nonlinear_arith)
            requires
                mb >= 1,
                qm == ma / mb,
                ma >= 0,
        ;
        if mb == 1 {
            assert(qm == ma) by (nonlinear_arith)
                requires
                    mb == 1,
                    qm == ma / mb,
            ;
        } else {
            assert(qm * 2 <= ma) by (nonlinear_arith)
                requires
                    mb >= 2,
                    qm == ma / mb,
                    ma >= 0,
                    ma == qm * mb + (ma % mb),
                    ma % mb >= 0,
            ;
        }
        assert(fits(q));
    }
}

/// `s` puts the top value under the one below it.
pub proof fn law_swap_exchanges(s: Seq<Val>, x: Val, y: Val, at: u32)
    ensures
        stack_op(SWAP, s.push(x).push(y), at) == Ok::<Seq<Val>, Fault>(s.push(y).push(x)),
{
    let st = s.push(x).push(y);
    assert(st.take(st.len() - 2) =~= s);
    assert(s + seq![y, x] =~= s.push(y).push(x));
}

/// `r` moves the top value under the two below it, which keep their order.
pub proof fn law_rotate_moves_top_under(s: Seq<Val>, x: Val, y: Val, z: Val, at: u32)
    ensures
        stack_op(ROTATE, s.push(x).push(y).push(z), at) == Ok::<Seq<Val>, Fault>(
            s.push(z).push(x).push(y),
        ),
{
    let st = s.push(x).push(y).push(z);
    assert(st.take(st.len() - 3) =~= s);
    assert(s + seq![z, x, y] =~= s.push(z).push(x).push(y));
}

/// `d` pushes a copy of the top value.
pub proof fn law_dup_copies_top(s: Seq<Val>, x: Val, at: u32)
    ensures
        stack_op(DUP, s.push(x), at) == Ok::<Seq<Val>, Fault>(s.push(x).push(x)),
{
}

/// `p` appends the top value at the end of the list below it.
pub proof fn law_append_adds_at_end(s: Seq<Val>, l: Seq<Val>, x: Val, at: u32)
    ensures
        stack_op(APPEND, s.push(Val::List(l)).push(x), at) == Ok::<Seq<Val>, Fault>(
            s.push(Val::List(l.push(x))),
        ),
{
    let st = s.push(Val::List(l)).push(x);
    assert(st.take(st.len() - 2) =~= s);
}

/// `+` on two lists puts the items of the top list first, then those of the list below it.
pub proof fn law_join_top_first(s: Seq<Val>, l1: Seq<Val>, l2: Seq<Val>, at: u32)
    ensures
        stack_op(ADD, s.push(Val::List(l1)).push(Val::List(l2)), at) == Ok::<Seq<Val>, Fault>(
            s.push(Val::List(l2 + l1)),
        ),
{
    let st = s.push(Val::List(l1)).push(Val::List(l2));
    assert(st.take(st.len() - 2) =~= s);
}

/// The run of `r` just after the instruction at its position, before any effect.
pub open spec fn advanced(r: RunM) -> RunM {
    RunM { eip: (r.eip + 1) as u32, num_state: false, ..r }
}

/// `b` with the integers `c`, `b`, `a` on top (`a` on top) drops them and calls the function
/// named `b` when `c` is zero, the one named `a` otherwise.
pub proof fn law_branch_selects(r: RunM, code: Seq<u8>, funcs: Seq<FnModel>, s: Seq<Val>, a: i64, b: i64, c: i64)
    requires
        r.eip < code.len(),
        code[r.eip as int] == BRANCH,
        r.stack == s.push(Val::Int(c)).push(Val::Int(b)).push(Val::Int(a)),
    ensures
        c == 0 ==> exec_inst(r, code, funcs) == call(RunM { stack: s, ..advanced(r) }, b as u32, c, BRANCH, r.eip, funcs),
        c != 0 ==> exec_inst(r, code, funcs) == call(RunM { stack: s, ..advanced(r) }, a as u32, c, BRANCH, r.eip, funcs),
{
    assert(r.stack.take(r.stack.len() - 3) =~= s);
}

/// `c` with an integer on top drops it and calls the function of that name.
pub proof fn law_call_by_top(r: RunM, code: Seq<u8>, funcs: Seq<FnModel>, s: Seq<Val>, x: i64)
    requires
        r.eip < code.len(),
        code[r.eip as int] == CALL,
        r.stack == s.push(Val::Int(x)),
    ensures
        exec_inst(r, code, funcs) == call(RunM { stack: s, ..advanced(r) }, x as u32, x, CALL, r.eip, funcs),
{
    assert(r.stack.drop_last() =~= s);
    assert(r.stack.last() == Val::Int(x));
}

/// A call of a name bound in the current scope to a function enters that function: the new
/// frame returns to the position after the call, keeps the caller's scope and starts with an
/// empty stack; the run goes on just after the function's brace, in the function's scope.
pub proof fn law_call_enters_function(r: RunM, name: u32, shown: i64, op: u8, at: u32, funcs: Seq<FnModel>, id: ID)
    requires
        lookup(r.scope, ID(name)) == Some(id),
        id.0 < funcs.len(),
        funcs[id.0 as int].ip.0 < u32::MAX,
    ensures
        call(r, name, shown, op, at, funcs) matches Outcome::Next(r2, out) && out.len() == 0
            && r2.eip == funcs[id.0 as int].ip.0 + 1 && r2.scope == funcs[id.0 as int].env
            && r2.frames.drop_last() == r.frames && r2.frames.last().ret_addr == r.eip
            && r2.frames.last().env == r.scope && r2.frames.last().stack.len() == 0
            && r2.stack == r.stack,
{
    let r2 = call(r, name, shown, op, at, funcs)->Next_0;
    assert(r2.frames.drop_last() =~= r.frames);
}

/// `n` drops the top value and prints it as numbers; `o` prints it as characters.
pub proof fn law_output_prints_top(r: RunM, code: Seq<u8>, funcs: Seq<FnModel>, s: Seq<Val>, x: Val)
    requires
        r.eip < code.len(),
        code[r.eip as int] == OUT_NUM || code[r.eip as int] == OUT_CHAR,
        r.stack == s.push(x),
    ensures
        exec_inst(r, code, funcs) == Outcome::Next(
            RunM { stack: s, ..advanced(r) },
            render(x, code[r.eip as int] == OUT_NUM),
        ),
{
    assert(r.stack.drop_last() =~= s);
    assert(r.stack.last() == x);
}

/// `a` empties the frame's own stack onto the main stack, last in first: the value pushed
/// last on the frame's stack comes first.
pub proof fn law_unstash_all_reverses(r: RunM)
    requires
        r.frames.len() > 0,
    ensures
        frame_op(UNSTASH_ALL, r) matches Outcome::Next(r2, _) && r2.frames.last().stack.len() == 0
            && r2.frames.drop_last() == r.frames.drop_last()
            && r2.stack.len() == r.stack.len() + r.frames.last().stack.len()
            && r2.stack.take(r.stack.len() as int) == r.stack
            && forall|i: int| 0 <= i < r.frames.last().stack.len() ==> #[trigger] r2.stack[r.stack.len() + i]
                == r.frames.last().stack[r.frames.last().stack.len() - 1 - i],
{
    let k = r.frames.len() - 1;
    let fr = r.frames.last();
    let r2 = frame_op(UNSTASH_ALL, r)->Next_0;
    assert(r2.frames.drop_last() =~= r.frames.drop_last());
    assert(r2.stack.take(r.stack.len() as int) =~= r.stack);
}

} // verus!
