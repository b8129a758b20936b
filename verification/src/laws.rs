use vstd::prelude::*;
use crate::value::Val;
use crate::program::{ID, lookup};
use crate::syntax::{balanced, depth, name_value, scan, scan_fits, lemma_scan_depth};
use crate::collect::collectable;
use crate::collect::{FnModel, collect, lemma_collect_wf, opens};
use crate::semantics::{
    RunM, FrameM, Outcome, exec_inst, stack_op, frame_op, call, close, DROP, SWAP, ROTATE,
    DUP, APPEND, LAST, STASH, UNSTASH, OPEN, CLOSE, DIGIT_0, DIGIT_9, UNSTASH_ALL, ADD, SUB, MUL,
    DIV, GT, LT, EQ, INPUT, OUT_CHAR, OUT_NUM, CALL, BRANCH, NEW_LIST, NEWLINE, HEAD, LEN, MAP,
};

verus! {

/// A newer binding of a name hides the older ones.
pub proof fn law_latest_binding_wins(fs: Seq<(ID, ID)>, name: ID, f: ID)
    ensures
        lookup(fs.push((name, f)), name) == Some(f),
{
}

/// A binding of another name leaves the lookup of a name unchanged.
pub proof fn law_other_binding_transparent(fs: Seq<(ID, ID)>, name: ID, other: ID, f: ID)
    requires
        other != name,
    ensures
        lookup(fs.push((other, f)), name) == lookup(fs, name),
{
    assert(fs.push((other, f)).drop_last() =~= fs);
}

/// Swapping twice gives back the stack.
pub proof fn law_swap_twice(s: Seq<Val>, at: u32)
    requires
        s.len() >= 2,
    ensures
        stack_op(SWAP, s, at) matches Ok(s1) && stack_op(SWAP, s1, at) == Ok::<Seq<Val>, crate::semantics::Fault>(s),
{
    let n = s.len();
    let s1 = s.take(n - 2) + seq![s[n - 1], s[n - 2]];
    assert(s1.take(n - 2) =~= s.take(n - 2));
    assert(s1.take(n - 2) + seq![s1[n - 1], s1[n - 2]] =~= s);
}

/// Rotating three times gives back the stack.
pub proof fn law_rotate_thrice(s: Seq<Val>, at: u32)
    requires
        s.len() >= 3,
    ensures
        stack_op(ROTATE, s, at) matches Ok(s1) && stack_op(ROTATE, s1, at) matches Ok(s2)
            && stack_op(ROTATE, s2, at) == Ok::<Seq<Val>, crate::semantics::Fault>(s),
{
    let n = s.len();
    let b = s.take(n - 3);
    let s1 = b + seq![s[n - 1], s[n - 3], s[n - 2]];
    assert(s1.take(n - 3) =~= b);
    let s2 = b + seq![s1[n - 1], s1[n - 3], s1[n - 2]];
    assert(s2.take(n - 3) =~= b);
    let s3 = b + seq![s2[n - 1], s2[n - 3], s2[n - 2]];
    assert(s3 =~= s);
}

/// Dropping a duplicate gives back the stack.
pub proof fn law_dup_then_drop(s: Seq<Val>, at: u32)
    requires
        s.len() >= 1,
    ensures
        stack_op(DUP, s, at) matches Ok(s1) && stack_op(DROP, s1, at) == Ok::<Seq<Val>, crate::semantics::Fault>(s),
{
    assert(s.push(s[s.len() - 1]).drop_last() =~= s);
}

/// Taking the last item of a list undoes appending it.
pub proof fn law_last_undoes_append(s: Seq<Val>, at: u32)
    requires
        s.len() >= 2,
        s[s.len() - 2] is List,
    ensures
        stack_op(APPEND, s, at) matches Ok(s1) && stack_op(LAST, s1, at) == Ok::<Seq<Val>, crate::semantics::Fault>(s),
{
    let n = s.len();
    let l = s[n - 2]->List_0;
    let s1 = s.take(n - 2).push(Val::List(l.push(s[n - 1])));
    assert(s1[s1.len() - 1]->List_0 == l.push(s[n - 1]));
    assert(l.push(s[n - 1]).drop_last() =~= l);
    assert(s1.drop_last() =~= s.take(n - 2));
    assert(s.take(n - 2).push(Val::List(l)).push(s[n - 1]) =~= s);
}

/// Moving the top value to the frame's stack and back gives back the run.
pub proof fn law_stash_then_unstash(r: RunM)
    requires
        r.frames.len() > 0,
        r.stack.len() > 0,
    ensures
        frame_op(STASH, r) matches Outcome::Next(r1, _) && frame_op(UNSTASH, r1) matches Outcome::Next(
            r2,
            _,
        ) && r2 == r,
{
    let k = r.frames.len() - 1;
    let fr = r.frames.last();
    let r1 = RunM {
        stack: r.stack.drop_last(),
        frames: r.frames.update(k, FrameM { stack: fr.stack.push(r.stack.last()), ..fr }),
        ..r
    };
    let fr1 = r1.frames.last();
    assert(fr1.stack.drop_last() =~= fr.stack);
    let r2 = RunM {
        stack: r1.stack.push(fr1.stack.last()),
        frames: r1.frames.update(k, FrameM { stack: fr1.stack.drop_last(), ..fr1 }),
        ..r1
    };
    assert(r2.stack =~= r.stack);
    assert(r2.frames =~= r.frames);
}

/// Whether a byte is an instruction.
pub open spec fn is_instruction(b: u8) -> bool {
    ||| DIGIT_0 <= b <= DIGIT_9
    ||| b == OPEN || b == CLOSE || b == DROP || b == STASH || b == UNSTASH || b == UNSTASH_ALL
    ||| b == ROTATE || b == SWAP || b == DUP || b == ADD || b == SUB || b == MUL || b == DIV
    ||| b == GT || b == LT || b == EQ || b == INPUT || b == OUT_CHAR || b == OUT_NUM
    ||| b == CALL || b == BRANCH || b == NEW_LIST || b == APPEND || b == NEWLINE || b == HEAD
    ||| b == LAST || b == LEN || b == MAP
}

/// Any other character, blanks and newlines among them, only moves on to the next one (and
/// ends a number).
pub proof fn law_other_characters_ignored(r: RunM, code: Seq<u8>, funcs: Seq<FnModel>)
    requires
        r.eip < code.len(),
        !is_instruction(code[r.eip as int]),
    ensures
        exec_inst(r, code, funcs) == Outcome::Next(
            RunM { eip: (r.eip + 1) as u32, num_state: false, ..r },
            Seq::empty(),
        ),
{
}

/// A call gives the function a new, empty stack of its own, and keeps the main stack.
pub proof fn law_call_shares_main_stack(
    r: RunM,
    name: u32,
    shown: i64,
    op: u8,
    at: u32,
    funcs: Seq<FnModel>,
)
    ensures
        call(r, name, shown, op, at, funcs) matches Outcome::Next(r2, _) ==> r2.stack == r.stack
            && r2.frames.last().stack.len() == 0 && r2.frames.len() == r.frames.len() + 1,
{
}

/// Returning from a call goes back to where the call was made, with the caller's frames; the
/// scope becomes the one kept in the caller's own frame.
pub proof fn law_return_after_call(
    r: RunM,
    name: u32,
    shown: i64,
    op: u8,
    at: u32,
    funcs: Seq<FnModel>,
)
    requires
        r.frames.len() > 0,
    ensures
        call(r, name, shown, op, at, funcs) matches Outcome::Next(r2, _) ==> close(r2)
            == Outcome::Next(
            RunM { eip: r.eip, frames: r.frames, scope: r.frames.last().env, ..r2 },
            Seq::empty(),
        ),
{
    if call(r, name, shown, op, at, funcs) is Next {
        let r2 = call(r, name, shown, op, at, funcs)->Next_0;
        assert(r2.frames.drop_last() =~= r.frames);
    }
}

/// The value of a string of digit bytes.
pub open spec fn number(ds: Seq<u8>) -> int
    decreases ds.len(),
{
    if ds.len() == 0 {
        0
    } else {
        number(ds.drop_last()) * 10 + (ds.last() - 48)
    }
}

/// The run after `k` instructions, as long as each of them just goes on.
pub open spec fn run_steps(r: RunM, code: Seq<u8>, funcs: Seq<FnModel>, k: nat) -> Option<RunM>
    decreases k,
{
    if k == 0 {
        Some(r)
    } else {
        match run_steps(r, code, funcs, (k - 1) as nat) {
            Some(r2) => if r2.eip < code.len() {
                match exec_inst(r2, code, funcs) {
                    Outcome::Next(r3, _) => Some(r3),
                    _ => None,
                }
            } else {
                None
            },
            None => None,
        }
    }
}

proof fn lemma_number_nonneg(ds: Seq<u8>)
    requires
        forall|i: int| 0 <= i < ds.len() ==> DIGIT_0 <= #[trigger] ds[i] <= DIGIT_9,
    ensures
        number(ds) >= 0,
    decreases ds.len(),
{
    if ds.len() > 0 {
        lemma_number_nonneg(ds.drop_last());
    }
}

/// A string of digits pushes the number it spells, as one value.
pub proof fn law_digits_push_number(r: RunM, code: Seq<u8>, funcs: Seq<FnModel>, k: nat)
    requires
        k >= 1,
        !r.num_state,
        r.eip + k <= code.len(),
        code.len() < u32::MAX,
        forall|i: int| r.eip <= i < r.eip + k ==> DIGIT_0 <= #[trigger] code[i] <= DIGIT_9,
        number(code.subrange(r.eip as int, r.eip + k)) <= i64::MAX,
    ensures
        run_steps(r, code, funcs, k) == Some(
            RunM {
                eip: (r.eip + k) as u32,
                stack: r.stack.push(Val::Int(number(code.subrange(r.eip as int, r.eip + k)) as i64)),
                num_state: true,
                ..r
            },
        ),
    decreases k,
{
    let ds = code.subrange(r.eip as int, r.eip + k);
    let d = code[r.eip + k - 1];
    if k == 1 {
        assert(ds.drop_last() =~= Seq::<u8>::empty());
    } else {
        let k1 = (k - 1) as nat;
        let ds1 = code.subrange(r.eip as int, r.eip + k1);
        assert(ds.drop_last() =~= ds1);
        lemma_number_nonneg(ds1);
        law_digits_push_number(r, code, funcs, k1);
        let r2 = run_steps(r, code, funcs, k1).unwrap();
        assert(r2.stack.drop_last() =~= r.stack);
    }
}

/// Code whose braces balance closes every function it opens: the collection ends with only
/// the outermost level open.
pub proof fn law_balanced_code_closes_all(s: Seq<char>)
    requires
        balanced(s),
        opens(s) <= u32::MAX,
    ensures
        collect(s).levels.len() == 1,
        collect(s).open.len() == 0,
{
    lemma_collect_wf(s);
}

/// Code that passes the syntax check, whose counters fit, and that has at most `u32::MAX`
/// functions can be collected.
pub proof fn law_checked_code_collectable(s: Seq<char>)
    requires
        balanced(s),
        scan_fits(s),
        opens(s) <= u32::MAX,
    ensures
        collectable(s),
{
    assert forall|k: int| 0 <= k <= s.len() implies name_value(#[trigger] s.take(k)) <= u32::MAX
        && depth(s.take(k)) <= i32::MAX by {
        let t = s.take(k);
        lemma_scan_depth(t);
        if scan(t).failed {
            let j = choose|j: int| 0 <= j <= t.len() && depth(#[trigger] t.take(j)) < 0;
            assert(t.take(j) =~= s.take(j));
        }
    }
}

/// Each function found starts at an opening brace of the code.
pub proof fn law_function_starts_at_brace(s: Seq<char>)
    requires
        s.len() <= u32::MAX,
        forall|k: int| 0 <= k <= s.len() ==> depth(#[trigger] s.take(k)) >= 0,
        opens(s) <= u32::MAX,
    ensures
        forall|j: int|
            0 <= j < collect(s).funcs.len() ==> (#[trigger] collect(s).funcs[j]).ip.0 < s.len()
                && s[collect(s).funcs[j].ip.0 as int] == '{',
    decreases s.len(),
{
    if s.len() > 0 {
        let t = s.drop_last();
        assert forall|k: int| 0 <= k <= t.len() implies depth(#[trigger] t.take(k)) >= 0 by {
            assert(t.take(k) =~= s.take(k));
        }
        crate::collect::lemma_opens_prefix(s, t.len() as int);
        assert(s.take(t.len() as int) =~= t);
        law_function_starts_at_brace(t);
        lemma_collect_wf(t);
        let p = collect(t);
        let c = collect(s);
        assert forall|j: int| 0 <= j < c.funcs.len() implies (#[trigger] c.funcs[j]).ip.0 < s.len()
            && s[c.funcs[j].ip.0 as int] == '{' by {
            if s.last() == '}' {
                assert(depth(s.take(s.len() as int)) >= 0);
                assert(s.take(s.len() as int) =~= s);
                assert(p.open.len() > 0);
                let id = p.open.last();
                assert(p.open[p.open.len() - 1] == id);
                assert(c.funcs[j].ip == p.funcs[j].ip);
            }
            if j < p.funcs.len() {
                assert(c.funcs[j].ip == p.funcs[j].ip);
                assert(t[p.funcs[j].ip.0 as int] == s[p.funcs[j].ip.0 as int]);
            }
        }
    }
}

} // verus!
