use vstd::prelude::*;
use crate::value::{digits, digit_char};
use crate::program::{ID, IP, FuncName, is_digit, digit_value};
use crate::syntax::{depth, name_value};
use crate::collect::{FnModel, Collect, collect, lemma_collect_wf, opens};

verus! {

proof fn lemma_digit_char(d: int)
    requires
        0 <= d <= 9,
    ensures
        is_digit(digit_char(d)),
        digit_value(digit_char(d)) == d,
        digit_char(d) != '{' && digit_char(d) != '}',
{
}

/// The decimal digits of a number are digits, and read back as that number after anything
/// that does not end in a digit.
pub proof fn law_name_reads_decimal(t: Seq<char>, n: nat)
    requires
        t.len() == 0 || !is_digit(t.last()),
    ensures
        name_value(t + digits(n)) == n,
        forall|i: int| 0 <= i < digits(n).len() ==> is_digit(#[trigger] digits(n)[i]),
    decreases n,
{
    let u = t + digits(n);
    if n < 10 {
        lemma_digit_char(n as int);
        assert(u.drop_last() =~= t);
        assert(u.last() == digit_char(n as int));
        assert(name_value(t) == 0);
    } else {
        law_name_reads_decimal(t, n / 10);
        lemma_digit_char((n % 10) as int);
        assert(u.drop_last() =~= t + digits(n / 10));
        assert(u.last() == digit_char((n % 10) as int));
        assert(n == (n / 10) * 10 + n % 10);
        assert forall|i: int| 0 <= i < digits(n).len() implies is_digit(#[trigger] digits(n)[i]) by {
            if i < digits(n / 10).len() {
                assert(digits(n)[i] == digits(n / 10)[i]);
            }
        }
    }
}

proof fn lemma_collect_without_braces(x: Seq<char>)
    requires
        forall|i: int| 0 <= i < x.len() ==> (#[trigger] x[i]) != '{' && x[i] != '}',
    ensures
        collect(x) == (Collect { levels: seq![Seq::empty()], funcs: Seq::empty(), open: Seq::empty() }),
    decreases x.len(),
{
    if x.len() > 0 {
        lemma_collect_without_braces(x.drop_last());
    }
}

/// A function is named by the whole decimal number written just before its brace: the new
/// function gets that name, and the binding of that name to it is added to the scope level in
/// which the brace stands.
pub proof fn law_function_named_by_number(t: Seq<char>, n: nat)
    requires
        t.len() == 0 || !is_digit(t.last()),
        n <= u32::MAX,
        forall|k: int| 0 <= k <= t.len() ==> depth(#[trigger] t.take(k)) >= 0,
        opens(t) < u32::MAX,
    ensures
        ({
            let s = t + digits(n) + seq!['{'];
            let before = collect(t + digits(n));
            let after = collect(s);
            let lv = before.levels.len() - 1;
            &&& after.funcs.len() == before.funcs.len() + 1
            &&& after.funcs.last().name == FuncName(n as u32)
            &&& after.levels.len() == before.levels.len() + 1
            &&& after.levels[lv] == before.levels[lv].push(
                (ID(n as u32), ID(before.funcs.len() as u32)),
            )
        }),
{
    let u = t + digits(n);
    let s = u + seq!['{'];
    law_name_reads_decimal(t, n);
    assert(s.drop_last() =~= u);
    assert(forall|i: int| 0 <= i < digits(n).len() ==> #[trigger] u[t.len() + i] == digits(n)[i]);
    assert(t.take(t.len() as int) =~= t);
    assert(u.take(u.len() as int) =~= u);
    assert forall|k: int| 0 <= k <= u.len() implies depth(#[trigger] u.take(k)) >= 0 by {
        if k <= t.len() {
            assert(u.take(k) =~= t.take(k));
        } else {
            lemma_depth_digits_tail(t, n, k);
        }
    }
    lemma_opens_digits_tail(t, n, u.len() as int);
    lemma_collect_wf(u);
}

proof fn lemma_depth_digits_tail(t: Seq<char>, n: nat, k: int)
    requires
        t.len() < k <= t.len() + digits(n).len(),
        forall|j: int| 0 <= j <= t.len() ==> depth(#[trigger] t.take(j)) >= 0,
        forall|i: int| 0 <= i < digits(n).len() ==> is_digit(#[trigger] digits(n)[i]),
    ensures
        depth((t + digits(n)).take(k)) == depth(t),
    decreases k,
{
    let u = t + digits(n);
    let i = k - 1 - t.len();
    assert(u[k - 1] == digits(n)[i]);
    assert(u.take(k).drop_last() =~= u.take(k - 1));
    if k - 1 > t.len() {
        lemma_depth_digits_tail(t, n, k - 1);
    } else {
        assert(u.take(k - 1) =~= t);
    }
}

proof fn lemma_opens_digits_tail(t: Seq<char>, n: nat, k: int)
    requires
        t.len() <= k <= t.len() + digits(n).len(),
        forall|i: int| 0 <= i < digits(n).len() ==> is_digit(#[trigger] digits(n)[i]),
    ensures
        opens((t + digits(n)).take(k)) == opens(t),
    decreases k,
{
    let u = t + digits(n);
    if k > t.len() {
        let i = k - 1 - t.len();
        assert(u[k - 1] == digits(n)[i]);
        assert(u.take(k).drop_last() =~= u.take(k - 1));
        lemma_opens_digits_tail(t, n, k - 1);
    } else {
        assert(u.take(k) =~= t);
    }
}

/// The program `n{}` has one function, named `n`, starting just after the digits, and its
/// outermost scope binds `n` to it.
pub proof fn law_single_function_program(n: nat)
    requires
        n <= u32::MAX,
    ensures
        ({
            let s = digits(n) + seq!['{', '}'];
            let c = collect(s);
            &&& c.levels == seq![seq![(ID(n as u32), ID(0))]]
            &&& c.funcs == seq![
                FnModel {
                    env: seq![(ID(n as u32), ID(0))],
                    ip: IP(digits(n).len() as u32),
                    name: FuncName(n as u32),
                    id: ID(0),
                },
            ]
        }),
{
    let e = Seq::<char>::empty();
    law_name_reads_decimal(e, n);
    assert(e + digits(n) =~= digits(n));
    lemma_digits_len(n);
    lemma_collect_without_braces(digits(n));
    let u = digits(n) + seq!['{'];
    let s = digits(n) + seq!['{', '}'];
    assert(s.drop_last() =~= u);
    assert(u.drop_last() =~= digits(n));
    let cu = collect(u);
    assert(cu.levels =~= seq![seq![(ID(n as u32), ID(0))], Seq::<(ID, ID)>::empty()]);
    assert(cu.levels.flatten_alt() =~= seq![(ID(n as u32), ID(0))]) by {
        reveal_with_fuel(Seq::flatten_alt, 3);
        assert(cu.levels.drop_last().drop_last() =~= Seq::<Seq<(ID, ID)>>::empty());
        assert(cu.levels.drop_last() =~= seq![seq![(ID(n as u32), ID(0))]]);
    }
    assert(collect(s).levels =~= seq![seq![(ID(n as u32), ID(0))]]);
    assert(collect(s).funcs =~= seq![
        FnModel {
            env: seq![(ID(n as u32), ID(0))],
            ip: IP(digits(n).len() as u32),
            name: FuncName(n as u32),
            id: ID(0),
        },
    ]);
}

proof fn lemma_digits_len(n: nat)
    ensures
        1 <= digits(n).len() <= n + 1,
    decreases n,
{
    if n >= 10 {
        lemma_digits_len(n / 10);
    }
}

} // verus!
