use vstd::prelude::*;
use crate::program::{is_digit, digit_value, to_v};

verus! {

/// A problem that the syntax check reports.
#[derive(Copy, Clone, Debug, PartialEq, Eq, Structural)]
pub enum SyntaxError {
    /// A function at this position has no name before its brace.
    Unnamed(usize),
    /// A closing brace at this position closes nothing.
    IllegalClose(usize),
    /// Some brace is never closed.
    Unclosed,
}

/// The number of opening braces minus the number of closing braces.
pub open spec fn depth(s: Seq<char>) -> int
    decreases s.len(),
{
    if s.len() == 0 {
        0
    } else {
        depth(s.drop_last()) + if s.last() == '{' {
            1int
        } else if s.last() == '}' {
            -1int
        } else {
            0int
        }
    }
}

/// Braces are balanced: no prefix closes more than it opened, and all are closed.
pub open spec fn balanced(s: Seq<char>) -> bool {
    &&& forall|k: int| 0 <= k <= s.len() ==> depth(#[trigger] s.take(k)) >= 0
    &&& depth(s) == 0
}

/// The number spelled by the digits at the end of `s` (0 when `s` does not end in a digit).
pub open spec fn name_value(s: Seq<char>) -> int
    decreases s.len(),
{
    if s.len() == 0 {
        0
    } else if is_digit(s.last()) {
        name_value(s.drop_last()) * 10 + digit_value(s.last())
    } else {
        0
    }
}

/// What the syntax check has gathered after reading a prefix of the code.
pub struct Scan {
    /// Open braces minus closing braces.
    pub depth: int,
    /// The last character that was not a closing brace is a digit.
    pub named: bool,
    /// The problems found so far.
    pub errors: Seq<SyntaxError>,
    /// A closing brace closed nothing; the check stopped there.
    pub failed: bool,
}

/// The syntax check's reading of `s`, one character after the other.
pub open spec fn scan(s: Seq<char>) -> Scan
    decreases s.len(),
{
    if s.len() == 0 {
        Scan { depth: 0, named: false, errors: Seq::empty(), failed: false }
    } else {
        let p = scan(s.drop_last());
        let i = (s.len() - 1) as usize;
        let c = s.last();
        if p.failed {
            p
        } else if c == '{' {
            Scan {
                depth: p.depth + 1,
                named: false,
                errors: if p.named {
                    p.errors
                } else {
                    p.errors.push(SyntaxError::Unnamed(i))
                },
                failed: false,
            }
        } else if c == '}' {
            if p.depth - 1 < 0 {
                Scan {
                    depth: p.depth - 1,
                    named: p.named,
                    errors: p.errors.push(SyntaxError::IllegalClose(i)),
                    failed: true,
                }
            } else {
                Scan { depth: p.depth - 1, ..p }
            }
        } else if is_digit(c) {
            Scan { named: true, ..p }
        } else {
            Scan { named: false, ..p }
        }
    }
}

/// The counters of the check fit their machine integers on every prefix that it reads.
pub open spec fn scan_fits(s: Seq<char>) -> bool {
    forall|k: int|
        0 <= k <= s.len() && !(#[trigger] scan(s.take(k))).failed ==> name_value(s.take(k))
            <= u32::MAX && scan(s.take(k)).depth <= i32::MAX
}

/// The problems reported for `s`, and whether it passes.
pub open spec fn check_result(s: Seq<char>) -> (bool, Seq<SyntaxError>) {
    let st = scan(s);
    if st.failed {
        (false, st.errors)
    } else if st.depth == 0 {
        (true, st.errors)
    } else {
        (false, st.errors.push(SyntaxError::Unclosed))
    }
}

/// The check fails exactly where a prefix closes more braces than it opened, and otherwise
/// its depth is the count of braces.
pub proof fn lemma_scan_depth(s: Seq<char>)
    ensures
        scan(s).failed <==> exists|k: int| 0 <= k <= s.len() && depth(#[trigger] s.take(k)) < 0,
        !scan(s).failed ==> scan(s).depth == depth(s),
    decreases s.len(),
{
    if s.len() > 0 {
        let t = s.drop_last();
        lemma_scan_depth(t);
        assert(s.take(s.len() as int) =~= s);
        assert forall|k: int| 0 <= k <= t.len() implies #[trigger] t.take(k) == s.take(k) by {
            assert(t.take(k) =~= s.take(k));
        }
        if scan(t).failed {
            let k = choose|k: int| 0 <= k <= t.len() && depth(#[trigger] t.take(k)) < 0;
            assert(t.take(k) == s.take(k));
        } else {
            assert(s.drop_last() == t);
            if exists|k: int| 0 <= k <= s.len() && depth(#[trigger] s.take(k)) < 0 {
                let k = choose|k: int| 0 <= k <= s.len() && depth(#[trigger] s.take(k)) < 0;
                if k < s.len() {
                    assert(t.take(k) == s.take(k));
                }
            }
            if depth(s) < 0 {
                assert(depth(s.take(s.len() as int)) < 0);
            }
        }
    }
}

/// Once the check has stopped, reading more characters changes nothing.
pub proof fn lemma_scan_stops(s: Seq<char>, k: int)
    requires
        0 <= k <= s.len(),
        scan(s.take(k)).failed,
    ensures
        scan(s) == scan(s.take(k)),
    decreases s.len() - k,
{
    if k < s.len() {
        let u = s.take(k + 1);
        assert(u.drop_last() =~= s.take(k));
        assert(s.take(k + 1).take(k) =~= s.take(k));
        lemma_scan_stops(s, k + 1);
    } else {
        assert(s.take(k) =~= s);
    }
}

/// Checks that the braces of `code` are balanced, and lists the problems found: functions
/// without a name, a closing brace that closes nothing (the check stops there), or braces
/// left open.
pub fn code_check(code: &str) -> (r: (bool, Vec<SyntaxError>))
    requires
        code@.len() <= usize::MAX,
        scan_fits(code@),
    ensures
        (r.0, r.1@) == check_result(code@),
        r.0 == balanced(code@),
{
    let ghost s = code@;
    let mut val: i32 = 0;
    let mut name: u32 = 0;
    let mut status = false;
    let mut errors: Vec<SyntaxError> = Vec::new();
    let mut i: usize = 0;
    proof {
        assert(s.take(0) =~= Seq::<char>::empty());
        lemma_scan_depth(s);
    }
    for c in it: code.chars()
        invariant
            s == code@,
            it.seq() == s,
            i == it.index(),
            i <= s.len(),
            s.len() <= usize::MAX,
            val >= 0,
            scan_fits(s),
            !scan(s.take(i as int)).failed,
            val == scan(s.take(i as int)).depth,
            status == scan(s.take(i as int)).named,
            errors@ == scan(s.take(i as int)).errors,
            name == name_value(s.take(i as int)),
    {
        assert(i < s.len());
        let ghost t = s.take(i + 1);
        proof {
            assert(t.drop_last() =~= s.take(i as int));
            assert(t.last() == c);
        }
        if c == '{' {
            proof {
                assert(!scan(s.take(i + 1)).failed);
            }
            val += 1;
            if !status {
                errors.push(SyntaxError::Unnamed(i));
            }
            status = false;
            name = 0;
        } else if c == '}' {
            val -= 1;
            name = 0;
            if val < 0 {
                errors.push(SyntaxError::IllegalClose(i));
                proof {
                    lemma_scan_depth(t);
                    assert(s.take(i + 1) == t);
                    lemma_scan_stops(s, i + 1);
                    lemma_scan_depth(s);
                }
                return (false, errors);
            }
        } else if '0' <= c && c <= '9' {
            status = true;
            proof {
                assert(!scan(s.take(i + 1)).failed);
            }
            name = name * 10 + to_v(c) as u32;
        } else {
            status = false;
            name = 0;
        }
        i = i + 1;
    }
    proof {
        assert(s.take(i as int) =~= s);
    }
    if val == 0 {
        (true, errors)
    } else {
        errors.push(SyntaxError::Unclosed);
        (false, errors)
    }
}

/// Whether the counters of the syntax check fit their machine integers on `code`: the number
/// before a brace in 32 unsigned bits, the open braces in 32 signed bits, on every prefix that
/// the check reads.
pub fn counters_fit(code: &str) -> (b: bool)
    requires
        code@.len() <= usize::MAX,
    ensures
        b == scan_fits(code@),
{
    let ghost s = code@;
    let mut depth: i64 = 0;
    let mut name: u64 = 0;
    let mut i: usize = 0;
    proof {
        assert(s.take(0) =~= Seq::<char>::empty());
    }
    for c in it: code.chars()
        invariant
            s == code@,
            it.seq() == s,
            i == it.index(),
            i <= s.len(),
            s.len() <= usize::MAX,
            forall|k: int| 0 <= k <= i ==> !(#[trigger] scan(s.take(k))).failed,
            forall|k: int|
                0 <= k <= i ==> name_value(#[trigger] s.take(k)) <= u32::MAX && scan(
                    s.take(k),
                ).depth <= i32::MAX,
            depth == scan(s.take(i as int)).depth,
            depth >= 0,
            name == name_value(s.take(i as int)),
    {
        assert(i < s.len());
        let ghost t = s.take(i + 1);
        proof {
            assert(t.drop_last() =~= s.take(i as int));
            assert(t.last() == c);
        }
        if c == '{' {
            depth = depth + 1;
            name = 0;
        } else if c == '}' {
            name = 0;
            if depth == 0 {
                proof {
                    assert forall|k: int| 0 <= k <= s.len() && !(#[trigger] scan(s.take(k))).failed implies name_value(
                        s.take(k),
                    ) <= u32::MAX && scan(s.take(k)).depth <= i32::MAX by {
                        if k > i {
                            assert(s.take(k).take(i + 1) =~= t);
                            lemma_scan_stops(s.take(k), i + 1);
                        }
                    }
                }
                return true;
            }
            depth = depth - 1;
        } else if '0' <= c && c <= '9' {
            name = name * 10 + to_v(c) as u64;
        } else {
            name = 0;
        }
        if name > u32::MAX as u64 || depth > i32::MAX as i64 {
            proof {
                assert(s.take(i + 1) == t);
                assert(!scan(t).failed);
                assert(name == name_value(t));
                assert(depth == scan(t).depth);
                assert(!(name_value(s.take(i + 1)) <= u32::MAX && scan(s.take(i + 1)).depth
                    <= i32::MAX));
            }
            return false;
        }
        i = i + 1;
    }
    proof {
        assert forall|k: int| 0 <= k <= s.len() && !(#[trigger] scan(s.take(k))).failed implies name_value(
            s.take(k),
        ) <= u32::MAX && scan(s.take(k)).depth <= i32::MAX by {
            assert(k <= i);
        }
    }
    true
}

} // verus!
