use vstd::prelude::*;
use crate::program::{ID, IP, FuncName, Function, to_v};
use crate::syntax::{depth, name_value};

verus! {

/// The model of a [`Function`].
pub struct FnModel {
    pub env: Seq<(ID, ID)>,
    pub ip: IP,
    pub name: FuncName,
    pub id: ID,
}

impl Function {
    /// The model of this function: its scope as a sequence.
    pub open spec fn model(self) -> FnModel {
        FnModel { env: self.env@, ip: self.ip, name: self.name, id: self.id }
    }
}

/// The models of a sequence of functions.
pub open spec fn fn_models(fs: Seq<Function>) -> Seq<FnModel> {
    fs.map_values(|f: Function| f.model())
}

/// The views of a sequence of scope levels.
pub open spec fn level_views(ls: Seq<Vec<(ID, ID)>>) -> Seq<Seq<(ID, ID)>> {
    ls.map_values(|l: Vec<(ID, ID)>| l@)
}

/// What the collection of functions has gathered after reading a prefix of the code.
pub struct Collect {
    /// The bindings made at each open nesting level, outermost first.
    pub levels: Seq<Seq<(ID, ID)>>,
    /// The functions found so far, by identity.
    pub funcs: Seq<FnModel>,
    /// The identities of the functions whose body is still open, innermost last.
    pub open: Seq<ID>,
}

/// The collection of functions of `s`, one character after the other: an opening brace
/// binds the name written before it, in the current level, to a new function and opens a
/// level; a closing brace gives the innermost open function, as its scope, all the bindings
/// of the open levels, outermost first, and closes the level.
pub open spec fn collect(s: Seq<char>) -> Collect
    decreases s.len(),
{
    if s.len() == 0 {
        Collect { levels: seq![Seq::empty()], funcs: Seq::empty(), open: Seq::empty() }
    } else {
        let p = collect(s.drop_last());
        let t = s.drop_last();
        let i = s.len() - 1;
        let c = s.last();
        if c == '{' {
            let id = ID(p.funcs.len() as u32);
            let name = FuncName(name_value(t) as u32);
            let top = p.levels.len() - 1;
            Collect {
                levels: p.levels.update(top, p.levels[top].push((ID(name.0), id))).push(
                    Seq::empty(),
                ),
                funcs: p.funcs.push(FnModel { env: Seq::empty(), ip: IP(i as u32), name, id }),
                open: p.open.push(id),
            }
        } else if c == '}' {
            let id = p.open.last();
            let f = p.funcs[id.0 as int];
            Collect {
                levels: p.levels.drop_last(),
                funcs: p.funcs.update(id.0 as int, FnModel { env: p.levels.flatten_alt(), ..f }),
                open: p.open.drop_last(),
            }
        } else {
            p
        }
    }
}

/// The number of opening braces.
pub open spec fn opens(s: Seq<char>) -> int
    decreases s.len(),
{
    if s.len() == 0 {
        0
    } else {
        opens(s.drop_last()) + if s.last() == '{' {
            1int
        } else {
            0int
        }
    }
}

/// What the collection can be run on: no prefix closes more braces than it opened or opens
/// more than fit in 32 signed bits, the numbers before braces fit in 32 unsigned bits, and so
/// does the number of functions.
pub open spec fn collectable(s: Seq<char>) -> bool {
    &&& forall|k: int| 0 <= k <= s.len() ==> 0 <= depth(#[trigger] s.take(k)) <= i32::MAX
    &&& forall|k: int| 0 <= k <= s.len() ==> name_value(#[trigger] s.take(k)) <= u32::MAX
    &&& opens(s) <= u32::MAX
}

/// The shape of the collection: one level per open function plus the outermost one,
/// functions numbered in order, open functions among them.
pub open spec fn collect_wf(c: Collect, s: Seq<char>) -> bool {
    &&& c.levels.len() == c.open.len() + 1
    &&& c.open.len() == depth(s)
    &&& c.funcs.len() == opens(s)
    &&& forall|j: int| 0 <= j < c.funcs.len() ==> (#[trigger] c.funcs[j]).id == ID(j as u32)
    &&& forall|j: int| 0 <= j < c.open.len() ==> (#[trigger] c.open[j]).0 < c.funcs.len()
}

pub proof fn lemma_collect_wf(s: Seq<char>)
    requires
        forall|k: int| 0 <= k <= s.len() ==> depth(#[trigger] s.take(k)) >= 0,
        opens(s) <= u32::MAX,
    ensures
        collect_wf(collect(s), s),
    decreases s.len(),
{
    if s.len() > 0 {
        let t = s.drop_last();
        assert forall|k: int| 0 <= k <= t.len() implies depth(#[trigger] t.take(k)) >= 0 by {
            assert(t.take(k) =~= s.take(k));
        }
        lemma_collect_wf(t);
        assert(s.take(s.len() as int) =~= s);
        let p = collect(t);
        let c = collect(s);
        if s.last() == '{' {
            assert forall|j: int| 0 <= j < c.funcs.len() implies (#[trigger] c.funcs[j]).id == ID(
                j as u32,
            ) by {
                if j < p.funcs.len() {
                    assert(c.funcs[j] == p.funcs[j]);
                }
            }
            assert forall|j: int| 0 <= j < c.open.len() implies (#[trigger] c.open[j]).0
                < c.funcs.len() by {
                if j < p.open.len() {
                    assert(c.open[j] == p.open[j]);
                }
            }
        } else if s.last() == '}' {
            assert(depth(s) >= 0);
            assert(p.open.len() > 0);
            let id = p.open.last();
            assert(p.open[p.open.len() - 1] == id);
            assert forall|j: int| 0 <= j < c.funcs.len() implies (#[trigger] c.funcs[j]).id == ID(
                j as u32,
            ) by {
                assert(p.funcs[j].id == ID(j as u32));
            }
            assert forall|j: int| 0 <= j < c.open.len() implies (#[trigger] c.open[j]).0
                < c.funcs.len() by {
                assert(c.open[j] == p.open[j]);
            }
        }
    }
}

pub proof fn lemma_opens_prefix(s: Seq<char>, i: int)
    requires
        0 <= i <= s.len(),
    ensures
        opens(s.take(i)) <= opens(s),
    decreases s.len() - i,
{
    if i < s.len() {
        lemma_opens_prefix(s, i + 1);
        assert(s.take(i + 1).drop_last() =~= s.take(i));
    } else {
        assert(s.take(i) =~= s);
    }
}

/// The bindings of all levels, outermost first.
fn flatten_levels(env: &Vec<Vec<(ID, ID)>>) -> (v: Vec<(ID, ID)>)
    ensures
        v@ == level_views(env@).flatten_alt(),
{
    let ghost ls = level_views(env@);
    let mut v: Vec<(ID, ID)> = Vec::new();
    let mut a: usize = 0;
    assert(ls.take(0) =~= Seq::<Seq<(ID, ID)>>::empty());
    while a < env.len()
        invariant
            a <= env@.len(),
            ls == level_views(env@),
            v@ == ls.take(a as int).flatten_alt(),
        decreases env.len() - a,
    {
        let level = &env[a];
        let ghost before = v@;
        let mut b: usize = 0;
        while b < level.len()
            invariant
                b <= level@.len(),
                v@ == before + level@.take(b as int),
            decreases level.len() - b,
        {
            v.push(level[b]);
            b = b + 1;
            assert(v@ =~= before + level@.take(b as int));
        }
        assert(level@.take(b as int) =~= level@);
        assert(ls.take(a + 1).drop_last() =~= ls.take(a as int));
        assert(ls.take(a + 1).last() == level@);
        a = a + 1;
    }
    assert(ls.take(a as int) =~= ls);
    v
}

/// Finds the functions of `code`, in the order of their opening braces, and the outermost
/// scope. Each function records the position of its brace, the name written before it and
/// the bindings visible at its closing brace (see [`collect`]).
pub fn collect_functions(code: &str) -> (r: (Vec<Function>, Vec<(ID, ID)>))
    requires
        code@.len() <= usize::MAX,
        collectable(code@),
    ensures
        fn_models(r.0@) == collect(code@).funcs,
        r.1@ == collect(code@).levels.last(),
        r.0@.len() == opens(code@),
        forall|k: int| 0 <= k < r.0@.len() ==> (#[trigger] r.0@[k]).id == ID(k as u32),
{
    let ghost s = code@;
    let mut val: u32 = 0;
    let mut env: Vec<Vec<(ID, ID)>> = Vec::new();
    let mut ret: Vec<Function> = Vec::new();
    let mut id: u32 = 0;
    let mut memo: Vec<ID> = Vec::new();
    let mut nest: i32 = 0;
    env.push(Vec::new());
    let mut i: usize = 0;
    proof {
        assert(s.take(0) =~= Seq::<char>::empty());
        assert(level_views(env@) =~= seq![Seq::<(ID, ID)>::empty()]);
        assert(fn_models(ret@) =~= Seq::<FnModel>::empty());
    }
    for c in it: code.chars()
        invariant
            s == code@,
            it.seq() == s,
            i == it.index(),
            i <= s.len(),
            s.len() <= usize::MAX,
            collectable(s),
            collect_wf(collect(s.take(i as int)), s.take(i as int)),
            level_views(env@) == collect(s.take(i as int)).levels,
            fn_models(ret@) == collect(s.take(i as int)).funcs,
            memo@ == collect(s.take(i as int)).open,
            id == ret@.len(),
            val == name_value(s.take(i as int)),
            nest == depth(s.take(i as int)),
    {
        assert(i < s.len());
        let ghost t = s.take(i + 1);
        let ghost p = collect(s.take(i as int));
        proof {
            assert(t.drop_last() =~= s.take(i as int));
            assert(t.last() == c);
            assert forall|k: int| 0 <= k <= t.len() implies depth(#[trigger] t.take(k)) >= 0 by {
                assert(t.take(k) =~= s.take(k));
            }
            lemma_opens_prefix(s, i + 1);
            lemma_collect_wf(t);
            assert(name_value(s.take(i + 1)) <= u32::MAX);
        }
        if c == '{' {
            let mut top = env.pop().unwrap();
            top.push((ID(val), ID(id)));
            env.push(top);
            let fun = Function::new(Vec::new(), IP(i as u32), FuncName(val), ID(id));
            ret.push(fun);
            memo.push(ID(id));
            env.push(Vec::new());
            id += 1;
            val = 0;
            nest += 1;
            proof {
                let q = collect(t);
                assert(level_views(env@) =~= q.levels);
                assert(fn_models(ret@) =~= q.funcs);
            }
        } else if c == '}' {
            let v = flatten_levels(&env);
            let fid = memo.pop().unwrap();
            let k = fid.0 as usize;
            let ip = ret[k].ip;
            let name = ret[k].name;
            let own = ret[k].id;
            ret.set(k, Function { env: v, ip, name, id: own });
            env.pop();
            val = 0;
            nest -= 1;
            proof {
                let q = collect(t);
                assert(p.open[p.open.len() - 1] == fid);
                assert(level_views(env@) =~= q.levels);
                assert(fn_models(ret@) =~= q.funcs);
            }
        } else if '0' <= c && c <= '9' {
            val = val * 10 + to_v(c) as u32;
        } else {
            val = 0;
        }
        i = i + 1;
    }
    proof {
        assert(s.take(i as int) =~= s);
    }
    let ghost lv = level_views(env@);
    let global = env.pop().unwrap();
    proof {
        assert(lv[lv.len() - 1] == global@);
        assert forall|k: int| 0 <= k < ret@.len() implies (#[trigger] ret@[k]).id == ID(k as u32) by {
            assert(fn_models(ret@)[k] == ret@[k].model());
        }
    }
    (ret, global)
}

} // verus!
