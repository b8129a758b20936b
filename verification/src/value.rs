use vstd::prelude::*;

verus! {

broadcast use vstd::std_specs::vec::group_vec_axioms;

/// A value on one of the stacks of the machine: an integer or a list of values.
#[derive(Debug)]
pub enum Value {
    Int(i64),
    List(Vec<Value>),
}

/// The mathematical model of a [`Value`].
pub enum Val {
    Int(i64),
    List(Seq<Val>),
}

impl Value {
    /// The model of this value: lists are read element by element.
    pub open spec fn model(self) -> Val
        decreases self, 0int,
    {
        match self {
            Value::Int(i) => Val::Int(i),
            Value::List(v) => Val::List(models(v@)),
        }
    }
}

/// The models of a sequence of values, element by element.
pub open spec fn models(s: Seq<Value>) -> Seq<Val>
    decreases s, 1int,
{
    if s.len() == 0 {
        Seq::empty()
    } else {
        models(s.drop_last()).push(s.last().model())
    }
}

/// `models` keeps the length and maps each element to its model.
pub proof fn lemma_models(s: Seq<Value>)
    ensures
        models(s).len() == s.len(),
        forall|i: int| 0 <= i < s.len() ==> #[trigger] models(s)[i] == s[i].model(),
    decreases s.len(),
{
    if s.len() > 0 {
        lemma_models(s.drop_last());
    }
}

/// Two sequences of values with the same element models have the same models.
pub proof fn lemma_models_ext(s: Seq<Value>, t: Seq<Val>)
    requires
        s.len() == t.len(),
        forall|i: int| 0 <= i < s.len() ==> #[trigger] s[i].model() == t[i],
    ensures
        models(s) == t,
{
    lemma_models(s);
    assert(models(s) =~= t);
}

/// The models of `s` with `x` pushed at the end.
pub proof fn lemma_models_push(s: Seq<Value>, x: Value)
    ensures
        models(s.push(x)) == models(s).push(x.model()),
{
    assert(s.push(x).drop_last() =~= s);
}

/// The models of `s` without its last element.
pub proof fn lemma_models_drop_last(s: Seq<Value>)
    requires
        s.len() > 0,
    ensures
        models(s.drop_last()) == models(s).drop_last(),
        models(s).last() == s.last().model(),
{
}

/// The character that a byte stands for (the code points 0 to 255).
pub open spec fn byte_char(b: int) -> char {
    b as char
}

/// The character of the decimal digit `d`.
pub open spec fn digit_char(d: int) -> char {
    (48 + d) as char
}

/// The decimal digits of a natural number, most significant first, without leading zeros.
pub open spec fn digits(n: nat) -> Seq<char>
    decreases n,
{
    if n < 10 {
        seq![digit_char(n as int)]
    } else {
        digits(n / 10) + seq![digit_char((n % 10) as int)]
    }
}

/// The decimal form of an integer, with a leading `-` when it is negative.
pub open spec fn decimal(n: int) -> Seq<char> {
    if n < 0 {
        seq!['-'] + digits((-n) as nat)
    } else {
        digits(n as nat)
    }
}

/// The text that printing a value writes: integers as decimal numbers (`numeric`) or as
/// the character of their lowest byte, lists as `[`, each item followed by `,`, then `]`.
pub open spec fn render(v: Val, numeric: bool) -> Seq<char>
    decreases v, 0int,
{
    match v {
        Val::Int(c) => if numeric {
            decimal(c as int)
        } else {
            seq![byte_char((c as int) % 256)]
        },
        Val::List(l) => seq!['['] + render_items(l, numeric) + seq![']'],
    }
}

/// Each item rendered and followed by a comma.
pub open spec fn render_items(s: Seq<Val>, numeric: bool) -> Seq<char>
    decreases s, 1int,
{
    if s.len() == 0 {
        Seq::empty()
    } else {
        render_items(s.drop_last(), numeric) + render(s.last(), numeric) + seq![',']
    }
}

/// Appends the decimal digits of `m`.
pub fn push_digits(m: u64, out: &mut Vec<char>)
    ensures
        final(out)@ == old(out)@ + digits(m as nat),
    decreases m,
{
    if m >= 10 {
        push_digits(m / 10, out);
    }
    let d: u8 = (m % 10) as u8;
    let c = (48u8 + d) as char;
    out.push(c);
    assert(final(out)@ =~= old(out)@ + digits(m as nat));
}

/// Appends the decimal form of `n`.
pub fn push_decimal(n: i64, out: &mut Vec<char>)
    ensures
        final(out)@ == old(out)@ + decimal(n as int),
{
    if n < 0 {
        out.push('-');
        let m: u64 = (-(n as i128)) as u64;
        push_digits(m, out);
        assert(final(out)@ =~= old(out)@ + decimal(n as int));
    } else {
        push_digits(n as u64, out);
    }
}

/// The lowest byte of `c`, as `(c % 256) as u8` computes it.
fn low_byte(c: i64) -> (b: u8)
    ensures
        b == c % 256,
{
    let r = c % 256;
    if r < 0 {
        (r + 256) as u8
    } else {
        r as u8
    }
}

impl Value {
    /// Appends the text of this value (see [`render`]).
    pub fn print_inner(&self, val: bool, out: &mut Vec<char>)
        ensures
            final(out)@ == old(out)@ + render(self.model(), val),
        decreases self,
    {
        match self {
            Value::Int(c) => {
                if val {
                    push_decimal(*c, out);
                } else {
                    let b = low_byte(*c);
                    out.push(b as char);
                    assert(final(out)@ =~= old(out)@ + render(self.model(), val));
                }
            },
            Value::List(l) => {
                let ghost start = out@;
                let ghost ms = models(l@);
                proof {
                    lemma_models(l@);
                }
                out.push('[');
                let mut i: usize = 0;
                while i < l.len()
                    invariant
                        i <= l.len(),
                        *self == Value::List(*l),
                        ms == models(l@),
                        ms.len() == l@.len(),
                        forall|j: int| 0 <= j < l@.len() ==> #[trigger] ms[j] == l@[j].model(),
                        out@ == start + seq!['['] + render_items(ms.take(i as int), val),
                    decreases l.len() - i,
                {
                    proof {
                        assert(decreases_to!(*self => (*self)->List_0));
                        vstd::std_specs::vec::axiom_vec_index_decreases(*l, i as int);
                        assert(decreases_to!(*l => l[i as int]));
                        assert(decreases_to!(*self => l[i as int]));
                    }
                    l[i].print_inner(val, out);
                    out.push(',');
                    proof {
                        assert(ms.take(i + 1).drop_last() =~= ms.take(i as int));
                        assert(ms.take(i + 1).last() == l@[i as int].model());
                    }
                    i = i + 1;
                    assert(out@ =~= start + seq!['['] + render_items(ms.take(i as int), val));
                }
                out.push(']');
                assert(ms.take(l.len() as int) =~= ms);
                assert(final(out)@ =~= old(out)@ + render(self.model(), val));
            },
        }
    }

    /// The text that prints this value as numbers: `1` for an integer one, `[1,2,]` for a list.
    pub fn print_val(&self) -> (text: Vec<char>)
        ensures
            text@ == render(self.model(), true),
    {
        let mut out = Vec::new();
        self.print_inner(true, &mut out);
        assert(out@ =~= render(self.model(), true));
        out
    }

    /// The text that prints this value as characters: each integer becomes the character of
    /// its lowest byte.
    pub fn print(&self) -> (text: Vec<char>)
        ensures
            text@ == render(self.model(), false),
    {
        let mut out = Vec::new();
        self.print_inner(false, &mut out);
        assert(out@ =~= render(self.model(), false));
        out
    }

    /// A deep copy of this value.
    pub fn clone(&self) -> (copy: Value)
        ensures
            copy.model() == self.model(),
        decreases self,
    {
        match self {
            Value::Int(x) => Value::Int(*x),
            Value::List(l) => {
                let mut v: Vec<Value> = Vec::new();
                let mut i: usize = 0;
                while i < l.len()
                    invariant
                        i <= l.len(),
                        *self == Value::List(*l),
                        v@.len() == i,
                        forall|j: int| 0 <= j < i ==> #[trigger] v@[j].model() == l@[j].model(),
                    decreases l.len() - i,
                {
                    proof {
                        assert(decreases_to!(*self => (*self)->List_0));
                        vstd::std_specs::vec::axiom_vec_index_decreases(*l, i as int);
                        assert(decreases_to!(*l => l[i as int]));
                        assert(decreases_to!(*self => l[i as int]));
                    }
                    let c = l[i].clone();
                    v.push(c);
                    i = i + 1;
                }
                proof {
                    lemma_models(l@);
                    lemma_models_ext(v@, models(l@));
                }
                Value::List(v)
            },
        }
    }
}

} // verus!
