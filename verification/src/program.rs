use vstd::prelude::*;

verus! {

/// An instruction pointer: a position in the code.
#[derive(Copy, Clone, Debug)]
pub struct IP(pub u32);

impl IP {
    /// Moves to the next position.
    pub fn next(&mut self)
        requires
            old(self).0 < u32::MAX,
        ensures
            final(self).0 == old(self).0 + 1,
    {
        let v = self.0;
        *self = IP(v + 1);
    }

    /// The position as an index.
    pub fn to_usize(&self) -> (r: usize)
        ensures
            r == self.0,
    {
        self.0 as usize
    }
}

/// Options of a run.
#[derive(Debug)]
pub struct Setting {
    /// Print a trace line before each instruction.
    pub debug: bool,
}

impl Setting {
    /// The default options: no trace.
    pub fn new() -> (s: Setting)
        ensures
            !s.debug,
    {
        Setting { debug: false }
    }
}

/// The number that names a function in the source.
#[derive(Copy, Clone, Debug)]
pub struct FuncName(pub u32);

/// The identity of a function: its rank among the functions of the program, in the order
/// of their opening braces.
#[derive(Copy, Clone, Debug, PartialEq, Eq, Hash, Structural)]
pub struct ID(pub u32);

/// A function of the program.
#[derive(Debug)]
pub struct Function {
    /// The bindings from names to functions visible inside the body, outermost first.
    pub env: Vec<(ID, ID)>,
    /// The position of the opening brace.
    pub ip: IP,
    /// The name written before the brace.
    pub name: FuncName,
    /// The identity of the function.
    pub id: ID,
}

/// The function that a name is bound to in a scope: the last binding of that name wins.
pub open spec fn lookup(fs: Seq<(ID, ID)>, id: ID) -> Option<ID>
    decreases fs.len(),
{
    if fs.len() == 0 {
        None
    } else if fs.last().0 == id {
        Some(fs.last().1)
    } else {
        lookup(fs.drop_last(), id)
    }
}

impl Function {
    /// A function with the given parts.
    pub fn new(env: Vec<(ID, ID)>, ip: IP, name: FuncName, id: ID) -> (f: Function)
        ensures
            f.env@ == env@,
            f.ip == ip,
            f.name == name,
            f.id == id,
    {
        let f = Function { env, ip, name, id };
        f
    }

    /// The function bound to `id` in the scope `fs`, searching from the latest binding.
    pub fn search_by_id(fs: &Vec<(ID, ID)>, id: &ID) -> (r: Option<ID>)
        ensures
            r == lookup(fs@, *id),
    {
        let mut k: usize = fs.len();
        assert(fs@.take(k as int) =~= fs@);
        while k > 0
            invariant
                k <= fs@.len(),
                lookup(fs@, *id) == lookup(fs@.take(k as int), *id),
            decreases k,
        {
            let (n, r) = fs[k - 1];
            assert(fs@.take(k as int).drop_last() =~= fs@.take(k - 1));
            if n == *id {
                return Some(r);
            }
            k = k - 1;
        }
        None
    }
}

/// Whether a character is a decimal digit.
pub open spec fn is_digit(c: char) -> bool {
    '0' <= c <= '9'
}

/// The value of the digit `c`, read from the lowest byte of its code as `to_v` reads it.
pub open spec fn digit_value(c: char) -> int {
    (c as int) % 256 - 48
}

/// The value of a digit character; any character whose lowest byte is at least that of `0`.
pub fn to_v(c: char) -> (v: i64)
    requires
        (c as int) % 256 >= 48,
    ensures
        v == digit_value(c),
{
    let b: u8 = ((c as u32) % 256) as u8;
    (b - 48u8) as i64
}

/// Nothing to prepare before a run.
pub fn initialize() {
}

} // verus!
