//! A term-level intermediate representation for bit-vector and array
//! expressions, together with the lowering pipeline of a SAT-based
//! verification engine: hash-consed term construction, algebraic
//! simplification, bit-level lowering, Tseitin CNF encoding, and a
//! three-valued concrete simulator.
#![verifier::loop_isolation(false)]
use vstd::prelude::*;

pub mod assign;
pub mod bitblast;
pub mod cnf;
pub mod dagcnf;
pub mod lbool;
pub mod litvvec;
pub mod op;
pub mod term;
pub mod simplify;
pub mod simulate;
pub mod sort;
pub mod value;

verus! {

/// A boolean variable of the CNF layer. Variable `0` is reserved for the
/// constant literals.
#[derive(Clone, Copy, PartialEq, Eq, Hash, Debug, Structural)]
pub struct Var(pub u32);

impl Var {
    /// The reserved constant variable.
    pub fn constant() -> (r: Var)
        ensures
            r.0 == 0,
    {
        Var(0)
    }

    pub fn new(x: usize) -> (r: Var)
        requires
            x <= u32::MAX,
        ensures
            r.0 == x,
    {
        Var(x as u32)
    }

    /// The positive literal of this variable.
    pub fn lit(&self) -> (r: Lit)
        requires
            self.0 < 0x8000_0000u32,
        ensures
            r == Lit::spec_new(*self, true),
    {
        let x = self.0;
        proof {
            assert(x << 1 == 2 * x) by (bit_vector)
                requires x < 0x8000_0000u32;
        }
        Lit(x << 1)
    }

    pub fn is_constant(&self) -> (r: bool)
        ensures
            r == (self.0 == 0),
    {
        self.0 == 0
    }
}

/// A literal: a variable together with a polarity, packed as
/// `2 * var + (if positive { 0 } else { 1 })`.
#[derive(Clone, Copy, PartialEq, Eq, Hash, Debug, Structural)]
pub struct Lit(pub u32);

impl Lit {
    pub open spec fn spec_new(var: Var, polarity: bool) -> Lit {
        Lit((2 * var.0 + if polarity { 0u32 } else { 1u32 }) as u32)
    }

    pub open spec fn spec_var(self) -> Var {
        Var(self.0 / 2)
    }

    pub open spec fn spec_polarity(self) -> bool {
        self.0 % 2 == 0
    }

    /// The constant-true literal (`polarity == true`) is `Lit(1)`, the
    /// negative literal of the reserved variable `0`.
    pub open spec fn spec_constant(polarity: bool) -> Lit {
        Lit(if polarity { 1u32 } else { 0u32 })
    }

    pub open spec fn spec_not(self) -> Lit {
        Lit((self.0 ^ 1u32) as u32)
    }

    pub fn new(var: Var, polarity: bool) -> (r: Lit)
        requires
            var.0 < 0x8000_0000u32,
        ensures
            r == Lit::spec_new(var, polarity),
            r.spec_var() == var,
            r.spec_polarity() == polarity,
    {
        let x = var.0 + var.0 + if polarity { 0 } else { 1 };
        let v = var.0;
        proof {
            assert(x / 2 == v && (x % 2 == 0) == polarity) by (bit_vector)
                requires x == v + v + (if polarity { 0u32 } else { 1u32 }) && v < 0x8000_0000u32;
        }
        Lit(x)
    }

    pub fn var(&self) -> (r: Var)
        ensures
            r == self.spec_var(),
    {
        let x = self.0;
        proof {
            assert(x >> 1 == x / 2) by (bit_vector);
        }
        Var(x >> 1)
    }

    pub fn polarity(&self) -> (r: bool)
        ensures
            r == self.spec_polarity(),
    {
        let x = self.0;
        proof {
            assert((x & 1 == 0) == (x % 2 == 0)) by (bit_vector);
        }
        x & 1 == 0
    }

    pub fn constant(polarity: bool) -> (r: Lit)
        ensures
            r == Lit::spec_constant(polarity),
    {
        Lit(if polarity { 1 } else { 0 })
    }

    pub fn try_constant(&self) -> (r: Option<bool>)
        ensures
            self.spec_var().0 == 0 ==> r == Some(self.spec_polarity() == false),
            self.spec_var().0 != 0 ==> r is None,
    {
        let x = self.0;
        proof {
            assert(x >> 1 == x / 2 && ((x & 1 == 1) == !(x % 2 == 0))) by (bit_vector);
        }
        if x >> 1 == 0 {
            Some(x & 1 == 1)
        } else {
            None
        }
    }

    pub fn is_constant(&self, polarity: bool) -> (r: bool)
        ensures
            r == (*self == Lit::spec_constant(polarity)),
    {
        self.0 == if polarity { 1 } else { 0 }
    }

    pub fn not(&self) -> (r: Lit)
        ensures
            r == self.spec_not(),
            r.spec_var() == self.spec_var(),
            r.spec_polarity() == !self.spec_polarity(),
    {
        let x = self.0;
        proof {
            assert((x ^ 1) / 2 == x / 2 && (((x ^ 1) % 2 == 0) == !(x % 2 == 0))) by (bit_vector);
        }
        Lit(x ^ 1)
    }

    pub fn not_if(&self, c: bool) -> (r: Lit)
        ensures
            r == if c { self.spec_not() } else { *self },
    {
        if c {
            self.not()
        } else {
            *self
        }
    }

    /// A single-literal cube.
    pub fn cube(&self) -> (r: Vec<Lit>)
        ensures
            r@ =~= seq![*self],
    {
        let mut v: Vec<Lit> = Vec::new();
        v.push(*self);
        v
    }
}


impl Lit {
    /// Rebuild the literal on the variable the map gives, keeping the
    /// polarity.
    pub fn map_var<F: Fn(Var) -> Var>(&self, map: F) -> (r: Lit)
        requires
            call_requires(map, (self.spec_var(),)),
            forall|v: Var| call_ensures(map, (self.spec_var(),), v) ==> v.0 < 0x8000_0000,
        ensures
            exists|v: Var|
                call_ensures(map, (self.spec_var(),), v) && r == Lit::spec_new(
                    v,
                    self.spec_polarity(),
                ),
    {
        let v = map(self.var());
        Lit::new(v, self.polarity())
    }

    /// Rebuild the literal on the mapped variable where the partial map is
    /// defined, keeping the polarity.
    pub fn filter_map_var<F: Fn(Var) -> Option<Var>>(&self, map: F) -> (r: Option<Lit>)
        requires
            call_requires(map, (self.spec_var(),)),
            forall|v: Option<Var>|
                call_ensures(map, (self.spec_var(),), v) ==> match v {
                    Some(w) => w.0 < 0x8000_0000,
                    None => true,
                },
        ensures
            exists|v: Option<Var>|
                call_ensures(map, (self.spec_var(),), v) && r == match v {
                    Some(w) => Some(Lit::spec_new(w, self.spec_polarity())),
                    None => None::<Lit>,
                },
    {
        match map(self.var()) {
            Some(w) => Some(Lit::new(w, self.polarity())),
            None => None,
        }
    }
}

/// An inclusive range of variables.
#[derive(Clone, Debug)]
pub struct VarRange {
    pub start: u32,
    pub end: u32,
}

impl VarRange {
    pub open spec fn spec_len(self) -> int {
        if self.start <= self.end {
            self.end - self.start + 1
        } else {
            0
        }
    }

    pub fn new_inclusive(start: Var, end: Var) -> (r: VarRange)
        ensures
            r.start == start.0,
            r.end == end.0,
    {
        VarRange { start: start.0, end: end.0 }
    }

    pub fn len(&self) -> (r: usize)
        requires
            self.spec_len() <= usize::MAX,
        ensures
            r == self.spec_len(),
    {
        if self.start <= self.end {
            (self.end - self.start) as usize + 1
        } else {
            0
        }
    }

    /// The variables of the range, in increasing order.
    pub fn to_vec(&self) -> (r: Vec<Var>)
        requires
            self.spec_len() <= usize::MAX,
        ensures
            r@.len() == self.spec_len(),
            forall|i: int| 0 <= i < r@.len() ==> r@[i] == Var((self.start + i) as u32),
    {
        let mut r: Vec<Var> = Vec::new();
        if self.start <= self.end {
            let n = (self.end - self.start) as usize + 1;
            let mut i: usize = 0;
            while i < n
                invariant
                    n == self.end - self.start + 1,
                    self.start <= self.end,
                    i <= n,
                    r@.len() == i,
                    forall|j: int| 0 <= j < i ==> r@[j] == Var((self.start + j) as u32),
                decreases n - i,
            {
                r.push(Var(self.start + i as u32));
                i += 1;
            }
        }
        r
    }
}

} // verus!
