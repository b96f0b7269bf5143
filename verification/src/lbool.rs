//! Three-valued scalar and vector logic values: the basis of the concrete
//! simulator and of witness extraction.
use vstd::prelude::*;

verus! {

/// A three-valued boolean: false, true, or unknown.
#[derive(Clone, Copy, PartialEq, Eq, Hash, Debug, Structural)]
pub enum Lbool {
    False,
    True,
    Unknown,
}

/// `false` is absorbing over unknown; otherwise unknown propagates.
pub open spec fn lb_and(a: Lbool, b: Lbool) -> Lbool {
    if a is False || b is False {
        Lbool::False
    } else if a is Unknown || b is Unknown {
        Lbool::Unknown
    } else {
        Lbool::True
    }
}

/// `true` is absorbing over unknown; otherwise unknown propagates.
pub open spec fn lb_or(a: Lbool, b: Lbool) -> Lbool {
    if a is True || b is True {
        Lbool::True
    } else if a is Unknown || b is Unknown {
        Lbool::Unknown
    } else {
        Lbool::False
    }
}

/// Unknown iff either input is unknown.
pub open spec fn lb_xor(a: Lbool, b: Lbool) -> Lbool {
    if a is Unknown || b is Unknown {
        Lbool::Unknown
    } else if a == b {
        Lbool::False
    } else {
        Lbool::True
    }
}

pub open spec fn lb_not(a: Lbool) -> Lbool {
    match a {
        Lbool::False => Lbool::True,
        Lbool::True => Lbool::False,
        Lbool::Unknown => Lbool::Unknown,
    }
}

pub open spec fn lb_from_bool(b: bool) -> Lbool {
    if b {
        Lbool::True
    } else {
        Lbool::False
    }
}

impl Lbool {
    pub fn is_true(self) -> (r: bool)
        ensures
            r == (self is True),
    {
        matches!(self, Lbool::True)
    }

    pub fn is_false(self) -> (r: bool)
        ensures
            r == (self is False),
    {
        matches!(self, Lbool::False)
    }

    pub fn is_none(self) -> (r: bool)
        ensures
            r == (self is Unknown),
    {
        matches!(self, Lbool::Unknown)
    }

    pub fn from_bool(b: bool) -> (r: Lbool)
        ensures
            r == lb_from_bool(b),
    {
        if b {
            Lbool::True
        } else {
            Lbool::False
        }
    }

    pub fn to_bool(self) -> (r: Option<bool>)
        ensures
            r == match self {
                Lbool::True => Some(true),
                Lbool::False => Some(false),
                Lbool::Unknown => None::<bool>,
            },
    {
        match self {
            Lbool::True => Some(true),
            Lbool::False => Some(false),
            Lbool::Unknown => None,
        }
    }

    pub fn not(self) -> (r: Lbool)
        ensures
            r == lb_not(self),
    {
        match self {
            Lbool::False => Lbool::True,
            Lbool::True => Lbool::False,
            Lbool::Unknown => Lbool::Unknown,
        }
    }

    pub fn not_if(self, x: bool) -> (r: Lbool)
        ensures
            r == if x { lb_not(self) } else { self },
    {
        if x {
            self.not()
        } else {
            self
        }
    }

    pub fn and(self, rhs: Lbool) -> (r: Lbool)
        ensures
            r == lb_and(self, rhs),
    {
        if self.is_false() || rhs.is_false() {
            Lbool::False
        } else if self.is_none() || rhs.is_none() {
            Lbool::Unknown
        } else {
            Lbool::True
        }
    }

    pub fn or(self, rhs: Lbool) -> (r: Lbool)
        ensures
            r == lb_or(self, rhs),
    {
        if self.is_true() || rhs.is_true() {
            Lbool::True
        } else if self.is_none() || rhs.is_none() {
            Lbool::Unknown
        } else {
            Lbool::False
        }
    }

    pub fn xor(self, rhs: Lbool) -> (r: Lbool)
        ensures
            r == lb_xor(self, rhs),
    {
        if self.is_none() || rhs.is_none() {
            Lbool::Unknown
        } else if self.is_true() == rhs.is_true() {
            Lbool::False
        } else {
            Lbool::True
        }
    }
}

/// Double negation is the identity.
pub proof fn lemma_lb_not_involutive(a: Lbool)
    ensures
        lb_not(lb_not(a)) == a,
{
}

/// Conjunction with a known `false` is `false`, whatever the other operand.
pub proof fn lemma_lb_and_false_absorbs(a: Lbool)
    ensures
        lb_and(a, Lbool::False) == Lbool::False,
        lb_and(Lbool::False, a) == Lbool::False,
{
}

/// Disjunction with a known `true` is `true`, whatever the other operand.
pub proof fn lemma_lb_or_true_absorbs(a: Lbool)
    ensures
        lb_or(a, Lbool::True) == Lbool::True,
        lb_or(Lbool::True, a) == Lbool::True,
{
}

/// A width-`w` vector of three-valued bits; a position is either known
/// (`False`/`True`) or unknown. Index 0 is the least significant bit.
/// Two vectors are equal only if they are unknown at exactly the same
/// positions and agree on every known position.
pub struct LboolVec {
    bits: Vec<Lbool>,
}

impl View for LboolVec {
    type V = Seq<Lbool>;

    closed spec fn view(&self) -> Seq<Lbool> {
        self.bits@
    }
}

impl LboolVec {
    pub fn new() -> (r: LboolVec)
        ensures
            r@ =~= Seq::<Lbool>::empty(),
    {
        LboolVec { bits: Vec::new() }
    }

    pub fn from_elem(x: Lbool, len: usize) -> (r: LboolVec)
        ensures
            r@ =~= Seq::new(len as nat, |i: int| x),
    {
        let mut bits: Vec<Lbool> = Vec::new();
        let mut i: usize = 0;
        while i < len
            invariant
                i <= len,
                bits@.len() == i,
                forall|j: int| 0 <= j < i ==> bits@[j] == x,
            decreases len - i,
        {
            bits.push(x);
            i += 1;
        }
        LboolVec { bits }
    }

    pub fn len(&self) -> (r: usize)
        ensures
            r == self@.len(),
    {
        self.bits.len()
    }

    pub fn is_empty(&self) -> (r: bool)
        ensures
            r == (self@.len() == 0),
    {
        self.len() == 0
    }

    /// Whether every position is unknown.
    pub fn all_x(&self) -> (r: bool)
        ensures
            r == forall|i: int| 0 <= i < self@.len() ==> self@[i] is Unknown,
    {
        let n = self.bits.len();
        let mut i: usize = 0;
        while i < n
            invariant
                n == self@.len(),
                i <= n,
                forall|j: int| 0 <= j < i ==> self@[j] is Unknown,
            decreases n - i,
        {
            if !matches!(self.bits[i], Lbool::Unknown) {
                return false;
            }
            i += 1;
        }
        true
    }

    /// The value bits where the position is known; `false` elsewhere.
    pub fn get_masked(&self) -> (r: Vec<bool>)
        ensures
            r@.len() == self@.len(),
            forall|i: int| 0 <= i < r@.len() ==> r@[i] == (self@[i] is True),
    {
        let n = self.bits.len();
        let mut r: Vec<bool> = Vec::new();
        let mut i: usize = 0;
        while i < n
            invariant
                n == self@.len(),
                i <= n,
                r@.len() == i,
                forall|j: int| 0 <= j < i ==> r@[j] == (self@[j] is True),
            decreases n - i,
        {
            r.push(matches!(self.bits[i], Lbool::True));
            i += 1;
        }
        r
    }

    /// The mask bits: set exactly where the position is known.
    pub fn mask(&self) -> (r: Vec<bool>)
        ensures
            r@.len() == self@.len(),
            forall|i: int| 0 <= i < r@.len() ==> r@[i] == !(self@[i] is Unknown),
    {
        let n = self.bits.len();
        let mut r: Vec<bool> = Vec::new();
        let mut i: usize = 0;
        while i < n
            invariant
                n == self@.len(),
                i <= n,
                r@.len() == i,
                forall|j: int| 0 <= j < i ==> r@[j] == !(self@[j] is Unknown),
            decreases n - i,
        {
            r.push(!matches!(self.bits[i], Lbool::Unknown));
            i += 1;
        }
        r
    }

    pub fn get(&self, idx: usize) -> (r: Lbool)
        requires
            idx < self@.len(),
        ensures
            r == self@[idx as int],
    {
        self.bits[idx]
    }

    pub fn set(&mut self, idx: usize, x: Lbool)
        requires
            idx < old(self)@.len(),
        ensures
            final(self)@ =~= old(self)@.update(idx as int, x),
    {
        self.bits.set(idx, x);
    }

    pub fn set_bool(&mut self, idx: usize, x: bool)
        requires
            idx < old(self)@.len(),
        ensures
            final(self)@ =~= old(self)@.update(idx as int, lb_from_bool(x)),
    {
        self.set(idx, Lbool::from_bool(x));
    }

    pub fn push(&mut self, x: Lbool)
        ensures
            final(self)@ =~= old(self)@.push(x),
    {
        self.bits.push(x);
    }

    /// Build a fully-known vector from plain bits.
    pub fn from_bools(bits: &Vec<bool>) -> (r: LboolVec)
        ensures
            r@ =~= Seq::new(bits@.len(), |i: int| lb_from_bool(bits@[i])),
    {
        let mut r = LboolVec::new();
        let mut i: usize = 0;
        while i < bits.len()
            invariant
                i <= bits@.len(),
                r@.len() == i,
                forall|j: int| 0 <= j < i ==> r@[j] == lb_from_bool(bits@[j]),
            decreases bits@.len() - i,
        {
            r.push(Lbool::from_bool(bits[i]));
            i += 1;
        }
        r
    }

    /// Elementwise conjunction.
    pub fn and(&self, rhs: &LboolVec) -> (r: LboolVec)
        requires
            self@.len() == rhs@.len(),
        ensures
            r@ =~= Seq::new(self@.len(), |i: int| lb_and(self@[i], rhs@[i])),
    {
        let n = self.len();
        let mut r = LboolVec::new();
        let mut i: usize = 0;
        while i < n
            invariant
                n == self@.len(),
                self@.len() == rhs@.len(),
                i <= n,
                r@.len() == i,
                forall|j: int| 0 <= j < i ==> r@[j] == lb_and(self@[j], rhs@[j]),
            decreases n - i,
        {
            r.push(self.get(i).and(rhs.get(i)));
            i += 1;
        }
        r
    }

    /// Elementwise disjunction.
    pub fn or(&self, rhs: &LboolVec) -> (r: LboolVec)
        requires
            self@.len() == rhs@.len(),
        ensures
            r@ =~= Seq::new(self@.len(), |i: int| lb_or(self@[i], rhs@[i])),
    {
        let n = self.len();
        let mut r = LboolVec::new();
        let mut i: usize = 0;
        while i < n
            invariant
                n == self@.len(),
                self@.len() == rhs@.len(),
                i <= n,
                r@.len() == i,
                forall|j: int| 0 <= j < i ==> r@[j] == lb_or(self@[j], rhs@[j]),
            decreases n - i,
        {
            r.push(self.get(i).or(rhs.get(i)));
            i += 1;
        }
        r
    }

    /// Elementwise exclusive or.
    pub fn xor(&self, rhs: &LboolVec) -> (r: LboolVec)
        requires
            self@.len() == rhs@.len(),
        ensures
            r@ =~= Seq::new(self@.len(), |i: int| lb_xor(self@[i], rhs@[i])),
    {
        let n = self.len();
        let mut r = LboolVec::new();
        let mut i: usize = 0;
        while i < n
            invariant
                n == self@.len(),
                self@.len() == rhs@.len(),
                i <= n,
                r@.len() == i,
                forall|j: int| 0 <= j < i ==> r@[j] == lb_xor(self@[j], rhs@[j]),
            decreases n - i,
        {
            r.push(self.get(i).xor(rhs.get(i)));
            i += 1;
        }
        r
    }

    /// Elementwise negation.
    pub fn not(&self) -> (r: LboolVec)
        ensures
            r@ =~= Seq::new(self@.len(), |i: int| lb_not(self@[i])),
    {
        let n = self.len();
        let mut r = LboolVec::new();
        let mut i: usize = 0;
        while i < n
            invariant
                n == self@.len(),
                i <= n,
                r@.len() == i,
                forall|j: int| 0 <= j < i ==> r@[j] == lb_not(self@[j]),
            decreases n - i,
        {
            r.push(self.get(i).not());
            i += 1;
        }
        r
    }

    pub fn clone(&self) -> (r: LboolVec)
        ensures
            r@ =~= self@,
    {
        let n = self.bits.len();
        let mut bits: Vec<Lbool> = Vec::new();
        let mut i: usize = 0;
        while i < n
            invariant
                n == self.bits@.len(),
                i <= n,
                bits@ =~= self.bits@.take(i as int),
            decreases n - i,
        {
            bits.push(self.bits[i]);
            i += 1;
        }
        assert(bits@ =~= self.bits@);
        LboolVec { bits }
    }

    /// Structural equality: two vectors are equal only if the masks match
    /// exactly and the values agree on every masked position.
    pub fn equal(&self, other: &LboolVec) -> (r: bool)
        ensures
            r == (self@ =~= other@),
    {
        let n = self.len();
        if n != other.len() {
            return false;
        }
        let mut i: usize = 0;
        while i < n
            invariant
                n == self@.len(),
                n == other@.len(),
                i <= n,
                forall|j: int| 0 <= j < i ==> self@[j] == other@[j],
            decreases n - i,
        {
            let a = self.get(i);
            let b = other.get(i);
            if !lbool_eq(a, b) {
                return false;
            }
            i += 1;
        }
        true
    }
}

fn lbool_eq(a: Lbool, b: Lbool) -> (r: bool)
    ensures
        r == (a == b),
{
    match (a, b) {
        (Lbool::False, Lbool::False) => true,
        (Lbool::True, Lbool::True) => true,
        (Lbool::Unknown, Lbool::Unknown) => true,
        _ => false,
    }
}

impl PartialEq for LboolVec {
    fn eq(&self, other: &LboolVec) -> (r: bool) {
        self.equal(other)
    }
}

impl Eq for LboolVec {}

impl vstd::std_specs::cmp::PartialEqSpecImpl for LboolVec {
    open spec fn obeys_eq_spec() -> bool {
        true
    }

    open spec fn eq_spec(&self, other: &LboolVec) -> bool {
        self@ == other@
    }
}

/// Two vectors with equal length whose masks differ somewhere are unequal,
/// whatever their value bits hold.
pub proof fn lemma_lbv_eq_needs_same_mask(a: Seq<Lbool>, b: Seq<Lbool>, i: int)
    requires
        a.len() == b.len(),
        0 <= i < a.len(),
        (a[i] is Unknown) != (b[i] is Unknown),
    ensures
        a != b,
{
    assert(a[i] != b[i]);
}

/// The character of one three-valued bit in a literal string.
pub open spec fn lbool_char(b: Lbool) -> char {
    match b {
        Lbool::True => '1',
        Lbool::False => '0',
        Lbool::Unknown => 'x',
    }
}

pub open spec fn lit_char_valid(c: char) -> bool {
    c == '0' || c == '1' || c == 'x' || c == 'X'
}

pub open spec fn char_lbool(c: char) -> Lbool {
    if c == '1' {
        Lbool::True
    } else if c == '0' {
        Lbool::False
    } else {
        Lbool::Unknown
    }
}

/// Reading a literal string: the leftmost character is the most significant
/// bit, so character `i` gives bit `len - 1 - i`.
pub open spec fn parse_lit(s: Seq<char>) -> Seq<Lbool> {
    Seq::new(s.len(), |i: int| char_lbool(s[s.len() - 1 - i]))
}

/// Formatting a vector as a literal string, most significant bit first.
pub open spec fn lit_of(v: Seq<Lbool>) -> Seq<char> {
    Seq::new(v.len(), |i: int| lbool_char(v[v.len() - 1 - i]))
}

/// Parsing inverts formatting exactly.
pub proof fn lemma_lit_round_trip(v: Seq<Lbool>)
    ensures
        parse_lit(lit_of(v)) =~= v,
{
}

/// Formatting inverts parsing on strings that use only `0`, `1` and
/// lowercase `x` (an uppercase `X` reads back as lowercase).
pub proof fn lemma_lit_round_trip_str(s: Seq<char>)
    requires
        forall|i: int| 0 <= i < s.len() ==> (s[i] == '0' || s[i] == '1' || s[i] == 'x'),
    ensures
        lit_of(parse_lit(s)) =~= s,
{
}

impl LboolVec {
    /// Parse a literal string of `0`, `1`, `x`/`X`, most significant bit
    /// first.
    pub fn from_lit_str(s: &str) -> (r: LboolVec)
        requires
            forall|i: int| 0 <= i < s@.len() ==> lit_char_valid(s@[i]),
        ensures
            r@ =~= parse_lit(s@),
    {
        let n = s.unicode_len();
        let mut r = LboolVec::new();
        let mut i: usize = 0;
        // walk the string from its last character towards the first, pushing
        // the least significant bit first
        while i < n
            invariant
                n == s@.len(),
                i <= n,
                forall|k: int| 0 <= k < s@.len() ==> lit_char_valid(s@[k]),
                r@.len() == i,
                forall|j: int| 0 <= j < i ==> r@[j] == char_lbool(s@[n - 1 - j]),
            decreases n - i,
        {
            let c = s.get_char(n - 1 - i);
            let b = if c == '1' {
                Lbool::True
            } else if c == '0' {
                Lbool::False
            } else {
                Lbool::Unknown
            };
            r.push(b);
            i += 1;
        }
        r
    }

    /// Format as a literal string, most significant bit first; this is the
    /// exact inverse of `from_lit_str`.
    pub fn to_lit_string(&self) -> (r: String)
        ensures
            r@ =~= lit_of(self@),
    {
        let n = self.len();
        let mut r = String::new();
        let mut i: usize = 0;
        proof {
            reveal_strlit("0");
            reveal_strlit("1");
            reveal_strlit("x");
        }
        while i < n
            invariant
                n == self@.len(),
                i <= n,
                r@.len() == i,
                forall|j: int| 0 <= j < i ==> r@[j] == lbool_char(self@[n - 1 - j]),
            decreases n - i,
        {
            proof {
                reveal_strlit("0");
                reveal_strlit("1");
                reveal_strlit("x");
            }
            match self.get(n - 1 - i) {
                Lbool::True => r.append("1"),
                Lbool::False => r.append("0"),
                Lbool::Unknown => r.append("x"),
            }
            i += 1;
        }
        r
    }
}

} // verus!
