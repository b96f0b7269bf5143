//! Concrete three-valued values of terms: a bit-vector value, or a sparse
//! array value keyed by element index.
use crate::lbool::{Lbool, LboolVec};
use crate::sort::Sort;
use vstd::prelude::*;

verus! {

/// The value of a term under the three-valued simulator. An array value is a
/// sparse association list from element index to element value; keys are
/// unique.
pub enum Value {
    Bv(LboolVec),
    Array(Vec<(usize, LboolVec)>),
}

impl Value {
    pub open spec fn is_bv(self) -> bool {
        self is Bv
    }

    /// The bits of a bit-vector value; the empty sequence on array values.
    pub open spec fn bv(self) -> Seq<Lbool> {
        match self {
            Value::Bv(v) => v@,
            Value::Array(_) => Seq::empty(),
        }
    }

    pub fn as_bv(&self) -> (r: Option<&LboolVec>)
        ensures
            self is Bv ==> (r is Some && r->0@ == self.bv()),
            self is Array ==> r is None,
    {
        match self {
            Value::Bv(v) => Some(v),
            Value::Array(_) => None,
        }
    }

    /// The default value of a sort: a fully-unknown vector for a bit-vector
    /// sort, an empty sparse array for an array sort.
    pub fn default_from(sort: &Sort) -> (r: Value)
        ensures
            sort is Bv ==> (r is Bv && r.bv() =~= Seq::new(
                sort.spec_size(),
                |i: int| Lbool::Unknown,
            )),
            sort is Array ==> (r is Array && match r {
                Value::Array(m) => m@.len() == 0,
                Value::Bv(_) => false,
            }),
    {
        match sort {
            Sort::Bv(w) => Value::Bv(LboolVec::from_elem(Lbool::Unknown, *w)),
            Sort::Array(_, _) => Value::Array(Vec::new()),
        }
    }

    pub fn clone(&self) -> (r: Value)
        requires
            self is Bv,
        ensures
            r is Bv && r.bv() == self.bv(),
    {
        match self {
            Value::Bv(v) => Value::Bv(v.clone()),
            Value::Array(_) => unreached(),
        }
    }
}

} // verus!
