//! The program model: variables, lexical scopes and derived types.

use vstd::prelude::*;
use crate::table::NameMap;

verus! {

/// A named storage location bound to a type. `offset` is relative to the
/// frame base for locals and parameters, and to the start of the enclosing
/// structure for members. `ty_name` is a primitive name, a key of the type
/// table, `"*"` for a pointer of unknown pointee type, or empty when the
/// type could not be resolved.
#[derive(Clone, Debug)]
pub struct Variable {
    pub name: String,
    pub offset: i64,
    pub ty_name: String,
}

impl Variable {
    /// A copy that holds the same text.
    pub fn duplicate(&self) -> (r: Variable)
        ensures
            r == *self,
    {
        Variable { name: self.name.clone(), offset: self.offset, ty_name: self.ty_name.clone() }
    }
}

/// A lexical region: a compilation unit, a function or a block. The region
/// holds the instruction addresses `a` with `low_pc <= a` and
/// `a - low_pc <= high_pc`.
pub struct Scope {
    pub name: Option<String>,
    pub variables: NameMap<Variable>,
    pub scopes: Vec<Scope>,
    pub low_pc: u64,
    pub high_pc: u64,
}

/// A typedef, a structure or a pointer type. A structure lists its members
/// with their byte offsets; the others name the type they stand for.
#[derive(Debug)]
pub struct DerivedType {
    pub name: String,
    pub base_type: String,
    pub members: Vec<Variable>,
}

/// Derived types by name.
pub type TypeTable = NameMap<DerivedType>;

} // verus!
