//! The type resolver: turns a parsed type expression into a value of the
//! validated, closed type universe, and checks literal terms against it.

use vstd::prelude::*;

use crate::ast::{Ident, Term, Type};
use crate::errors::CompileError;

verus! {

/// The validated, closed type universe used for compile-time checking.
/// Every variable binding in a scope carries exactly one of these.
/// `Null` is deliberately absent: it is a value marker, not a type.
#[derive(Debug, PartialEq, Eq)]
pub enum ValidType {
    Number,
    Boolean,
    String,
    Array(Box<ValidType>),
}

/// What resolving a type expression yields: the root name mapped into the
/// universe, with `Array` taking exactly one recursively resolved generic
/// argument. `Null` is rejected as a declarable type, and any other root
/// name (including `Array` applied to the wrong number of arguments) is
/// unknown.
pub open spec fn spec_resolve(t: Type) -> Result<ValidType, CompileError>
    decreases t,
{
    if t.root_type@ == "Number"@ {
        Ok(ValidType::Number)
    } else if t.root_type@ == "Boolean"@ {
        Ok(ValidType::Boolean)
    } else if t.root_type@ == "String"@ {
        Ok(ValidType::String)
    } else if t.root_type@ == "Array"@ {
        if t.generics.len() == 1 {
            match spec_resolve(t.generics[0]) {
                Ok(inner) => Ok(ValidType::Array(Box::new(inner))),
                Err(e) => Err(e),
            }
        } else {
            Err(CompileError::UnknownType(t.root_type.0))
        }
    } else if t.root_type@ == "Null"@ {
        Err(CompileError::NullIsNotAType)
    } else {
        Err(CompileError::UnknownType(t.root_type.0))
    }
}

/// Whether a literal term's own kind agrees with a resolved type. An
/// array's element type is not checked beyond the variant shape; `Ident`
/// terms cannot be typed at this layer and `Null` terms have no type of
/// their own, so both are errors rather than answers.
pub open spec fn spec_same_as_term(vt: ValidType, term: Term) -> Result<bool, CompileError> {
    match term {
        Term::Number(_) => Ok(vt is Number),
        Term::String(_) => Ok(vt is String),
        Term::Boolean(_) => Ok(vt is Boolean),
        Term::Array(_) => Ok(vt is Array),
        Term::Ident(_) => Err(CompileError::UnknowableIdentType),
        Term::Null => Err(CompileError::NullHasNoType),
    }
}

/// True when a string holds exactly the given text.
pub(crate) fn text_is(s: &String, lit: &str) -> (r: bool)
    ensures
        r == (s@ == lit@),
{
    let other = String::from_str(lit);
    *s == other
}

impl ValidType {
    /// Resolve a type expression against the fixed keyword set.
    pub fn resolve(t: &Type) -> (r: Result<ValidType, CompileError>)
        ensures
            r == spec_resolve(*t),
        decreases *t,
    {
        let Ident(root) = &t.root_type;
        if text_is(root, "Number") {
            Ok(ValidType::Number)
        } else if text_is(root, "Boolean") {
            Ok(ValidType::Boolean)
        } else if text_is(root, "String") {
            Ok(ValidType::String)
        } else if text_is(root, "Array") {
            if t.generics.len() == 1 {
                match ValidType::resolve(&t.generics[0]) {
                    Ok(inner) => Ok(ValidType::Array(Box::new(inner))),
                    Err(e) => Err(e),
                }
            } else {
                Err(CompileError::UnknownType(root.clone()))
            }
        } else if text_is(root, "Null") {
            Err(CompileError::NullIsNotAType)
        } else {
            Err(CompileError::UnknownType(root.clone()))
        }
    }

    /// Check a literal term's kind against this type.
    pub fn same_as_term(&self, term: &Term) -> (r: Result<bool, CompileError>)
        ensures
            r == spec_same_as_term(*self, *term),
    {
        match term {
            Term::Number(_) => Ok(matches!(self, ValidType::Number)),
            Term::String(_) => Ok(matches!(self, ValidType::String)),
            Term::Boolean(_) => Ok(matches!(self, ValidType::Boolean)),
            Term::Array(_) => Ok(matches!(self, ValidType::Array(..))),
            Term::Ident(_) => Err(CompileError::UnknowableIdentType),
            Term::Null => Err(CompileError::NullHasNoType),
        }
    }

    /// Structural equality of two resolved types.
    pub fn same_as(&self, other: &ValidType) -> (r: bool)
        ensures
            r == (*self == *other),
        decreases *self,
    {
        match (self, other) {
            (ValidType::Number, ValidType::Number) => true,
            (ValidType::Boolean, ValidType::Boolean) => true,
            (ValidType::String, ValidType::String) => true,
            (ValidType::Array(a), ValidType::Array(b)) => (&**a).same_as(&**b),
            _ => false,
        }
    }
}

} // verus!
