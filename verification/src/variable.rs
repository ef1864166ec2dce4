//! The values that variables hold.

use vstd::prelude::*;

verus! {

/// The value of a variable.
#[derive(Debug, PartialEq)]
pub enum Variable {
    /// A text.
    Text(String),
    /// A 32-bit signed integer.
    Integer(i32),
    /// A 32-bit binary floating-point number, held as its IEEE 754 bit
    /// pattern.
    Decimal(u32),
    /// A truth value.
    Boolean(bool),
}

impl Clone for Variable {
    fn clone(&self) -> (copy: Self)
        ensures
            copy == *self,
    {
        match self {
            Variable::Text(s) => Variable::Text(s.clone()),
            Variable::Integer(n) => Variable::Integer(*n),
            Variable::Decimal(bits) => Variable::Decimal(*bits),
            Variable::Boolean(b) => Variable::Boolean(*b),
        }
    }
}

} // verus!
