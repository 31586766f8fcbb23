use crate::value::Value;
use vstd::prelude::*;

verus! {

/// A loaded program: its instruction bytes and its constant pool.
#[derive(Debug)]
pub struct Bytecode {
    pub code: Vec<u8>,
    pub constants: Vec<Value>,
}

impl Bytecode {
    pub fn new(code: &[u8], constants: &[Value]) -> (r: Self)
        ensures
            r.code@ == code@,
            r.constants@ == constants@,
    {
        Bytecode { code: vstd::slice::slice_to_vec(code), constants: vstd::slice::slice_to_vec(constants) }
    }
}

} // verus!
