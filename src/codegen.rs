//! Options for generating Rust definitions out of a TL schema.
use vstd::prelude::*;

verus! {

/// Which optional items the schema code generator emits.
pub struct Config {
    pub gen_name_for_id: bool,
    pub deserializable_functions: bool,
    pub impl_debug: bool,
    pub impl_from_type: bool,
    pub impl_from_enum: bool,
}

impl Default for Config {
    fn default() -> (r: Self)
        ensures
            !r.gen_name_for_id,
            !r.deserializable_functions,
            r.impl_debug,
            r.impl_from_type,
            r.impl_from_enum,
    {
        Self {
            gen_name_for_id: false,
            deserializable_functions: false,
            impl_debug: true,
            impl_from_type: true,
            impl_from_enum: true,
        }
    }
}

} // verus!
