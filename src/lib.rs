//! A grammar-based generator of well-typed, ownership-correct Cairo programs
//! for fuzzing the Cairo compiler: a type model, a scoped symbol table with
//! ownership tracking, a generation context with recursion bounds, a weighted
//! selection engine and the recursive generator that ties them together.

use vstd::prelude::*;

pub mod cairo_type;
pub mod decimal;
pub mod ident_generator;
pub mod symbol_table;
pub mod context;
pub mod random;
pub mod selection_manager;
pub mod ast;
pub mod astnode;

verus! {

} // verus!
