//! Language-agnostic names for common syntax node kinds.

use vstd::prelude::*;

verus! {

pub const IF: &'static str = "If";
pub const ELSE: &'static str = "Else";
pub const MATCH: &'static str = "Match";
pub const LOOP: &'static str = "Loop";
pub const WHILE: &'static str = "While";
pub const FOR: &'static str = "For";
pub const BREAK: &'static str = "Break";
pub const CONTINUE: &'static str = "Continue";
pub const RETURN: &'static str = "Return";
pub const FUNCTION: &'static str = "Function";
pub const STRUCT: &'static str = "Struct";
pub const ENUM: &'static str = "Enum";
pub const TRAIT: &'static str = "Trait";
pub const IMPL: &'static str = "Impl";
pub const MODULE: &'static str = "Module";
pub const CLASS: &'static str = "Class";
pub const INTERFACE: &'static str = "Interface";
pub const BLOCK: &'static str = "Block";
pub const CALL: &'static str = "Call";
pub const ASSIGN: &'static str = "Assign";
pub const LET: &'static str = "Let";
pub const CONST: &'static str = "Const";
pub const STATIC: &'static str = "Static";
pub const ATTRIBUTE: &'static str = "Attribute";
pub const COMMENT: &'static str = "Comment";

} // verus!
