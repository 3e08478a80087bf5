pub mod block;
pub mod conditional;
pub mod expression;
pub mod fn_decl;
pub mod ident;
pub mod instance;
pub mod literal;
pub mod loops;
pub mod matching;
pub mod parse_type;
pub mod statement;
pub mod enum_decl;
pub mod impl_decl;
pub mod structs;
pub mod macros;
pub mod program;
pub mod top_level;
