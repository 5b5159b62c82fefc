//! Ordered key-value maps with order-statistics queries (`rank`, `select`),
//! generic over any key type with a verified total order (`KeyBounds`), in
//! five interchangeable strategies behind the `SymbolTable` trait:
//! a sorted vector (`VO`), an unbalanced search tree (`ABB`), a treap (`TR`),
//! a red-black tree (`ARN`) and a 2-3 tree (`A23`).
//!
//! Beside them stand two small pieces of the pentomino tiling solver that
//! ships with these maps: its stack (`pilha`) and its board helpers (`table`).
pub mod keys;
pub mod entries;
pub mod symbol_table;
pub mod vo;
pub mod abb;
pub mod tr;
pub mod a23;
pub mod arn;
pub mod laws;
pub mod pilha;
pub mod table;

pub use a23::A23;
pub use abb::ABB;
pub use arn::ARN;
pub use laws::{replay, Answer, Op};
pub use keys::KeyBounds;
pub use symbol_table::SymbolTable;
pub use tr::{PrioritySource, TR};
pub use vo::VO;
