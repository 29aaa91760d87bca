//! Log template mining with a fixed-depth prefix tree.
//!
//! A message is split into tokens ([`tokens`]). The number of its tokens and its first tokens
//! lead down a prefix tree ([`tree`]) to a few clusters, of which the most similar one
//! ([`similarity`]) takes the message in, or a new cluster is made for it ([`drain`]). Each
//! cluster has a template in which wildcards stand for what varies, and the values that a
//! message has for them can be extracted ([`wildcard`], [`json`]). Models live in a session
//! ([`session`]) and are saved to and loaded from tables ([`sql`]).
//!
//! Every function's contract is stated over views: texts are sequences of characters, and maps
//! by name are mathematical maps. [`laws`] and [`model_laws`] hold what follows from the
//! contracts for models as a whole, [`text_laws`], [`token_laws`] and [`sql_laws`] what follows
//! for texts, and [`call_laws`] and [`session_laws`] what calls and requests give.
pub mod call_laws;
pub mod drain;
pub mod entries;
pub mod json;
pub mod laws;
pub mod model_laws;
pub mod session;
pub mod session_laws;
pub mod similarity;
pub mod sql;
pub mod sql_laws;
pub mod text;
pub mod text_laws;
pub mod token_laws;
pub mod tokens;
pub mod tree;
pub mod types;
pub mod wildcard;
