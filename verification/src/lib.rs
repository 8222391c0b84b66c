//! A propositional rule-inference engine over Horn clauses.
//!
//! A knowledge base is an ordered list of [`Rule`]s: one head atom implied by a
//! conjunction of body atoms. The crate parses the bracketed text form of a
//! knowledge base and decides whether a list of goal atoms is entailed, by
//! backward chaining (goal-directed depth-first search) and by forward chaining
//! (saturation of a truth map). Both solvers are specified against the same
//! notion of entailment.

pub mod acyclic;
pub mod agreement;
pub mod backward;
pub mod diagnosis;
pub mod entail;
pub mod forward;
pub mod parser;
pub mod rule;
pub mod solved_map;
pub mod text;
pub mod vocabulary;

pub use rule::Rule;
pub use rule::RuleView;
pub use solved_map::SolvedMap;
pub use solved_map::UnknownAtom;
