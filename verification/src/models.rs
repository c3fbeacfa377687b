pub mod class_graph;
pub mod digraph;
pub mod edge;
pub mod expressions;
pub mod label;
pub mod model_characteristics;
pub mod model_clock;
pub mod model_context;
pub mod model_solving_graph;
pub mod model_var;
pub mod naming_context;
pub mod node;

pub use edge::Edge;
pub use label::{lbl, Label};
use model_characteristics::{
    characteristics_label, characteristics_text, has_characteristic, ModelCharacteristics, STOCHASTIC,
    TIMED,
};
use vstd::string::StringExecFns;
use vstd::prelude::*;

verus! {

/// Failure to compile a model against a context.
#[derive(Debug, Clone)]
pub struct CompilationError;

/// Outcome of compiling a model against a context.
pub type CompilationResult<T> = Result<T, CompilationError>;

/// Description of a model semantics: its name, a description and its flags.
#[derive(Debug, Clone, PartialEq)]
pub struct ModelMeta {
    pub name: Label,
    pub description: String,
    pub characteristics: ModelCharacteristics,
}

impl ModelMeta {
    pub fn is_timed(&self) -> (r: bool)
        ensures
            r == (self.characteristics & TIMED != 0),
    {
        has_characteristic(self.characteristics, TIMED)
    }

    /// The description as it is printed: name, description and flags, one to a line.
    pub fn to_text(&self) -> (s: String)
        ensures
            s@ == " [.] Model ("@ + self.name@ + ")\n | Description : \n | "@ + self.description@
                + "\n | Characteristics : "@ + characteristics_text(self.characteristics),
    {
        let mut s = " [.] Model (".to_owned();
        s.append(self.name.as_str());
        s.append(")\n | Description : \n | ");
        s.append(self.description.as_str());
        s.append("\n | Characteristics : ");
        let flags = characteristics_label(self.characteristics);
        s.append(flags.as_str());
        s
    }

    pub fn is_stochastic(&self) -> (r: bool)
        ensures
            r == (self.characteristics & STOCHASTIC != 0),
    {
        has_characteristic(self.characteristics, STOCHASTIC)
    }
}

} // verus!
