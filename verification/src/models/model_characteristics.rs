use vstd::prelude::*;
use vstd::string::StringExecFns;

use super::label::{lbl, Label};

verus! {

/// Flags describing the semantics of a model.
pub type ModelCharacteristics = u16;

pub const NONE: ModelCharacteristics = 0;

pub const TIMED: ModelCharacteristics = 1;

pub const CONTROLLABLE: ModelCharacteristics = 2;

pub const STOCHASTIC: ModelCharacteristics = 4;

pub const SYMBOLIC: ModelCharacteristics = 8;

/// `parts` put one after the other, with `sep` between two of them.
pub open spec fn joined(parts: Seq<Seq<char>>, sep: Seq<char>) -> Seq<char>
    decreases parts.len(),
{
    if parts.len() == 0 {
        Seq::empty()
    } else if parts.len() == 1 {
        parts[0]
    } else {
        joined(parts.drop_last(), sep) + sep + parts.last()
    }
}

/// `parts` joined into one string with `sep` between two of them.
pub(crate) fn join_parts(parts: &Vec<&str>, sep: &str) -> (r: String)
    ensures
        r@ == joined(parts@.map_values(|p: &str| p@), sep@),
{
    let ghost views = parts@.map_values(|p: &str| p@);
    let mut r = String::new();
    let mut i: usize = 0;
    while i < parts.len()
        invariant
            i <= parts@.len(),
            views == parts@.map_values(|p: &str| p@),
            r@ == joined(views.take(i as int), sep@),
        decreases parts@.len() - i,
    {
        proof {
            assert(views.take(i + 1).drop_last() =~= views.take(i as int));
            assert(views.take(i + 1).last() == parts@[i as int]@);
        }
        if i > 0 {
            r.append(sep);
        }
        r.append(parts[i]);
        i = i + 1;
    }
    assert(views.take(parts@.len() as int) =~= views);
    r
}

/// Whether the flags `model` hold one of the flags of `characteristic`.
pub fn has_characteristic(
    model_characteristics: ModelCharacteristics,
    characteristic: ModelCharacteristics,
) -> (r: bool)
    ensures
        r == (model_characteristics & characteristic != 0),
{
    (model_characteristics & characteristic) != 0
}

/// The names of the flags held by `model`, in the order timed, controllable, stochastic, symbolic.
pub open spec fn characteristic_names(model: ModelCharacteristics) -> Seq<Seq<char>> {
    (if model & TIMED != 0 {
        seq!["Timed"@]
    } else {
        Seq::empty()
    }) + (if model & CONTROLLABLE != 0 {
        seq!["Controllable"@]
    } else {
        Seq::empty()
    }) + (if model & STOCHASTIC != 0 {
        seq!["Stochastic"@]
    } else {
        Seq::empty()
    }) + (if model & SYMBOLIC != 0 {
        seq!["Symbolic"@]
    } else {
        Seq::empty()
    })
}

/// The readable description of the flags `model`: `()` for no flag, else their names
/// separated by `|`.
pub open spec fn characteristics_text(model: ModelCharacteristics) -> Seq<char> {
    if model == 0 {
        "()"@
    } else {
        joined(characteristic_names(model), "|"@)
    }
}

/// A readable description of the flags `model`: `()` for no flag, else their names
/// separated by `|`.
pub fn characteristics_label(model: ModelCharacteristics) -> (l: Label)
    ensures
        l@ == characteristics_text(model),
{
    if model == 0 {
        return lbl("()");
    }
    let mut characteritics: Vec<&str> = Vec::new();
    if has_characteristic(model, TIMED) {
        characteritics.push("Timed");
    }
    if has_characteristic(model, CONTROLLABLE) {
        characteritics.push("Controllable");
    }
    if has_characteristic(model, STOCHASTIC) {
        characteritics.push("Stochastic");
    }
    if has_characteristic(model, SYMBOLIC) {
        characteritics.push("Symbolic");
    }
    assert(characteritics@.map_values(|p: &str| p@) =~= characteristic_names(model));
    Label::from_string(join_parts(&characteritics, "|"))
}

} // verus!
