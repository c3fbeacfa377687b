use vstd::prelude::*;
use vstd::string::StringExecFns;

use super::label::Label;
use crate::verification::Verifiable;

verus! {

/// Failure to find a name in a model context.
#[derive(Debug, Clone)]
pub struct MappingError(pub Label);

impl MappingError {
    /// The message that reports the error.
    pub fn to_text(&self) -> (s: String)
        ensures
            s@ == "Mapping error : label "@ + self.0@ + " not found in context"@,
    {
        let mut s = "Mapping error : label ".to_owned();
        s.append(self.0.as_str());
        s.append(" not found in context");
        s
    }
}

/// Outcome of mapping a name to an object of a model context.
pub type MappingResult<T> = Result<T, MappingError>;

/// Storage type of a discrete variable.
#[derive(Debug, Clone, Copy, PartialEq, Eq, Hash, Structural)]
pub enum VarType {
    UnknownType,
    VarU8,
    VarI8,
    VarU16,
    VarI16,
    VarU32,
    VarI32,
}

/// Number of bytes a variable of type `t` takes.
pub open spec fn type_size(t: VarType) -> nat {
    match t {
        VarType::UnknownType => 0,
        VarType::VarU8 | VarType::VarI8 => 1,
        VarType::VarU16 | VarType::VarI16 => 2,
        VarType::VarU32 | VarType::VarI32 => 4,
    }
}

impl VarType {
    pub fn size(&self) -> (r: usize)
        ensures
            r == type_size(*self),
    {
        match self {
            Self::UnknownType => 0,
            Self::VarU8 | Self::VarI8 => 1,
            Self::VarU16 | Self::VarI16 => 2,
            Self::VarU32 | Self::VarI32 => 4,
        }
    }

    pub fn is_unknown(&self) -> (r: bool)
        ensures
            r == (*self == VarType::UnknownType),
    {
        *self == Self::UnknownType
    }
}

impl Default for VarType {
    fn default() -> (t: Self)
        ensures
            t == VarType::UnknownType,
    {
        Self::UnknownType
    }
}

/// A discrete variable of a model: its name and, once mapped, its type and address in memory.
#[derive(Debug, PartialEq, Eq, Hash)]
pub struct ModelVar {
    pub name: Label,
    var_type: VarType,
    address: Option<usize>,
}

impl Clone for ModelVar {
    fn clone(&self) -> (r: Self)
        ensures
            r == *self,
    {
        ModelVar { name: self.name.clone(), var_type: self.var_type, address: self.address }
    }
}

impl ModelVar {
    /// Characters of the variable's name.
    pub closed spec fn var_name(&self) -> Seq<char> {
        self.name@
    }

    /// Storage type of the variable.
    pub closed spec fn typ(&self) -> VarType {
        self.var_type
    }

    /// Address of the variable in memory, when it is mapped.
    pub closed spec fn addr(&self) -> Option<usize> {
        self.address
    }

    pub fn new() -> (v: ModelVar)
        ensures
            v.var_name() == Seq::<char>::empty(),
            v.typ() == VarType::UnknownType,
            v.addr() == None::<usize>,
    {
        ModelVar { name: Label::new(), var_type: VarType::UnknownType, address: None }
    }

    /// An unmapped variable called `name`.
    pub fn name(name: Label) -> (v: ModelVar)
        ensures
            v.var_name() == name@,
            v.typ() == VarType::UnknownType,
            v.addr() == None::<usize>,
    {
        ModelVar { name, address: None, var_type: VarType::UnknownType }
    }

    /// A nameless variable of a known type mapped at `index`.
    pub fn address(index: usize, var_type: VarType) -> (v: ModelVar)
        requires
            var_type != VarType::UnknownType,
        ensures
            v.var_name() == Seq::<char>::empty(),
            v.typ() == var_type,
            v.addr() == Some(index),
    {
        ModelVar { name: Label::new(), address: Some(index), var_type }
    }

    /// A variable called `name`, of a known type, mapped at `address`.
    pub fn make_defined(name: Label, address: usize, var_type: VarType) -> (v: ModelVar)
        requires
            var_type != VarType::UnknownType,
        ensures
            v.var_name() == name@,
            v.typ() == var_type,
            v.addr() == Some(address),
    {
        ModelVar { name, address: Some(address), var_type }
    }

    /// The value of the variable in `state`, where it can be read.
    pub fn evaluate<S: Verifiable>(&self, state: &S) -> (r: i32)
        requires
            state.readable(*self),
        ensures
            r == state.var_value(*self),
    {
        state.evaluate_var(self)
    }

    pub fn get_name(&self) -> (r: Label)
        ensures
            r@ == self.var_name(),
    {
        self.name.clone()
    }

    /// Number of bytes the variable takes.
    pub fn size(&self) -> (r: usize)
        ensures
            r == type_size(self.typ()),
    {
        self.var_type.size()
    }

    pub fn is_mapped(&self) -> (r: bool)
        ensures
            r == self.addr().is_some(),
    {
        self.address.is_some()
    }

    pub fn get_address(&self) -> (r: usize)
        requires
            self.addr().is_some(),
        ensures
            self.addr() == Some(r),
    {
        self.address.unwrap()
    }

    /// Maps the variable at `address`; its type must be known.
    pub fn set_address(&mut self, address: usize)
        requires
            old(self).typ() != VarType::UnknownType,
        ensures
            final(self).addr() == Some(address),
            final(self).typ() == old(self).typ(),
            final(self).var_name() == old(self).var_name(),
    {
        self.address = Some(address)
    }

    pub fn get_type(&self) -> (r: VarType)
        ensures
            r == self.typ(),
    {
        self.var_type
    }

    pub fn set_type(&mut self, var_type: VarType)
        ensures
            final(self).typ() == var_type,
            final(self).addr() == old(self).addr(),
            final(self).var_name() == old(self).var_name(),
    {
        self.var_type = var_type
    }

    /// Forgets the type and the address of the variable.
    pub fn unbind(&mut self)
        ensures
            final(self).addr() == None::<usize>,
            final(self).typ() == VarType::UnknownType,
            final(self).var_name() == old(self).var_name(),
    {
        self.address = None;
        self.var_type = VarType::UnknownType;
    }
}

impl vstd::std_specs::convert::FromSpecImpl<&str> for ModelVar {
    open spec fn obeys_from_spec() -> bool {
        false
    }

    open spec fn from_spec(v: &str) -> ModelVar {
        arbitrary()
    }
}

impl From<&str> for ModelVar {
    fn from(value: &str) -> (v: Self)
        ensures
            v.var_name() == value@,
            v.typ() == VarType::UnknownType,
            v.addr() == None::<usize>,
    {
        ModelVar::name(Label::from_str(value))
    }
}

impl vstd::std_specs::convert::FromSpecImpl<String> for ModelVar {
    open spec fn obeys_from_spec() -> bool {
        false
    }

    open spec fn from_spec(v: String) -> ModelVar {
        arbitrary()
    }
}

impl From<String> for ModelVar {
    fn from(value: String) -> (v: Self)
        ensures
            v.var_name() == value@,
            v.typ() == VarType::UnknownType,
            v.addr() == None::<usize>,
    {
        ModelVar::name(Label::from_string(value))
    }
}

/// An unmapped variable called `name`.
pub fn var(name: &str) -> (v: ModelVar)
    ensures
        v.var_name() == name@,
        v.typ() == VarType::UnknownType,
        v.addr() == None::<usize>,
{
    ModelVar::name(Label::from_str(name))
}

impl Default for ModelVar {
    fn default() -> (v: Self)
        ensures
            v.var_name() == Seq::<char>::empty(),
            v.typ() == VarType::UnknownType,
            v.addr() == None::<usize>,
    {
        ModelVar::new()
    }
}

} // verus!
