use std::hash::{DefaultHasher, Hash, Hasher};
use vstd::prelude::*;

use crate::models::model_var::{type_size, ModelVar, VarType};
use crate::models::node::{hex_text, hexadecimal};
use vstd::string::StringExecFns;

verus! {

/// Type of the values that variables evaluate to.
pub type EvaluationType = i32;

/// Feeds `bytes` to a fresh `std::hash::DefaultHasher` and returns its hash. Nothing is
/// stated of the value: the hasher's algorithm may change between releases of the standard
/// library, and the length it hashes first is written in the machine's word size.
#[verifier::external_body]
fn hash_bytes(bytes: &Vec<u8>) -> (h: u64)
{
    let mut s = DefaultHasher::new();
    bytes.hash(&mut s);
    s.finish()
}

/// The integer stored in the bytes `a .. a + n` of `bytes`, lowest byte first.
pub open spec fn le_value(bytes: Seq<u8>, a: int, n: nat) -> int
    decreases n,
{
    if n == 0 {
        0
    } else {
        bytes[a] + 256 * le_value(bytes, a + 1, (n - 1) as nat)
    }
}

/// The value of a variable of type `t` stored at address `a` of `bytes`.
pub open spec fn decode(bytes: Seq<u8>, a: int, t: VarType) -> i32 {
    match t {
        VarType::VarU8 => bytes[a] as i32,
        VarType::VarI8 => bytes[a] as i8 as i32,
        VarType::VarU16 => le_value(bytes, a, 2) as u16 as i32,
        VarType::VarI16 => le_value(bytes, a, 2) as u16 as i16 as i32,
        VarType::VarU32 => le_value(bytes, a, 4) as u32 as i32,
        VarType::VarI32 => le_value(bytes, a, 4) as u32 as i32,
        VarType::UnknownType => 0,
    }
}

/// The value a variable of type `t` holds once `value` is written to it.
pub open spec fn stored_value(value: i32, t: VarType) -> i32 {
    match t {
        VarType::VarU8 => value as u8 as i32,
        VarType::VarI8 => value as i8 as i32,
        VarType::VarU16 => value as u16 as i32,
        VarType::VarI16 => value as i16 as i32,
        VarType::VarU32 | VarType::VarI32 => value,
        VarType::UnknownType => 0,
    }
}

/// The bytes written for `value` by a variable of type `t`, lowest byte first.
pub open spec fn encode(value: i32, t: VarType) -> Seq<u8> {
    match t {
        VarType::VarU8 | VarType::VarI8 => seq![value as u8],
        VarType::VarU16 | VarType::VarI16 => {
            let v = #[verifier::truncate] (value as u16);
            seq![(v % 256) as u8, (v / 256) as u8]
        },
        VarType::VarU32 | VarType::VarI32 => {
            let v = #[verifier::truncate] (value as u32);
            seq![
                (v % 256) as u8,
                (v / 256 % 256) as u8,
                (v / 65536 % 256) as u8,
                (v / 16777216) as u8,
            ]
        },
        VarType::UnknownType => Seq::empty(),
    }
}

/// Whether the mapped variable `var` lies inside a memory of `len` bytes.
pub open spec fn fits(var: ModelVar, len: nat) -> bool {
    &&& var.addr().is_some()
    &&& var.typ() != VarType::UnknownType
    &&& var.addr().unwrap() + type_size(var.typ()) <= len
}

/// The bytes of `bytes` after `value` is written at address `a` for a variable of type `t`.
pub open spec fn written(bytes: Seq<u8>, a: int, t: VarType, value: i32) -> Seq<u8> {
    bytes.subrange(0, a) + encode(value, t) + bytes.subrange(a + type_size(t), bytes.len() as int)
}

/// Bytes that are all zero store zero.
proof fn lemma_le_value_zero(b: Seq<u8>, a: int, n: nat)
    requires
        0 <= a,
        a + n <= b.len(),
        forall|i: int| a <= i < a + n ==> b[i] == 0,
    ensures
        le_value(b, a, n) == 0,
    decreases n,
{
    if n > 0 {
        lemma_le_value_zero(b, a + 1, (n - 1) as nat);
    }
}

/// Growing a memory by zero bytes keeps the value of every variable that lies in the old
/// bytes, and every variable that lies in the new bytes holds zero.
pub proof fn lemma_growth_keeps_values(bytes: Seq<u8>, delta: nat, var: ModelVar)
    ensures
        fits(var, bytes.len()) ==> decode(
            bytes + Seq::new(delta, |i: int| 0u8),
            var.addr().unwrap() as int,
            var.typ(),
        ) == decode(bytes, var.addr().unwrap() as int, var.typ()),
        fits(var, bytes.len() + delta) && var.addr().unwrap() >= bytes.len() ==> decode(
            bytes + Seq::new(delta, |i: int| 0u8),
            var.addr().unwrap() as int,
            var.typ(),
        ) == 0,
{
    let grown = bytes + Seq::new(delta, |i: int| 0u8);
    if fits(var, bytes.len()) {
        let a = var.addr().unwrap() as int;
        assert forall|i: int| 0 <= i < bytes.len() implies grown[i] == bytes[i] by {}
        match var.typ() {
            VarType::VarU16 | VarType::VarI16 => lemma_le_value_frame(grown, bytes, a, 2),
            VarType::VarU32 | VarType::VarI32 => lemma_le_value_frame(grown, bytes, a, 4),
            _ => {},
        }
    }
    if fits(var, bytes.len() + delta) && var.addr().unwrap() >= bytes.len() {
        let a = var.addr().unwrap() as int;
        assert forall|i: int| bytes.len() <= i < grown.len() implies grown[i] == 0 by {}
        match var.typ() {
            VarType::VarU16 | VarType::VarI16 => lemma_le_value_zero(grown, a, 2),
            VarType::VarU32 | VarType::VarI32 => lemma_le_value_zero(grown, a, 4),
            _ => {
                assert(grown[a] == 0);
            },
        }
    }
}

/// The value stored on `n` bytes only depends on those bytes.
proof fn lemma_le_value_frame(b1: Seq<u8>, b2: Seq<u8>, a: int, n: nat)
    requires
        0 <= a,
        a + n <= b1.len(),
        a + n <= b2.len(),
        forall|i: int| a <= i < a + n ==> b1[i] == b2[i],
    ensures
        le_value(b1, a, n) == le_value(b2, a, n),
    decreases n,
{
    if n > 0 {
        lemma_le_value_frame(b1, b2, a + 1, (n - 1) as nat);
    }
}

/// Reading a variable back after writing `value` to it gives `value` cut to the
/// variable's type.
pub proof fn lemma_read_after_write(bytes: Seq<u8>, a: int, t: VarType, value: i32)
    requires
        t != VarType::UnknownType,
        0 <= a,
        a + type_size(t) <= bytes.len(),
    ensures
        written(bytes, a, t, value).len() == bytes.len(),
        decode(written(bytes, a, t, value), a, t) == stored_value(value, t),
{
    let w = written(bytes, a, t, value);
    reveal_with_fuel(le_value, 5);
    match t {
        VarType::VarU8 => {
            assert(w[a] == value as u8);
            assert((value as u8) as i32 == #[verifier::truncate] (value as u8) as i32);
        },
        VarType::VarI8 => {
            assert(w[a] == value as u8);
            assert(((value as u8) as i8) == (value as i8)) by (bit_vector);
        },
        VarType::VarU16 | VarType::VarI16 => {
            let v = value as u16;
            assert(w[a] == (v % 256) as u8);
            assert(w[a + 1] == (v / 256) as u8);
            assert(le_value(w, a, 2) == v as int);
            assert(((value as u16) as i16) == (value as i16)) by (bit_vector);
        },
        VarType::VarU32 | VarType::VarI32 => {
            let v = value as u32;
            assert(w[a] == (v % 256) as u8);
            assert(w[a + 1] == (v / 256 % 256) as u8);
            assert(w[a + 2] == (v / 65536 % 256) as u8);
            assert(w[a + 3] == (v / 16777216) as u8);
            assert(le_value(w, a, 4) == v as int);
            assert(((value as u32) as i32) == value) by (bit_vector);
        },
        VarType::UnknownType => {},
    }
}

/// Writing a variable leaves every variable stored on other bytes as it was.
pub proof fn lemma_write_keeps_others(
    bytes: Seq<u8>,
    a: int,
    t: VarType,
    value: i32,
    b: int,
    u: VarType,
)
    requires
        t != VarType::UnknownType,
        u != VarType::UnknownType,
        0 <= a,
        a + type_size(t) <= bytes.len(),
        0 <= b,
        b + type_size(u) <= bytes.len(),
        b + type_size(u) <= a || a + type_size(t) <= b,
    ensures
        decode(written(bytes, a, t, value), b, u) == decode(bytes, b, u),
{
    let w = written(bytes, a, t, value);
    assert forall|i: int| b <= i < b + type_size(u) implies w[i] == bytes[i] by {}
    if type_size(u) >= 2 {
        lemma_le_value_frame(w, bytes, b, 2);
    }
    if type_size(u) == 4 {
        lemma_le_value_frame(w, bytes, b, 4);
    }
}

/// The first `k` bytes of `bytes` as printed: each in hexadecimal followed by a space,
/// and before every sixteenth a new line with its offset in hexadecimal.
pub open spec fn dump_text(bytes: Seq<u8>, k: int) -> Seq<char>
    decreases k,
{
    if k <= 0 {
        Seq::empty()
    } else {
        let c = k - 1;
        dump_text(bytes, c) + (if c % 16 == 0 {
            "\n"@ + hexadecimal(c as nat) + " |\t"@
        } else {
            Seq::empty()
        }) + hexadecimal(bytes[c] as nat) + " "@
    }
}

/// Byte-addressed memory holding the discrete variables of a model state.
#[derive(Debug, Clone, PartialEq, Eq, Hash)]
pub struct VirtualMemory {
    storage: Vec<u8>,
}

impl View for VirtualMemory {
    type V = Seq<u8>;

    open spec fn view(&self) -> Seq<u8> {
        self.bytes()
    }
}

impl VirtualMemory {
    /// The bytes of the memory.
    pub closed spec fn bytes(&self) -> Seq<u8> {
        self.storage@
    }

    pub fn new() -> (m: VirtualMemory)
        ensures
            m@ == Seq::<u8>::empty(),
    {
        VirtualMemory { storage: Vec::new() }
    }

    /// A memory of `size` zero bytes.
    pub fn from_size(size: usize) -> (m: VirtualMemory)
        ensures
            m@ == Seq::new(size as nat, |i: int| 0u8),
    {
        let storage = vec![0u8; size];
        assert(storage@ =~= Seq::new(size as nat, |i: int| 0u8));
        VirtualMemory { storage }
    }

    /// The value of the mapped variable `var`.
    pub fn evaluate(&self, var: &ModelVar) -> (r: EvaluationType)
        requires
            fits(*var, self@.len()),
        ensures
            r == decode(self@, var.addr().unwrap() as int, var.typ()),
    {
        let a = var.get_address();
        let s = &self.storage;
        proof {
            reveal_with_fuel(le_value, 5);
        }
        let t = var.get_type();
        let len = s.len();
        assert(a + type_size(t) <= len);
        match t {
            VarType::VarU8 => s[a] as EvaluationType,
            VarType::VarI8 => (#[verifier::truncate] (s[a] as i8)) as EvaluationType,
            VarType::VarU16 => {
                let v: u16 = s[a] as u16 + (s[a + 1] as u16) * 256;
                v as EvaluationType
            },
            VarType::VarI16 => {
                let v: u16 = s[a] as u16 + (s[a + 1] as u16) * 256;
                (#[verifier::truncate] (v as i16)) as EvaluationType
            },
            VarType::VarU32 | VarType::VarI32 => {
                let v: u32 = s[a] as u32 + (s[a + 1] as u32) * 256 + (s[a + 2] as u32) * 65536 + (
                s[a + 3] as u32) * 16777216;
                #[verifier::truncate] (v as EvaluationType)
            },
            VarType::UnknownType => 0,
        }
    }

    /// Writes `value` to the mapped variable `var`, truncated to the variable's type.
    pub fn set(&mut self, var: &ModelVar, value: EvaluationType)
        requires
            fits(*var, old(self)@.len()),
        ensures
            ({
                let a = var.addr().unwrap() as int;
                let n = type_size(var.typ()) as int;
                final(self)@ == written(old(self)@, a, var.typ(), value)
            }),
    {
        let a = var.get_address();
        let ghost before = self.storage@;
        let t = var.get_type();
        let len = self.storage.len();
        assert(a + type_size(t) <= len);
        match t {
            VarType::VarU8 | VarType::VarI8 => {
                self.storage.set(a, #[verifier::truncate] (value as u8));
            },
            VarType::VarU16 | VarType::VarI16 => {
                let v = #[verifier::truncate] (value as u16);
                self.storage.set(a, (v % 256) as u8);
                self.storage.set(a + 1, (v / 256) as u8);
            },
            VarType::VarU32 | VarType::VarI32 => {
                let v = #[verifier::truncate] (value as u32);
                self.storage.set(a, (v % 256) as u8);
                self.storage.set(a + 1, (v / 256 % 256) as u8);
                self.storage.set(a + 2, (v / 65536 % 256) as u8);
                self.storage.set(a + 3, (v / 16777216) as u8);
            },
            VarType::UnknownType => {},
        }
        proof {
            let n = type_size(var.typ()) as int;
            assert(self.storage@ =~= before.subrange(0, a as int) + encode(value, var.typ())
                + before.subrange(a + n, before.len() as int));
        }
    }

    /// The bytes as they are printed, sixteen to a line.
    pub fn to_text(&self) -> (s: String)
        ensures
            s@ == if self@.len() == 0 {
                "VirtualMemory[EMPTY]"@
            } else {
                "VirtualMemory["@ + dump_text(self@, self@.len() as int) + "\n]"@
            },
    {
        if self.storage.len() == 0 {
            return "VirtualMemory[EMPTY]".to_owned();
        }
        let mut s = "VirtualMemory[".to_owned();
        let n = self.storage.len();
        for cursor in 0..n
            invariant
                n == self@.len(),
                s@ == "VirtualMemory["@ + dump_text(self@, cursor as int),
        {
            if cursor % 16 == 0 {
                s.append("\n");
                s.append(hex_text(cursor).as_str());
                s.append(" |\t");
            }
            let value = self.storage[cursor];
            s.append(hex_text(value as usize).as_str());
            s.append(" ");
            proof {
                assert(s@ =~= "VirtualMemory["@ + dump_text(self@, cursor + 1));
            }
        }
        s.append("\n]");
        s
    }

    pub fn len(&self) -> (r: usize)
        ensures
            r == self@.len(),
    {
        self.storage.len()
    }

    /// Whether the two memories hold the same bytes.
    pub(crate) fn same_bytes(&self, other: &VirtualMemory) -> (r: bool)
        ensures
            r == (self@ == other@),
    {
        if self.storage.len() != other.storage.len() {
            return false;
        }
        let mut i: usize = 0;
        while i < self.storage.len()
            invariant
                i <= self.storage.len(),
                self.storage.len() == other.storage.len(),
                forall|j: int| 0 <= j < i ==> self.storage@[j] == other.storage@[j],
            decreases self.storage.len() - i,
        {
            if self.storage[i] != other.storage[i] {
                return false;
            }
            i += 1;
        }
        assert(self@ =~= other@);
        true
    }

    pub fn is_empty(&self) -> (r: bool)
        ensures
            r == (self@.len() == 0),
    {
        self.storage.is_empty()
    }

    /// Maps the unmapped `var` at the end of the memory with type `var_type`,
    /// and grows the memory by the variable's size.
    pub fn define(&mut self, var: &mut ModelVar, var_type: VarType)
        requires
            old(var).addr().is_none(),
            var_type != VarType::UnknownType,
            old(self)@.len() + type_size(var_type) <= usize::MAX,
        ensures
            final(var).addr() == Some(old(self)@.len() as usize),
            final(var).typ() == var_type,
            final(var).var_name() == old(var).var_name(),
            final(self)@ == old(self)@ + Seq::new(type_size(var_type), |i: int| 0u8),
    {
        var.set_type(var_type);
        var.set_address(self.len());
        self.size_delta(var.size());
    }

    /// Copies the bytes of `other` over the first bytes of this memory, as many as both hold.
    pub fn copy_from(&mut self, other: &VirtualMemory)
        ensures
            final(self)@.len() == old(self)@.len(),
            forall|i: int|
                0 <= i < final(self)@.len() ==> #[trigger] final(self)@[i] == if i < other@.len() {
                    other@[i]
                } else {
                    old(self)@[i]
                },
    {
        let to_copy = if other.len() <= self.len() {
            other.len()
        } else {
            self.len()
        };
        let ghost before = self.storage@;
        for i in 0..to_copy
            invariant
                to_copy <= other.storage@.len(),
                to_copy <= before.len(),
                to_copy == other.storage@.len() || to_copy == before.len(),
                self.storage@.len() == before.len(),
                forall|j: int|
                    0 <= j < before.len() ==> #[trigger] self.storage@[j] == if j < i {
                        other.storage@[j]
                    } else {
                        before[j]
                    },
        {
            self.storage.set(i, other.storage[i]);
        }
    }

    /// Cuts the memory to `size` bytes, or extends it with zeros.
    pub fn resize(&mut self, size: usize)
        ensures
            final(self)@ == if size <= old(self)@.len() {
                old(self)@.subrange(0, size as int)
            } else {
                old(self)@ + Seq::new((size - old(self)@.len()) as nat, |i: int| 0u8)
            },
    {
        let ghost before = self.storage@;
        self.storage.resize(size, 0);
        proof {
            if size > before.len() {
                let ext = Seq::new((size - before.len()) as nat, |i: int| 0u8);
                assert forall|i: int| 0 <= i < size implies #[trigger] self.storage@[i] == (before
                    + ext)[i] by {
                    if i < before.len() {
                        assert(self.storage@.subrange(0, before.len() as int)[i] == before[i]);
                    } else {
                        assert(cloned::<u8>(0u8, self.storage@[i]));
                    }
                }
                assert(self.storage@ =~= before + ext);
            }
        }
    }

    /// Grows the memory by `delta` zero bytes.
    pub fn size_delta(&mut self, delta: usize)
        requires
            old(self)@.len() + delta <= usize::MAX,
        ensures
            final(self)@ == old(self)@ + Seq::new(delta as nat, |i: int| 0u8),
    {
        let size = self.storage.len() + delta;
        self.resize(size);
        proof {
            if delta == 0 {
                assert(self.storage@ =~= old(self)@ + Seq::new(delta as nat, |i: int| 0u8));
            }
        }
    }

    /// Hash of the memory's bytes by the standard library's default hasher; the value
    /// depends on the library release and the machine, and nothing is stated of it.
    pub fn get_hash(&self) -> (h: u64)
    {
        hash_bytes(&self.storage)
    }
}

/// Running count of the bytes taken by the variables defined so far.
#[derive(Debug, Clone, PartialEq, Eq, PartialOrd, Ord, Default)]
pub struct VariableDefiner {
    size: usize,
}

impl VariableDefiner {
    /// Bytes taken so far.
    pub closed spec fn spec_size(&self) -> nat {
        self.size as nat
    }

    pub fn new() -> (d: VariableDefiner)
        ensures
            d.spec_size() == 0,
    {
        VariableDefiner { size: 0 }
    }

    /// Maps the unmapped `var` after the variables defined so far, with type `var_type`.
    pub fn define(&mut self, var: &mut ModelVar, var_type: VarType)
        requires
            old(var).addr().is_none(),
            var_type != VarType::UnknownType,
            old(self).spec_size() + type_size(var_type) <= usize::MAX,
        ensures
            final(var).addr() == Some(old(self).spec_size() as usize),
            final(var).typ() == var_type,
            final(var).var_name() == old(var).var_name(),
            final(self).spec_size() == old(self).spec_size() + type_size(var_type),
    {
        var.set_type(var_type);
        var.set_address(self.size);
        self.size += var.size();
    }

    pub fn size(&self) -> (r: usize)
        ensures
            r == self.spec_size(),
    {
        self.size
    }

    /// Counts the bytes of `other` after those counted here.
    pub fn append(&mut self, other: VariableDefiner)
        requires
            old(self).spec_size() + other.spec_size() <= usize::MAX,
        ensures
            final(self).spec_size() == old(self).spec_size() + other.spec_size(),
    {
        self.size += other.size()
    }

    pub fn clear(&mut self)
        ensures
            final(self).spec_size() == 0,
    {
        self.size = 0;
    }
}

impl vstd::std_specs::convert::FromSpecImpl<VariableDefiner> for VirtualMemory {
    open spec fn obeys_from_spec() -> bool {
        false
    }

    open spec fn from_spec(v: VariableDefiner) -> VirtualMemory {
        arbitrary()
    }
}

impl From<VariableDefiner> for VirtualMemory {
    /// A zeroed memory large enough for the variables `definer` has defined.
    fn from(definer: VariableDefiner) -> (m: Self)
        ensures
            m@ == Seq::new(definer.spec_size(), |i: int| 0u8),
    {
        VirtualMemory::from_size(definer.size())
    }
}

} // verus!
