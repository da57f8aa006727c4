use vstd::prelude::*;
pub mod sparse_set;
pub mod global;
use crate::ecs::Entity;

verus! {

/// Number of bits of a [`GenerationalIndex`] that hold the slot index.
pub const INDEX_BITS: u32 = 20;

/// Largest slot index a [`GenerationalIndex`] can hold (20 bits).
pub const MAX_INDEX: u32 = 0xFFFFF;

/// Largest generation a [`GenerationalIndex`] can hold (12 bits).
pub const MAX_GENERATION: u16 = 0xFFF;

/// A 32-bit handle: the low 20 bits are a slot index, the high 12 bits a generation.
#[derive(Clone, Copy, PartialEq, Eq, Hash, Debug, Structural)]
pub struct GenerationalIndex(u32);

/// The packed value of an index built from `idx` and `generation`.
pub open spec fn packed(idx: nat, generation: nat) -> nat {
    idx + generation * 0x100000
}

impl GenerationalIndex {
    /// The raw 32-bit value.
    pub closed spec fn bits(self) -> u32 {
        self.0
    }

    /// The slot index: the low 20 bits.
    pub open spec fn slot(self) -> nat {
        (self.bits() % 0x100000) as nat
    }

    /// The generation: the high 12 bits.
    pub open spec fn gen(self) -> nat {
        (self.bits() / 0x100000) as nat
    }

    /// Two indices are the same value exactly when their bits are.
    pub broadcast proof fn lemma_bits_determine(a: Self, b: Self)
        ensures
            #[trigger] a.bits() == #[trigger] b.bits() ==> a == b,
    {
    }

    /// The slot and the generation determine an index, and both fit their fields.
    pub proof fn lemma_parts(a: Self)
        ensures
            a.slot() <= MAX_INDEX,
            a.gen() <= MAX_GENERATION,
            packed(a.slot(), a.gen()) == a.bits(),
    {
    }

    /// Rebuilding an index from its slot and generation gives it back.
    pub proof fn lemma_new_roundtrip(a: Self)
        ensures
            Self::spec_new(a.slot(), a.gen()) == a,
    {
        Self::lemma_parts(a);
        Self::lemma_spec_new(a.slot(), a.gen());
        Self::lemma_bits_determine(Self::spec_new(a.slot(), a.gen()), a);
    }

    /// Two indices are equal exactly when their slots and generations are.
    pub proof fn lemma_eq_iff_parts(a: Self, b: Self)
        ensures
            (a == b) <==> (a.slot() == b.slot() && a.gen() == b.gen()),
    {
        Self::lemma_parts(a);
        Self::lemma_parts(b);
        if a.slot() == b.slot() && a.gen() == b.gen() {
            assert(a.bits() == b.bits());
            Self::lemma_bits_determine(a, b);
        }
    }

    pub fn new(idx: u32, generation: u16) -> (r: Self)
        requires
            idx <= MAX_INDEX,
            generation <= MAX_GENERATION,
        ensures
            r == Self::spec_new(idx as nat, generation as nat),
            r.bits() == packed(idx as nat, generation as nat),
            r.slot() == idx,
            r.gen() == generation,
    {
        let idx_top_12_bits = 0xFFF00000u32 & idx;
        let generation_top_4_bits = 0xF000u16 & generation;
        assert(idx_top_12_bits == 0) by (bit_vector)
            requires idx <= 0xFFFFFu32, idx_top_12_bits == 0xFFF00000u32 & idx;
        assert(generation_top_4_bits == 0) by (bit_vector)
            requires generation <= 0xFFFu16, generation_top_4_bits == 0xF000u16 & generation;
        let g32 = generation as u32;
        let new_id = idx | g32 << 20;
        assert(new_id == idx + g32 * 0x100000) by (bit_vector)
            requires idx <= 0xFFFFFu32, g32 <= 0xFFFu32, new_id == idx | g32 << 20;
        GenerationalIndex(new_id)
    }

    /// The index with slot `idx` and generation `generation` (both must fit their fields).
    pub closed spec fn spec_new(idx: nat, generation: nat) -> Self {
        GenerationalIndex(packed(idx, generation) as u32)
    }

    pub broadcast proof fn lemma_spec_new(idx: nat, generation: nat)
        requires
            idx <= MAX_INDEX,
            generation <= MAX_GENERATION,
        ensures
            #[trigger] Self::spec_new(idx, generation).slot() == idx,
            Self::spec_new(idx, generation).gen() == generation,
            Self::spec_new(idx, generation).bits() == packed(idx, generation),
    {
    }

    /// The index that stands for an empty slot.
    pub open spec fn spec_null() -> Self {
        Self::spec_new(MAX_INDEX as nat, MAX_GENERATION as nat)
    }

    pub fn null() -> (r: Self)
        ensures
            r.slot() == MAX_INDEX,
            r.gen() == MAX_GENERATION,
            r.bits() == 0xFFFF_FFFFu32,
            r == Self::spec_null(),
    {
        proof {
            Self::lemma_spec_new(MAX_INDEX as nat, MAX_GENERATION as nat);
        }
        Self::new(0xFFFFF, 0xFFF)
    }

    pub fn index(&self) -> (r: usize)
        ensures
            r == self.slot(),
    {
        let v = self.0;
        let low = v & 0xFFFFFu32;
        assert(low == v % 0x100000) by (bit_vector)
            requires low == v & 0xFFFFFu32;
        low as usize
    }

    pub fn index_32(&self) -> (r: u32)
        ensures
            r == self.slot(),
    {
        let v = self.0;
        let low = v & 0xFFFFFu32;
        assert(low == v % 0x100000) by (bit_vector)
            requires low == v & 0xFFFFFu32;
        low
    }

    pub fn generation(&self) -> (r: u16)
        ensures
            r == self.gen(),
    {
        let v = self.0;
        let high = v >> 20u32;
        assert(high == v / 0x100000 && high <= 0xFFFu32) by (bit_vector)
            requires high == v >> 20u32;
        high as u16
    }
}

/// The decimal digit character for `d < 10`.
pub open spec fn digit_char(d: nat) -> char {
    ('0' as nat + d) as char
}

/// The decimal writing of `n`, without leading zeros.
pub open spec fn decimal(n: nat) -> Seq<char>
    decreases n,
{
    if n < 10 {
        seq![digit_char(n)]
    } else {
        decimal(n / 10).push(digit_char(n % 10))
    }
}

/// How an index is shown: `(Generation <generation>, ID <slot>)`.
pub open spec fn display_text(g: GenerationalIndex) -> Seq<char> {
    "(Generation "@ + decimal(g.gen()) + ", ID "@ + decimal(g.slot()) + ")"@
}

fn digit_str(d: u32) -> (r: &'static str)
    requires
        d < 10,
    ensures
        r@ == seq![digit_char(d as nat)],
{
    match d {
        0 => {
            proof {
                reveal_strlit("0");
            }
            "0"
        },
        1 => {
            proof {
                reveal_strlit("1");
            }
            "1"
        },
        2 => {
            proof {
                reveal_strlit("2");
            }
            "2"
        },
        3 => {
            proof {
                reveal_strlit("3");
            }
            "3"
        },
        4 => {
            proof {
                reveal_strlit("4");
            }
            "4"
        },
        5 => {
            proof {
                reveal_strlit("5");
            }
            "5"
        },
        6 => {
            proof {
                reveal_strlit("6");
            }
            "6"
        },
        7 => {
            proof {
                reveal_strlit("7");
            }
            "7"
        },
        8 => {
            proof {
                reveal_strlit("8");
            }
            "8"
        },
        _ => {
            proof {
                reveal_strlit("9");
            }
            "9"
        },
    }
}

fn append_decimal(out: &mut String, n: u32)
    ensures
        final(out)@ == old(out)@ + decimal(n as nat),
    decreases n,
{
    if n >= 10 {
        append_decimal(out, n / 10);
    }
    out.append(digit_str(n % 10));
}

impl GenerationalIndex {
    /// The text of the index: `(Generation <generation>, ID <slot>)`.
    pub fn to_display_string(&self) -> (r: String)
        ensures
            r@ == display_text(*self),
    {
        let mut out = String::from_str("(Generation ");
        append_decimal(&mut out, self.generation() as u32);
        out.append(", ID ");
        append_decimal(&mut out, self.index_32());
        out.append(")");
        out
    }
}

impl Default for GenerationalIndex {
    fn default() -> (r: Self)
        ensures
            r.slot() == MAX_INDEX,
            r.gen() == MAX_GENERATION,
    {
        Self::null()
    }
}

/// A container of the world: either a resource or the components of one type.
pub trait DynEcsContainer {
    fn is_resource(&self) -> bool;
}

/// A container whose items have type `Item`.
pub trait EcsContainer: DynEcsContainer {
    type Item;
}

/// A container that holds a single resource.
pub trait EcsGlobalContainer: EcsContainer {
    fn get(&self) -> &Self::Item;

    fn get_mut(&mut self) -> &mut Self::Item;
}

/// A container that holds one component per entity, seen without its item type.
pub trait DynEcsEntityContainer: DynEcsContainer {
    fn len(&self) -> usize;

    fn contains_entity(&self, entity: Entity) -> bool;

    fn entities_vec(&self) -> Vec<Entity>;
}

/// A container that holds one component per entity.
pub trait EcsEntityContainer: DynEcsEntityContainer + EcsContainer {
    /// The container is consistent.
    spec fn valid(&self) -> bool;

    /// The component of `ett`, if it has one.
    spec fn component(&self, ett: Entity) -> Option<Self::Item>;

    /// The component of `ett`, if it has one.
    fn get(&self, ett: Entity) -> (r: Option<&Self::Item>)
        ensures
            self.valid() ==> (r is Some <==> self.component(ett) is Some),
            self.valid() && r is Some ==> *r->0 == self.component(ett)->0,
    ;

    /// A mutable reference to the component of `ett`, if it has one; what is written through
    /// it becomes the component of `ett`, and no other entity's component changes.
    fn get_mut(&mut self, ett: Entity) -> (r: Option<&mut Self::Item>)
        ensures
            old(self).valid() ==> (r is Some <==> old(self).component(ett) is Some),
            old(self).valid() && r is Some ==> *r->0 == old(self).component(ett)->0,
            old(self).valid() && r is Some ==> final(self).component(ett) == Some(*final(r->0)),
            old(self).valid() && r is Some ==> forall|e: Entity| e != ett
                ==> #[trigger] final(self).component(e) == old(self).component(e),
            r is None ==> forall|e: Entity| #[trigger] final(self).component(e) == old(self).component(e),
            old(self).valid() ==> final(self).valid(),
    ;
}

} // verus!
