//! The typed representation contract: the structural-error vocabulary, the
//! layered error type for conversions, and the trait a type implements to be
//! built from and written into a compound.

use crate::tag::{NbtCompound, SpecTag};
use vstd::prelude::*;

verus! {

/// A conflict between the expected and actual structure of a tag tree.
#[derive(Clone, Copy, PartialEq, Eq, Hash, Debug, Structural)]
pub enum NbtStructureError {
    /// The expected type of a tag was not the type encountered.
    TypeMismatch,
    /// An index was out of bounds.
    InvalidIndex,
    /// A tag expected in a compound was absent.
    MissingTag,
}

/// An error in translating a tag tree to a concrete type: either a structure
/// error of the tree itself, or a custom error of the implementation.
#[derive(Clone, Copy, PartialEq, Eq, Hash, Debug)]
pub enum NbtReprError<E> {
    /// An error of the tag tree itself.
    Structure(NbtStructureError),
    /// A custom error raised during the conversion.
    Custom(E),
}

impl<E> NbtReprError<E> {
    /// Wraps a custom error.
    pub fn custom(x: E) -> (r: Self)
        ensures
            r == NbtReprError::<E>::Custom(x),
    {
        NbtReprError::Custom(x)
    }
}

impl<E> From<NbtStructureError> for NbtReprError<E> {
    fn from(x: NbtStructureError) -> (r: Self)
        ensures
            r == NbtReprError::<E>::Structure(x),
    {
        NbtReprError::Structure(x)
    }
}

impl<E> vstd::std_specs::convert::FromSpecImpl<NbtStructureError> for NbtReprError<E> {
    open spec fn obeys_from_spec() -> bool {
        true
    }

    open spec fn from_spec(v: NbtStructureError) -> Self {
        NbtReprError::Structure(v)
    }
}

impl From<NbtReprError<NbtStructureError>> for NbtStructureError {
    fn from(x: NbtReprError<NbtStructureError>) -> (r: Self)
        ensures
            r == (match x {
                NbtReprError::Structure(e) => e,
                NbtReprError::Custom(e) => e,
            }),
    {
        match x {
            NbtReprError::Structure(e) => e,
            NbtReprError::Custom(e) => e,
        }
    }
}

impl vstd::std_specs::convert::FromSpecImpl<NbtReprError<NbtStructureError>> for NbtStructureError {
    open spec fn obeys_from_spec() -> bool {
        true
    }

    open spec fn from_spec(v: NbtReprError<NbtStructureError>) -> Self {
        match v {
            NbtReprError::Structure(e) => e,
            NbtReprError::Custom(e) => e,
        }
    }
}

/// A type with a full representation as a compound: it can be constructed
/// from one, and written out as one. Implementations decide which entries are
/// required; a missing entry or a wrongly-typed value is reported through the
/// structural-error vocabulary, or through a custom error.
///
/// An implementation states what it writes through `spec_written`, and
/// `to_nbt` is pinned to it: an empty compound with `write_nbt` applied.
/// Symmetry between writing and reading back is the intended usage, not an
/// obligation; an implementation that promises it sets
/// `obeys_repr_round_trip`, and then building from what `to_nbt` returned
/// reconstructs an equal instance, by the contracts of `to_nbt` and
/// `from_nbt` alone.
pub trait NbtRepr: Sized {
    /// The error returned when construction from a compound fails.
    type Error;

    /// What `write_nbt` leaves behind: the entries of the compound after this
    /// instance is written over what the compound held before. The default
    /// says nothing; an implementation that wants `write_nbt` and `to_nbt`
    /// verified against its writes overrides it.
    open spec fn spec_written(&self, before: Seq<(Seq<char>, SpecTag)>) -> Seq<
        (Seq<char>, SpecTag),
    > {
        vstd::pervasive::arbitrary()
    }

    /// Whether this implementation promises the reconstruction law: a
    /// compound holding exactly what an instance writes builds back an equal
    /// instance. Off unless an implementation states it.
    open spec fn obeys_repr_round_trip() -> bool {
        false
    }

    /// Builds an instance by copying values out of the given compound.
    fn from_nbt(nbt: &NbtCompound) -> (r: Result<Self, Self::Error>)
        ensures
            Self::obeys_repr_round_trip() ==> (forall|x: Self|
                nbt@ == #[trigger] x.spec_written(Seq::empty()) ==> (r matches Ok(y) && y == x)),
    ;

    /// Writes this instance's data into the given compound as named entries.
    fn write_nbt(&self, nbt: &mut NbtCompound)
        ensures
            final(nbt)@ == self.spec_written(old(nbt)@),
    ;

    /// An owned compound holding this instance's data: an empty compound with
    /// `write_nbt` applied to it.
    fn to_nbt(&self) -> (r: NbtCompound)
        ensures
            r@ == self.spec_written(Seq::<(Seq<char>, SpecTag)>::empty()),
    {
        let mut nbt = NbtCompound::new();
        self.write_nbt(&mut nbt);
        nbt
    }
}

} // verus!
