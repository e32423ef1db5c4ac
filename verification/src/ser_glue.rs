//! The sans-I/O framework: values serialise themselves into caller-owned
//! buffers, and deserialisers are pull-driven state machines that ask the
//! driver for bytes instead of reading anything themselves.

use vstd::prelude::*;

pub mod list;
pub mod map;
pub mod string;
pub mod tuple;
pub mod uuid;

verus! {

/// A value that can be written out as bytes.
///
/// Serialisation is total and appends to the end of the caller's buffer;
/// whatever cannot travel in the bytes themselves (such as an integer's sign)
/// comes back as the extra output, for the caller to carry out of band.
pub trait Serable: Sized {
    type ExtraOutput;

    /// The exact bytes this value appends to any buffer.
    spec fn spec_ser(&self) -> Seq<u8>;

    /// What counts as a well-delivered out-of-band extra for this value.
    spec fn spec_extra_ok(&self, extra: Self::ExtraOutput) -> bool;

    /// Appends this value's encoding to `into` and returns the extra output.
    fn ser_into(&self, into: &mut Vec<u8>) -> (r: Self::ExtraOutput)
        ensures
            final(into)@ == old(into)@ + self.spec_ser(),
            self.spec_extra_ok(r),
    ;

    /// Serialises into a fresh buffer.
    #[must_use]
    fn ser(&self) -> (r: (Self::ExtraOutput, Vec<u8>))
        ensures
            r.1@ == self.spec_ser(),
            self.spec_extra_ok(r.0),
    {
        let mut vec: Vec<u8> = Vec::new();
        let extra = self.ser_into(&mut vec);
        proof {
            assert(vec@ =~= self.spec_ser());
        }
        (extra, vec)
    }
}

/// Whether a state machine has completed its work.
#[derive(Debug)]
pub enum FsmResult<M, R> {
    /// The I/O loop needs to continue; the machine is given back.
    Continue(M),
    /// The machine is done, and the finished value is returned.
    Done(R),
}

/// What a deserialiser asks of its driver next.
#[derive(Debug, Clone, Copy, PartialEq, Eq, Structural)]
pub enum DesiredInput {
    /// Exactly one byte may be supplied.
    Byte,
    /// Between one byte and the given count may be supplied, in stream order.
    Bytes(usize),
    /// The machine is blocked until its out-of-band starting input arrives.
    Extra,
    /// No input is needed; the driver must call `process`.
    ProcessMe,
}

/// A pull-driven deserialiser.
///
/// The driver repeats: ask [`Self::wants_read`]; on [`DesiredInput::Extra`]
/// call [`Self::give_starting_input`]; on a byte request copy at most the
/// requested count of bytes in with [`Self::finish_bytes_for_writing`]
/// (supplying none leaves the state unchanged); on [`DesiredInput::ProcessMe`]
/// call [`Self::process`], which either hands the machine back or completes.
/// A machine is single-shot: completion consumes it.
pub trait DeserMachine: Sized {
    type ExtraInput;
    type Output;
    type Error;

    /// How many bytes the machine can accept right now; zero unless the
    /// machine just asked for bytes.
    spec fn byte_capacity(&self) -> nat;

    /// A fresh machine in its start phase.
    #[must_use]
    fn new() -> Self;

    /// A fresh machine with the starting input already supplied.
    #[must_use]
    fn new_with_starting_input(input: Self::ExtraInput) -> Self {
        let mut s = Self::new();
        s.give_starting_input(input);
        s
    }

    /// What the machine needs next.
    fn wants_read(&self) -> DesiredInput;

    /// Supplies the out-of-band starting input. Ignored unless the machine is
    /// waiting for it.
    fn give_starting_input(&mut self, magic: Self::ExtraInput);

    /// Hands over the bytes the driver pulled, at most as many as the machine
    /// asked for.
    fn finish_bytes_for_writing(&mut self, bytes: &[u8])
        requires
            bytes@.len() <= old(self).byte_capacity(),
    ;

    /// Advances the machine by one step of pure computation.
    fn process(self) -> Result<FsmResult<Self, Self::Output>, Self::Error>;
}

/// A value with a canonical deserialiser machine.
pub trait Deserable: Sized {
    type Deserer: DeserMachine<Output = Self>;

    /// A fresh machine for one value of this type.
    #[must_use]
    fn deser() -> Self::Deserer {
        Self::Deserer::new()
    }

    /// A fresh machine, seeded with its starting input.
    #[must_use]
    fn deser_with_input(input: <Self::Deserer as DeserMachine>::ExtraInput) -> Self::Deserer {
        Self::Deserer::new_with_starting_input(input)
    }
}

} // verus!
