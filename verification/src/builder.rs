//! Process identifiers, handed out in sequence or drawn from a
//! pseudo-random generator.

use crate::types::Process;
use vstd::prelude::*;

verus! {

/// The xorshift1024* generator of the `xorshift` crate, carried as an
/// opaque value.
#[verifier::external_type_specification]
#[verifier::external_body]
pub struct ExXorshift1024(xorshift::Xorshift1024);

/// Calls `xorshift::thread_rng`, which seeds a generator from a state that
/// the process draws once from the operating system and advances it by a
/// jump count that grows with every call. Nothing is claimed of the
/// generator. The call fails only where the operating system has no
/// source of randomness.
#[verifier::external_body]
fn seeded_generator() -> (generator: xorshift::Xorshift1024) {
    xorshift::thread_rng()
}

/// Calls `Rng::fill_bytes` of the `xorshift` crate on a buffer of four
/// bytes and returns the buffer. The bytes depend on the state of the
/// generator, of which nothing is known: nothing is claimed of them.
#[verifier::external_body]
fn draw_bytes(generator: &mut xorshift::Xorshift1024) -> (bytes: [u8; 4]) {
    let mut bytes: [u8; 4] = [0; 4];
    xorshift::Rng::fill_bytes(generator, &mut bytes);
    bytes
}

/// Source of process identifiers.
#[derive(Copy, Clone)]
pub struct ProcBuilder {
    xorshift: xorshift::Xorshift1024,
    counter: u32,
}

impl ProcBuilder {
    /// How many identifiers have been handed out in sequence.
    pub closed spec fn issued(&self) -> u32 {
        self.counter
    }

    /// A builder that has handed out no identifier yet.
    pub fn new() -> (builder: ProcBuilder)
        ensures
            builder.issued() == 0,
    {
        ProcBuilder { xorshift: seeded_generator(), counter: 0 }
    }

    /// The next identifier in sequence: 0, 1, 2 and so on.
    pub fn count(&mut self) -> (p: Process)
        requires
            old(self).issued() < u32::MAX,
        ensures
            p.0 == old(self).issued(),
            final(self).issued() == old(self).issued() + 1,
    {
        self.counter += 1;
        Process(self.counter - 1)
    }

    /// An identifier spelled by the next four bytes of the generator, in
    /// little-endian order. The sequence count is left alone.
    pub fn xorshift(&mut self) -> (p: Process)
        ensures
            final(self).issued() == old(self).issued(),
    {
        let bytes = draw_bytes(&mut self.xorshift);
        Process::from_le_bytes(bytes)
    }
}

impl Default for ProcBuilder {
    fn default() -> (builder: ProcBuilder)
        ensures
            builder.issued() == 0,
    {
        ProcBuilder::new()
    }
}

} // verus!
