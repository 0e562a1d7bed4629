use rand::rngs::StdRng;
use rand::seq::SliceRandom;
use vstd::prelude::*;

verus! {

#[verifier::external_type_specification]
#[verifier::external_body]
pub struct ExStdRng(StdRng);

/// Shuffles `buf` with `rand`'s `SliceRandom::shuffle`. Its source swaps
/// pairs of cells (a Fisher-Yates shuffle), so the result holds the same
/// colours as before; which arrangement comes out depends on the state of
/// `rng`, of which nothing is stated.
#[verifier::external_body]
fn shuffle_colours(buf: &mut Vec<u8>, rng: &mut StdRng)
    ensures
        final(buf)@.len() == old(buf)@.len(),
        final(buf)@.to_multiset() == old(buf)@.to_multiset(),
{
    buf.shuffle(rng);
}

/// A random number generator that counts the shuffles made with it and
/// records each one (what it was given and what it gave back). Both can only
/// grow by shuffling.
pub struct CountingRng {
    rng: StdRng,
    draws: Ghost<nat>,
    made: Ghost<Seq<(Seq<u8>, Seq<u8>)>>,
}

impl CountingRng {
    /// How many shuffles have been made with this generator.
    pub closed spec fn draws(&self) -> nat {
        self.draws@
    }

    /// The shuffles made with this generator, in order: each buffer as it
    /// was handed over and as it came back.
    pub closed spec fn shuffles(&self) -> Seq<(Seq<u8>, Seq<u8>)> {
        self.made@
    }

    /// A generator that has made no shuffle yet.
    pub fn new(rng: StdRng) -> (r: Self)
        ensures
            r.draws() == 0,
            r.shuffles().len() == 0,
    {
        Self { rng, draws: Ghost(0), made: Ghost(Seq::empty()) }
    }

    /// Shuffles `buf` (see `shuffle_colours`) and counts the shuffle.
    pub fn shuffle(&mut self, buf: &mut Vec<u8>)
        ensures
            final(buf)@.len() == old(buf)@.len(),
            final(buf)@.to_multiset() == old(buf)@.to_multiset(),
            final(self).draws() == old(self).draws() + 1,
            final(self).shuffles() == old(self).shuffles().push((old(buf)@, final(buf)@)),
    {
        let ghost given = buf@;
        shuffle_colours(buf, &mut self.rng);
        self.draws = Ghost(self.draws@ + 1);
        self.made = Ghost(self.made@.push((given, buf@)));
    }
}

} // verus!
