use vstd::prelude::*;

verus! {

/// A supply of die rolls.
///
/// The evaluator asks a source for one roll at a time and never looks at
/// how the roll was made. A source remembers, as ghost state, every roll it
/// has handed out, so that what an evaluation returns can be stated over the
/// rolls it consumed.
pub trait DieSource {
    /// Every roll handed out so far, oldest first.
    spec fn drawn(&self) -> Seq<i32>;

    /// Rolls one die with `sides` faces.
    fn roll_die(&mut self, sides: i32) -> (value: i32)
        requires
            sides >= 1,
        ensures
            1 <= value <= sides,
            final(self).drawn() == old(self).drawn().push(value),
    ;
}

#[verifier::external_type_specification]
#[verifier::external_body]
pub struct ExThreadRng(rand::rngs::ThreadRng);

/// `rand::rng`: a handle to the calling thread's generator.
///
/// Nothing is claimed of the handle. The outside function panics when the
/// operating system cannot seed the generator.
#[verifier::external_body]
fn thread_generator() -> (rng: rand::rngs::ThreadRng) {
    rand::rng()
}

/// `rand::Rng::random_range` on the inclusive range from 1 to `sides`.
///
/// The outside function panics on an empty range, which `requires` leaves
/// out; of the value only its bounds are claimed, which hold of every
/// sample of a non-empty inclusive range.
#[verifier::external_body]
fn sample_face(rng: &mut rand::rngs::ThreadRng, sides: i32) -> (value: i32)
    requires
        sides >= 1,
    ensures
        1 <= value <= sides,
{
    rand::Rng::random_range(rng, 1..=sides)
}

/// Dice rolled by the thread's random number generator.
pub struct ThreadDice {
    rng: rand::rngs::ThreadRng,
    log: Ghost<Seq<i32>>,
}

impl ThreadDice {
    /// A source that has handed out nothing yet.
    pub fn new() -> (dice: Self)
        ensures
            dice.drawn() == Seq::<i32>::empty(),
    {
        ThreadDice { rng: thread_generator(), log: Ghost(Seq::empty()) }
    }
}

impl DieSource for ThreadDice {
    closed spec fn drawn(&self) -> Seq<i32> {
        self.log@
    }

    fn roll_die(&mut self, sides: i32) -> (value: i32) {
        let value = sample_face(&mut self.rng, sides);
        proof {
            self.log@ = self.log@.push(value);
        }
        value
    }
}

/// The face that a scripted value shows on a die with `sides` faces: the
/// value itself where the die has such a face, else the nearest face.
pub open spec fn nearest_face(value: i32, sides: i32) -> i32 {
    if value < 1 {
        1
    } else if value > sides {
        sides
    } else {
        value
    }
}

/// What the roll number `index` of a script shows on a die with `sides`
/// faces. Past the end of the script every die shows 1.
pub open spec fn scripted_face(script: Seq<i32>, index: int, sides: i32) -> i32 {
    if 0 <= index < script.len() {
        nearest_face(script[index], sides)
    } else {
        1
    }
}

/// Dice that show a fixed list of values in turn, for reproducible rolls.
pub struct ScriptedDice {
    script: Vec<i32>,
    next: usize,
    log: Ghost<Seq<i32>>,
}

impl ScriptedDice {
    /// The values this source was made with.
    pub closed spec fn script(&self) -> Seq<i32> {
        self.script@
    }

    /// How many values of the script have been used.
    pub closed spec fn used(&self) -> nat {
        self.next as nat
    }

    /// A source that will show `script` from its first value on.
    pub fn new(script: Vec<i32>) -> (dice: Self)
        ensures
            dice.script() == script@,
            dice.used() == 0,
            dice.drawn() == Seq::<i32>::empty(),
    {
        ScriptedDice { script, next: 0, log: Ghost(Seq::empty()) }
    }

    /// How many values of the script are still unused.
    pub fn remaining(&self) -> (left: usize)
        ensures
            left == self.script().len() - self.used(),
            self.used() <= self.script().len(),
    {
        proof {
            use_type_invariant(self);
        }
        self.script.len() - self.next
    }

    #[verifier::type_invariant]
    spec fn inv(&self) -> bool {
        self.next <= self.script@.len()
    }
}

impl DieSource for ScriptedDice {
    closed spec fn drawn(&self) -> Seq<i32> {
        self.log@
    }

    fn roll_die(&mut self, sides: i32) -> (value: i32)
        ensures
            value == scripted_face(old(self).script(), old(self).used() as int, sides),
            final(self).script() == old(self).script(),
            final(self).used() == if old(self).used() < old(self).script().len() {
                old(self).used() + 1
            } else {
                old(self).used()
            },
    {
        proof {
            use_type_invariant(&*self);
        }
        let value = if self.next < self.script.len() {
            let wanted = self.script[self.next];
            self.next = self.next + 1;
            if wanted < 1 {
                1
            } else if wanted > sides {
                sides
            } else {
                wanted
            }
        } else {
            1
        };
        proof {
            self.log@ = self.log@.push(value);
        }
        value
    }
}

} // verus!
