use vstd::prelude::*;

verus! {

/// The face of a die that was rolled: always a value from 1 to 6.
#[derive(Debug, Clone, Copy, PartialEq, Eq, Structural)]
pub struct RollResult(u8);

impl RollResult {
    #[verifier::type_invariant]
    spec fn face_in_range(self) -> bool {
        1 <= self.0 <= 6
    }

    /// Makes a face from its value; `None` when the value is not in 1..=6.
    pub fn new(value: u8) -> (r: Option<Self>)
        ensures
            r is Some <==> 1 <= value <= 6,
            r is Some ==> r->Some_0@ == value,
    {
        if value > 0 && value < 7 {
            Some(Self(value))
        } else {
            None
        }
    }

    /// All six faces, in ascending order.
    pub fn iter() -> (r: Vec<RollResult>)
        ensures
            r@.len() == 6,
            forall|i: int| 0 <= i < 6 ==> #[trigger] r@[i]@ == i + 1,
    {
        let mut r: Vec<RollResult> = Vec::new();
        let mut v: u8 = 1;
        while v <= 6
            invariant
                1 <= v <= 7,
                r@.len() == v - 1,
                forall|i: int| 0 <= i < v - 1 ==> #[trigger] r@[i]@ == i + 1,
            decreases 7 - v,
        {
            r.push(Self(v));
            v = v + 1;
        }
        r
    }

    /// The value shown on the face.
    pub fn value(&self) -> (r: u8)
        ensures
            r == self@,
            1 <= r <= 6,
    {
        proof {
            use_type_invariant(self);
        }
        self.0
    }
}

/// The face that shows the value `v`.
pub closed spec fn face_of(v: u8) -> RollResult {
    RollResult(v)
}

/// A face is determined by its value.
pub proof fn lemma_face_of(r: RollResult, v: u8)
    ensures
        face_of(v)@ == v,
        (r@ == v) == (r == face_of(v)),
{
}

impl View for RollResult {
    type V = u8;

    closed spec fn view(&self) -> u8 {
        self.0
    }
}

/// A source of die faces. An implementation may be random or deterministic.
pub trait DiceTrait {
    fn roll(&self) -> RollResult;
}

/// Relies on rand::random::<u8>: any byte, drawn from the thread-local generator.
#[verifier::external_body]
fn random_byte() -> u8 {
    rand::random::<u8>()
}

/// A fair six-sided die.
#[derive(Debug, Clone, Copy)]
pub struct RegularDice;

/// The face that a drawn byte shows: the byte modulo 6, plus 1.
pub fn face_from_byte(b: u8) -> (r: RollResult)
    ensures
        r@ == b % 6 + 1,
{
    RollResult(b % 6 + 1)
}

impl DiceTrait for RegularDice {
    fn roll(&self) -> RollResult {
        face_from_byte(random_byte())
    }
}

/// One die of a player, rolled through the source it holds.
#[derive(Debug, Clone)]
pub struct Dice<D> {
    inner: D,
}

impl<D: DiceTrait> Dice<D> {
    /// What produces this die's faces.
    pub closed spec fn source(&self) -> D {
        self.inner
    }

    pub fn new(inner: D) -> (r: Self)
        ensures
            r.source() == inner,
    {
        Dice { inner }
    }

    /// Rolls the die once.
    pub fn roll(&self) -> RollResult {
        self.inner.roll()
    }
}

impl Dice<RegularDice> {
    /// A fair random die.
    pub fn regular() -> Self {
        Dice { inner: RegularDice }
    }
}

} // verus!
