//! Decoding bytes into diagonal steps for the bishop.
//!
//! Each byte yields four steps, taken from its 2-bit groups starting at the
//! least significant pair: `00` is northwest, `01` northeast, `10` southwest,
//! `11` southeast.

use vstd::prelude::*;

verus! {

/// A step for the bishop to take.
#[derive(Clone, Copy, Debug, PartialEq, Eq, Structural)]
pub enum Step {
    /// northwest (up and left)
    NW,
    /// northeast (up and right)
    NE,
    /// southwest (down and left)
    SW,
    /// southeast (down and right)
    SE,
}

/// The step encoded by the low two bits of a value.
pub open spec fn step_of_bits(v: u8) -> Step {
    if v & 0b11 == 0b00 {
        Step::NW
    } else if v & 0b11 == 0b01 {
        Step::NE
    } else if v & 0b11 == 0b10 {
        Step::SW
    } else {
        Step::SE
    }
}

/// The four steps encoded by one byte, least significant bit pair first.
pub open spec fn steps_of_byte(b: u8) -> Seq<Step> {
    seq![step_of_bits(b), step_of_bits(b >> 2u8), step_of_bits(b >> 4u8), step_of_bits(b >> 6u8)]
}

/// Every step encoded by a byte sequence, in order: four per byte,
/// low-to-high bit pairs within each byte, bytes first to last.
pub open spec fn all_steps(data: Seq<u8>) -> Seq<Step>
    decreases data.len(),
{
    if data.len() == 0 {
        Seq::empty()
    } else {
        steps_of_byte(data[0]) + all_steps(data.drop_first())
    }
}

/// The steps decoded from a byte sequence under a step limit: all of them
/// when `limit` is zero or exceeds what the data encodes, and otherwise the
/// first `limit` of them.
pub open spec fn decoded_steps(data: Seq<u8>, limit: usize) -> Seq<Step> {
    let full = all_steps(data);
    if limit == 0 || limit >= full.len() {
        full
    } else {
        full.take(limit as int)
    }
}

/// A byte sequence encodes exactly four steps per byte.
pub proof fn lemma_all_steps_len(data: Seq<u8>)
    ensures
        all_steps(data).len() == 4 * data.len(),
    decreases data.len(),
{
    if data.len() > 0 {
        lemma_all_steps_len(data.drop_first());
    }
}

/// Decoding `k` bytes yields `4k` steps when the limit is zero, and
/// `min(limit, 4k)` steps otherwise.
pub proof fn lemma_decoded_len(data: Seq<u8>, limit: usize)
    ensures
        limit == 0 ==> decoded_steps(data, limit).len() == 4 * data.len(),
        limit > 0 ==> decoded_steps(data, limit).len() == vstd::math::min(
            limit as int,
            4 * data.len() as int,
        ),
{
    lemma_all_steps_len(data);
}

/// Appending a byte appends exactly its four steps.
proof fn lemma_all_steps_push(data: Seq<u8>, b: u8)
    ensures
        all_steps(data.push(b)) == all_steps(data) + steps_of_byte(b),
    decreases data.len(),
{
    if data.len() == 0 {
        assert(data.push(b)[0] == b);
        assert(data.push(b).drop_first() =~= Seq::<u8>::empty());
        assert(all_steps(data.push(b)) == steps_of_byte(b) + all_steps(
            data.push(b).drop_first(),
        ));
        assert(all_steps(data.push(b).drop_first()) == Seq::<Step>::empty());
        assert(all_steps(data.push(b)) =~= all_steps(data) + steps_of_byte(b));
    } else {
        assert(data.push(b)[0] == data[0]);
        assert(data.push(b).drop_first() =~= data.drop_first().push(b));
        lemma_all_steps_push(data.drop_first(), b);
        assert(all_steps(data.push(b)) =~= all_steps(data) + steps_of_byte(b));
    }
}

/// How one step moves a pair of grid coordinates, saturating at zero and at
/// the largest machine value: west and north decrease an axis by one, east
/// and south increase it by one.
pub open spec fn transform_spec(s: Step, x: usize, y: usize) -> (usize, usize) {
    let nx = if s.goes_west() {
        if x == 0 {
            0usize
        } else {
            (x - 1) as usize
        }
    } else {
        if x == usize::MAX {
            usize::MAX
        } else {
            (x + 1) as usize
        }
    };
    let ny = if s.goes_north() {
        if y == 0 {
            0usize
        } else {
            (y - 1) as usize
        }
    } else {
        if y == usize::MAX {
            usize::MAX
        } else {
            (y + 1) as usize
        }
    };
    (nx, ny)
}

impl Step {
    /// Whether this step moves one column to the west (left).
    pub open spec fn goes_west(self) -> bool {
        self is NW || self is SW
    }

    /// Whether this step moves one row to the north (up).
    pub open spec fn goes_north(self) -> bool {
        self is NW || self is NE
    }

    /// Transform coordinates based on the direction of this step.
    pub fn transform(&self, x: usize, y: usize) -> (r: (usize, usize))
        ensures
            r == transform_spec(*self, x, y),
    {
        match self {
            Step::NW => (x.saturating_sub(1), y.saturating_sub(1)),
            Step::NE => (x.saturating_add(1), y.saturating_sub(1)),
            Step::SW => (x.saturating_sub(1), y.saturating_add(1)),
            Step::SE => (x.saturating_add(1), y.saturating_add(1)),
        }
    }
}

impl From<u8> for Step {
    /// The step encoded by the low two bits of the value.
    fn from(v: u8) -> (r: Step)
        ensures
            r == step_of_bits(v),
    {
        if v & 0b11 == 0b00 {
            Step::NW
        } else if v & 0b11 == 0b01 {
            Step::NE
        } else if v & 0b11 == 0b10 {
            Step::SW
        } else {
            Step::SE
        }
    }
}

impl vstd::std_specs::convert::FromSpecImpl<u8> for Step {
    open spec fn obeys_from_spec() -> bool {
        true
    }

    open spec fn from_spec(v: u8) -> Step {
        step_of_bits(v)
    }
}

/// Convert a byte slice to a sequence of steps.
/// The count of items returned is restricted to `limit`.
/// If `limit` is zero, all created steps will be returned.
pub fn steps_from_bytes(xs: &[u8], limit: usize) -> (r: Vec<Step>)
    ensures
        r@ == decoded_steps(xs@, limit),
{
    let mut out: Vec<Step> = Vec::new();
    let mut i: usize = 0;
    while i < xs.len()
        invariant
            i <= xs@.len(),
            out@ == all_steps(xs@.take(i as int)),
        decreases xs@.len() - i,
    {
        let b = xs[i];
        out.push(Step::from(b));
        out.push(Step::from(b >> 2));
        out.push(Step::from(b >> 4));
        out.push(Step::from(b >> 6));
        proof {
            lemma_all_steps_push(xs@.take(i as int), xs@[i as int]);
            assert(xs@.take(i + 1) =~= xs@.take(i as int).push(xs@[i as int]));
            assert(out@ =~= all_steps(xs@.take(i + 1)));
        }
        i += 1;
    }
    proof {
        assert(xs@.take(xs@.len() as int) =~= xs@);
    }
    if limit > 0 && limit < out.len() {
        out.truncate(limit);
        proof {
            assert(out@ =~= decoded_steps(xs@, limit));
        }
    }
    out
}

} // verus!
