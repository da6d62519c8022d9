use vstd::prelude::*;
use rand::Rng;

verus! {

/// Sum of a list of weights.
pub open spec fn weights_total(weights: Seq<u64>) -> nat
    decreases weights.len(),
{
    if weights.len() == 0 {
        0
    } else {
        weights[0] as nat + weights_total(weights.drop_first())
    }
}

/// The index a draw selects: walking the weights in order and taking each one
/// off the draw, the first whose weight exceeds what is left.
pub open spec fn draw_index(weights: Seq<u64>, draw: nat) -> nat
    decreases weights.len(),
{
    if weights.len() == 0 {
        0
    } else if draw < weights[0] {
        0
    } else {
        1 + draw_index(weights.drop_first(), (draw - weights[0]) as nat)
    }
}

/// The sum of the weights, taken from the back.
pub proof fn lemma_weights_total_last(w: Seq<u64>)
    requires
        w.len() > 0,
    ensures
        weights_total(w) == weights_total(w.drop_last()) + w.last(),
    decreases w.len(),
{
    if w.len() > 1 {
        lemma_weights_total_last(w.drop_first());
        assert(w.drop_first().drop_last() =~= w.drop_last().drop_first());
        assert(w.drop_last()[0] == w[0]);
        assert(w.drop_first().last() == w.last());
    } else {
        assert(w.drop_first().len() == 0);
        assert(w.drop_last().len() == 0);
        assert(weights_total(w.drop_first()) == 0);
        assert(weights_total(w.drop_last()) == 0);
    }
}

proof fn lemma_draw_index_in_range(weights: Seq<u64>, draw: nat)
    requires
        draw < weights_total(weights),
    ensures
        draw_index(weights, draw) < weights.len(),
        weights[draw_index(weights, draw) as int] > 0,
    decreases weights.len(),
{
    if weights.len() > 0 && draw >= weights[0] {
        lemma_draw_index_in_range(weights.drop_first(), (draw - weights[0]) as nat);
    }
}

/// Relies on `rand::thread_rng().gen_range(0..bound)`: a value below `bound`.
/// `gen_range` panics on an empty range, hence `bound > 0`.
#[verifier::external_body]
pub(crate) fn random_below(bound: u64) -> (r: u64)
    requires
        bound > 0,
    ensures
        r < bound,
{
    rand::thread_rng().gen_range(0..bound)
}

/// The index that `draw` selects among `weights`.
pub fn index_for_draw(weights: &Vec<u64>, draw: u64) -> (r: usize)
    requires
        draw < weights_total(weights@),
    ensures
        r == draw_index(weights@, draw as nat),
        r < weights@.len(),
        weights@[r as int] > 0,
{
    proof {
        lemma_draw_index_in_range(weights@, draw as nat);
    }
    let mut rest: u64 = draw;
    let mut i: usize = 0;
    assert(weights@.skip(0) =~= weights@);
    while i < weights.len()
        invariant
            i <= weights@.len(),
            rest < weights_total(weights@.skip(i as int)),
            draw_index(weights@, draw as nat) == i + draw_index(weights@.skip(i as int), rest as nat),
        decreases weights@.len() - i,
    {
        assert(weights@.skip(i as int).drop_first() =~= weights@.skip(i + 1));
        if rest < weights[i] {
            return i;
        }
        rest = rest - weights[i];
        i += 1;
    }
    assert(weights@.skip(i as int) =~= Seq::<u64>::empty());
    i
}

/// The sum of `weights`, or `None` when it does not fit in a `u64`.
pub fn total_weight(weights: &Vec<u64>) -> (r: Option<u64>)
    ensures
        match r {
            Some(t) => t == weights_total(weights@),
            None => weights_total(weights@) > u64::MAX,
        },
{
    let mut total: u64 = 0;
    let mut i: usize = weights.len();
    while i > 0
        invariant
            i <= weights@.len(),
            total == weights_total(weights@.skip(i as int)),
        decreases i,
    {
        assert(weights@.skip(i - 1).drop_first() =~= weights@.skip(i as int));
        if total > u64::MAX - weights[i - 1] {
            proof {
                lemma_total_suffix(weights@, i - 1);
            }
            return None;
        }
        total = total + weights[i - 1];
        i -= 1;
    }
    assert(weights@.skip(0) =~= weights@);
    Some(total)
}

proof fn lemma_total_suffix(weights: Seq<u64>, i: int)
    requires
        0 <= i <= weights.len(),
    ensures
        weights_total(weights.skip(i)) <= weights_total(weights),
    decreases i,
{
    if i > 0 {
        lemma_total_suffix(weights, i - 1);
        assert(weights.skip(i - 1).drop_first() =~= weights.skip(i));
    } else {
        assert(weights.skip(0) =~= weights);
    }
}

/// An index drawn at random with probability proportional to its weight. The
/// weights must have a positive total that fits in a `u64`.
pub fn random_index_from_probabilities(weights: &Vec<u64>) -> (r: usize)
    requires
        0 < weights_total(weights@) <= u64::MAX,
    ensures
        r < weights@.len(),
        weights@[r as int] > 0,
        exists|d: nat| d < weights_total(weights@) && r == draw_index(weights@, d),
{
    let total = match total_weight(weights) {
        Some(t) => t,
        None => 0,
    };
    let d = random_below(total);
    let i = index_for_draw(weights, d);
    assert(d < weights_total(weights@) && i == draw_index(weights@, d as nat));
    i
}

} // verus!
