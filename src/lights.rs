//! Which objects of a scene emit light, and how one of them is drawn.
use vstd::prelude::*;

verus! {

/// Lists, in increasing order, the ids (positions) of the objects whose
/// material is an emitter.
pub fn light_ids(emitters: &Vec<bool>) -> (ids: Vec<u32>)
    requires
        emitters.len() <= u32::MAX + 1,
    ensures
        forall|k: int| 0 <= k < ids.len() ==> #[trigger] ids[k] < emitters.len() && emitters[ids[k] as int],
        forall|k1: int, k2: int| 0 <= k1 < k2 < ids.len() ==> #[trigger] ids[k1] < #[trigger] ids[k2],
        forall|i: int| 0 <= i < emitters.len() && #[trigger] emitters[i] ==> ids@.contains(i as u32),
{
    let mut ids: Vec<u32> = Vec::new();
    let mut i: usize = 0;
    while i < emitters.len()
        invariant
            emitters.len() <= u32::MAX + 1,
            i <= emitters.len(),
            forall|k: int| 0 <= k < ids.len() ==> #[trigger] ids[k] < i && emitters[ids[k] as int],
            forall|k1: int, k2: int| 0 <= k1 < k2 < ids.len() ==> #[trigger] ids[k1] < #[trigger] ids[k2],
            forall|n: int| 0 <= n < i && #[trigger] emitters[n] ==> ids@.contains(n as u32),
        decreases emitters.len() - i,
    {
        if emitters[i] {
            let ghost before = ids@;
            ids.push(i as u32);
            proof {
                assert(ids@[ids.len() - 1] == i as u32);
                assert forall|n: int| 0 <= n <= i && #[trigger] emitters[n] implies ids@.contains(n as u32) by {
                    if n < i {
                        let k = choose|k: int| 0 <= k < before.len() && before[k] == n as u32;
                        assert(ids@[k] == n as u32);
                    }
                }
            }
        }
        i = i + 1;
    }
    ids
}

/// Relies on rand's `Rng::gen_range` with the thread-local generator: for the
/// non-empty range `0..n` it returns a value of that range (it panics only on
/// an empty range).
#[verifier::external_body]
fn random_below(n: usize) -> (r: usize)
    requires
        n > 0,
    ensures
        r < n,
{
    rand::Rng::gen_range(&mut rand::thread_rng(), 0..n)
}

/// Draws a position below `count` uniformly at random, or nothing when
/// `count` is zero.
pub fn pick_index(count: usize) -> (r: Option<usize>)
    ensures
        r is None <==> count == 0,
        r matches Some(i) ==> i < count,
{
    if count == 0 {
        None
    } else {
        Some(random_below(count))
    }
}

/// Relies on rand's `SliceRandom::choose` for slices with the thread-local
/// generator: it returns `None` for an empty slice and otherwise a reference
/// to the element at a random position of the slice.
#[verifier::external_body]
fn choose_from(items: &Vec<u32>) -> (r: Option<u32>)
    ensures
        r is None <==> items.len() == 0,
        r matches Some(x) ==> items@.contains(x),
{
    rand::seq::SliceRandom::choose(items.as_slice(), &mut rand::thread_rng()).copied()
}

/// Draws one of the scene's lights uniformly at random, or nothing when the
/// scene has none.
pub fn pick_light(lights: &Vec<u32>) -> (r: Option<u32>)
    ensures
        r is None <==> lights.len() == 0,
        r matches Some(id) ==> lights@.contains(id),
{
    choose_from(lights)
}

} // verus!
