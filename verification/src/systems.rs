use vstd::prelude::*;

use crate::components::{Spawner, Transform};
use crate::hex::Axial;

verus! {

/// Whether a spawner fires this tick.
pub open spec fn fires(e: (Transform, Spawner)) -> bool {
    e.1.counter == 1
}

/// The position a firing spawner releases an agent at.
pub open spec fn spawn_pos(e: (Transform, Spawner)) -> Axial {
    e.0.position
}

/// The positions of the spawners that fire this tick, in order.
pub open spec fn spec_spawns(s: Seq<(Transform, Spawner)>) -> Seq<Axial>
    decreases s.len(),
{
    if s.len() == 0 {
        Seq::empty()
    } else {
        spec_spawns(s.drop_last()) + (if fires(s.last()) {
            seq![spawn_pos(s.last())]
        } else {
            Seq::empty()
        })
    }
}

/// Advances every spawner by one tick and collects the positions where
/// an agent is released: a spawner fires when its counter reaches zero
/// this tick, and then starts over at its period.
pub fn spawn_agents(spawners: &mut Vec<(Transform, Spawner)>) -> (spawns: Vec<Axial>)
    requires
        forall|i: int|
            0 <= i < old(spawners)@.len() ==> (#[trigger] old(spawners)@[i]).1.counter >= 1 && old(
                spawners,
            )@[i].1.period >= 1,
    ensures
        final(spawners)@.len() == old(spawners)@.len(),
        forall|i: int|
            0 <= i < old(spawners)@.len() ==> {
                let o = old(spawners)@[i];
                let n = #[trigger] final(spawners)@[i];
                &&& n.0 == o.0
                &&& n.1.period == o.1.period
                &&& n.1.counter == (if o.1.counter == 1 {
                    o.1.period
                } else {
                    (o.1.counter - 1) as u8
                })
                &&& n.1.counter >= 1
            },
        spawns@ == spec_spawns(old(spawners)@),
{
    let mut spawns: Vec<Axial> = Vec::new();
    let mut i: usize = 0;
    while i < spawners.len()
        invariant
            i <= spawners@.len(),
            spawners@.len() == old(spawners)@.len(),
            forall|j: int|
                i <= j < spawners@.len() ==> #[trigger] spawners@[j] == old(spawners)@[j],
            forall|j: int|
                0 <= j < old(spawners)@.len() ==> (#[trigger] old(spawners)@[j]).1.counter >= 1
                    && old(spawners)@[j].1.period >= 1,
            forall|j: int|
                0 <= j < i ==> {
                    let o = old(spawners)@[j];
                    let n = #[trigger] spawners@[j];
                    &&& n.0 == o.0
                    &&& n.1.period == o.1.period
                    &&& n.1.counter == (if o.1.counter == 1 {
                        o.1.period
                    } else {
                        (o.1.counter - 1) as u8
                    })
                },
            spawns@ == spec_spawns(old(spawners)@.take(i as int)),
        decreases spawners@.len() - i,
    {
        let (pos, sp) = spawners[i];
        proof {
            let pre = old(spawners)@.take(i as int);
            let post = old(spawners)@.take(i as int + 1);
            assert(post.drop_last() =~= pre);
            assert(post.last() == (pos, sp));
        }
        if sp.counter == 1 {
            spawns.push(pos.position);
            spawners[i].1.counter = sp.period;
            proof {
                assert(spawns@ =~= spec_spawns(old(spawners)@.take(i as int + 1)));
            }
        } else {
            spawners[i].1.counter = sp.counter - 1;
            proof {
                assert(spawns@ =~= spec_spawns(old(spawners)@.take(i as int + 1)));
            }
        }
        i += 1;
    }
    proof {
        assert(old(spawners)@.take(spawners@.len() as int) =~= old(spawners)@);
    }
    spawns
}

} // verus!
