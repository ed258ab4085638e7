use vstd::prelude::*;

use crate::commands::{promoted, spec_cycle, Command, cycle_layout, promote};
use crate::geometry::Rect;
use crate::identity::Signature;
use crate::layout::{tiling, tile_windows};
use crate::reconcile::{ints, reconcile, reconcile_spec, views};
use crate::state::SessionState;

verus! {

/// One window movement the provider is asked to carry out: the live
/// window at `live_index` goes to `rect`.
#[derive(Clone, Copy, PartialEq, Eq, Structural, Debug)]
pub struct Placement {
    pub live_index: usize,
    pub rect: Rect,
}

/// Everything one invocation decides: the state to persist, the full
/// reconciled order, and the geometry to request.
pub struct Outcome {
    pub state: SessionState,
    pub order: Vec<usize>,
    pub placements: Vec<Placement>,
}

/// The entries of the order whose window may receive geometry this
/// pass, in order.
pub open spec fn filter_eligible(order: Seq<usize>, eligible: Seq<bool>) -> Seq<usize>
    decreases order.len(),
{
    if order.len() == 0 {
        Seq::empty()
    } else {
        let pre = filter_eligible(order.drop_last(), eligible);
        if eligible[order.last() as int] {
            pre.push(order.last())
        } else {
            pre
        }
    }
}

/// Find where `target` stands in the order, if anywhere.
fn find_position(order: &Vec<usize>, target: usize) -> (r: Option<usize>)
    ensures
        match r {
            Some(p) => p < order@.len() && order@[p as int] == target,
            None => forall|i: int| 0 <= i < order@.len() ==> order@[i] != target,
        },
{
    let n = order.len();
    let mut k: usize = 0;
    while k < n
        invariant
            n == order@.len(),
            0 <= k <= n,
            forall|i: int| 0 <= i < k ==> order@[i] != target,
        decreases n - k,
    {
        if order[k] == target {
            return Some(k);
        }
        k = k + 1;
    }
    None
}

/// Decide one whole invocation.
///
/// Sequence: reconcile the persisted order against the live set, apply
/// the command (`Cycle` moves to the next layout, `Promote` moves the
/// focused window, if it is in the order, to the master slot), compute
/// slot rectangles over the windows eligible for geometry, and return
/// the full unfiltered order for persisting.
///
/// `live` holds the live windows' signatures in discovery order;
/// `eligible` says, for each live index, whether that window may
/// receive geometry this pass (not minimized, centre on the main
/// display); `focused` is the live index of the focused window, where
/// the provider resolved one.
pub fn run_invocation(
    prior: &SessionState,
    live: &Vec<Signature>,
    eligible: &Vec<bool>,
    focused: Option<usize>,
    cmd: Command,
    screen: Rect,
) -> (r: Outcome)
    requires
        screen.bounded(),
        eligible@.len() == live@.len(),
        live@.len() <= 0x1000_0000_0000,
    ensures
        r.state@.layout == if cmd == Command::Cycle {
            spec_cycle(prior@.layout)
        } else {
            prior@.layout
        },
        ({
            let base = reconcile_spec(prior@.order, views(live@));
            if cmd == Command::Promote && focused is Some && focused->0 < live@.len() {
                exists|p: int|
                    0 <= p < base.len() && base[p] == focused->0 && ints(r.order@) == promoted(
                        base,
                        p,
                    )
            } else {
                ints(r.order@) == base
            }
        }),
        r.order@.len() == live@.len(),
        forall|i: int| 0 <= i < r.order@.len() ==> (#[trigger] r.order@[i]) < live@.len(),
        forall|i1: int, i2: int| 0 <= i1 < i2 < r.order@.len() ==> r.order@[i1] != r.order@[i2],
        forall|k: int| 0 <= k < live@.len() ==> ints(r.order@).contains(k),
        r.state@.order.len() == r.order@.len(),
        forall|k: int| 0 <= k < r.order@.len() ==> r.state@.order[k] == live@[(
        #[trigger] r.order@[k]) as int]@,
        r.placements@.map_values(|pl: Placement| pl.live_index) == filter_eligible(
            r.order@,
            eligible@,
        ),
        tiling(r.state@.layout, screen, r.placements@.map_values(|pl: Placement| pl.rect)),
        forall|k: int| 0 <= k < r.placements@.len() ==> (#[trigger] r.placements@[k]).rect.wf(),
{
    let mut order = reconcile(&prior.window_order, live);
    proof {
        assert(views(prior.window_order@) == prior@.order);
    }
    let new_layout = match cmd {
        Command::Cycle => cycle_layout(prior.current_layout),
        Command::Promote => prior.current_layout,
    };
    let ghost base = ints(order@);
    if let Command::Promote = cmd {
        let pos = match focused {
            Some(f) => find_position(&order, f),
            None => None,
        };
        proof {
            if focused is Some && focused->0 < live@.len() {
                assert(ints(order@).contains(focused->0 as int));
                let w = choose|i: int|
                    0 <= i < ints(order@).len() && ints(order@)[i] == focused->0 as int;
                assert(order@[w] == focused->0);
                if pos is None {
                    assert(false);
                }
            }
        }
        let ghost b = order@;
        promote(&mut order, pos);
        proof {
            match pos {
                Some(p) => {
                    crate::commands::lemma_promoted_perm::<usize>(b, p as int);
                    crate::commands::lemma_promoted_perm::<int>(ints(b), p as int);
                    assert(ints(order@) =~= promoted(ints(b), p as int));
                    assert(ints(b)[p as int] == b[p as int] as int);
                    assert forall|k: int| 0 <= k < live@.len() implies ints(order@).contains(
                        k,
                    ) by {
                        assert(ints(b).contains(k));
                        assert(promoted(ints(b), p as int).contains(k));
                    }
                },
                None => {},
            }
        }
    }
    let n = order.len();
    let mut tiled: Vec<usize> = Vec::new();
    for k in 0..n
        invariant
            n == order@.len(),
            eligible@.len() == live@.len(),
            forall|i: int| 0 <= i < order@.len() ==> (#[trigger] order@[i]) < live@.len(),
            tiled@ == filter_eligible(order@.take(k as int), eligible@),
            tiled@.len() <= k,
            forall|i: int| 0 <= i < tiled@.len() ==> (#[trigger] tiled@[i]) < live@.len(),
    {
        proof {
            assert(order@.take(k as int + 1).drop_last() =~= order@.take(k as int));
            assert(order@.take(k as int + 1).last() == order@[k as int]);
        }
        if eligible[order[k]] {
            tiled.push(order[k]);
        }
    }
    proof {
        assert(order@.take(n as int) =~= order@);
    }
    let rects = tile_windows(new_layout, screen, tiled.len());
    let mut placements: Vec<Placement> = Vec::new();
    let m = tiled.len();
    for k in 0..m
        invariant
            m == tiled@.len(),
            m == rects@.len(),
            placements@.len() == k,
            forall|i: int| 0 <= i < k ==> (#[trigger] placements@[i]) == (Placement {
                live_index: tiled@[i],
                rect: rects@[i],
            }),
    {
        placements.push(Placement { live_index: tiled[k], rect: rects[k] });
    }
    let mut new_order: Vec<Signature> = Vec::new();
    for k in 0..n
        invariant
            n == order@.len(),
            forall|i: int| 0 <= i < order@.len() ==> (#[trigger] order@[i]) < live@.len(),
            new_order@.len() == k,
            forall|t: int| 0 <= t < k ==> (#[trigger] new_order@[t])@ == live@[order@[t] as int]@,
    {
        let idx = order[k];
        new_order.push(live[idx].duplicate());
    }
    let state = SessionState { current_layout: new_layout, window_order: new_order };
    proof {
        assert(placements@.map_values(|pl: Placement| pl.live_index) =~= tiled@);
        assert(placements@.map_values(|pl: Placement| pl.rect) =~= rects@);
        assert(state@.order.len() == order@.len());
    }
    Outcome { state, order, placements }
}

} // verus!
