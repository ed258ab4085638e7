use vstd::prelude::*;

use crate::layout::Layout;
use vstd::string::StringExecFns;

verus! {

/// The two commands a single invocation can carry out.
#[derive(Clone, Copy, PartialEq, Eq, Structural, Debug)]
pub enum Command {
    Cycle,
    Promote,
}

/// The successor of a layout in the fixed cycle
/// vertical, horizontal, monocle, and around again.
pub open spec fn spec_cycle(l: Layout) -> Layout {
    match l {
        Layout::Vertical => Layout::Horizontal,
        Layout::Horizontal => Layout::Monocle,
        Layout::Monocle => Layout::Vertical,
    }
}

/// Switch to the next layout in the cycle; always succeeds and never
/// touches the window order.
pub fn cycle_layout(l: Layout) -> (r: Layout)
    ensures
        r == spec_cycle(l),
{
    match l {
        Layout::Vertical => Layout::Horizontal,
        Layout::Horizontal => Layout::Monocle,
        Layout::Monocle => Layout::Vertical,
    }
}

/// Cycling three times returns every layout to where it started.
pub proof fn lemma_cycle_period(l: Layout)
    ensures
        spec_cycle(spec_cycle(spec_cycle(l))) == l,
{
}

/// The order after moving the entry at `p` to the master slot: that
/// entry comes first and every other entry keeps its relative place.
pub open spec fn promoted<T>(s: Seq<T>, p: int) -> Seq<T> {
    seq![s[p]] + s.take(p) + s.skip(p + 1)
}

/// Move the entry at position `focused` to the front.  When no
/// position is given, or it lies outside the order (the focused window
/// is not part of the tiled set), the order is left unchanged.
pub fn promote<T>(order: &mut Vec<T>, focused: Option<usize>)
    ensures
        match focused {
            Some(p) => {
                &&& p < old(order)@.len() ==> final(order)@ == promoted(old(order)@, p as int)
                &&& p >= old(order)@.len() ==> final(order)@ == old(order)@
            },
            None => final(order)@ == old(order)@,
        },
{
    match focused {
        Some(p) => {
            if p < order.len() {
                let entry = order.remove(p);
                order.insert(0, entry);
                proof {
                    assert(order@ =~= promoted(old(order)@, p as int));
                }
            }
        },
        None => {},
    }
}


/// Promotion permutes the order: same length, entry `i` of the new
/// order is a named entry of the old one, membership is unchanged, and
/// distinct entries stay distinct.
pub proof fn lemma_promoted_perm<T>(s: Seq<T>, p: int)
    requires
        0 <= p < s.len(),
    ensures
        promoted(s, p).len() == s.len(),
        forall|i: int| 0 <= i < s.len() ==> #[trigger] promoted(s, p)[i] == s[
            if i == 0 { p } else if i <= p { i - 1 } else { i }
        ],
        forall|x: T| promoted(s, p).contains(x) <==> s.contains(x),
        (forall|i1: int, i2: int| 0 <= i1 < i2 < s.len() ==> s[i1] != s[i2]) ==> (forall|
            i1: int,
            i2: int,
        | 0 <= i1 < i2 < promoted(s, p).len() ==> promoted(s, p)[i1] != promoted(s, p)[i2]),
{
    let t = promoted(s, p);
    assert forall|i: int| 0 <= i < s.len() implies #[trigger] t[i] == s[
        if i == 0 { p } else if i <= p { i - 1 } else { i }
    ] by {
        if i == 0 {
        } else if i <= p {
            assert(t[i] == s.take(p)[i - 1]);
        } else {
            assert(t[i] == s.skip(p + 1)[i - 1 - p]);
        }
    }
    assert forall|x: T| #[trigger] t.contains(x) implies s.contains(x) by {
        let i = choose|i: int| 0 <= i < t.len() && t[i] == x;
        let j: int = if i == 0 { p } else if i <= p { i - 1 } else { i };
        assert(s[j] == x);
    }
    assert forall|x: T| #[trigger] s.contains(x) implies t.contains(x) by {
        let j = choose|j: int| 0 <= j < s.len() && s[j] == x;
        let i: int = if j == p { 0 } else if j < p { j + 1 } else { j };
        assert(t[i] == x);
    }
}


/// Which command an argument word names.
pub open spec fn spec_parse_command(s: Seq<char>) -> Option<Command> {
    if s == "cycle"@ {
        Some(Command::Cycle)
    } else if s == "promote"@ {
        Some(Command::Promote)
    } else {
        None
    }
}

/// Recognize a command word; anything else is rejected, and the
/// caller leaves the persisted state untouched.
pub fn parse_command(s: &str) -> (r: Option<Command>)
    ensures
        r == spec_parse_command(s@),
{
    let owned = s.to_owned();
    if owned == String::from_str("cycle") {
        Some(Command::Cycle)
    } else if owned == String::from_str("promote") {
        Some(Command::Promote)
    } else {
        None
    }
}

} // verus!
