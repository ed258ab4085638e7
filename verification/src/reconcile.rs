use vstd::prelude::*;

use crate::identity::{SigView, Signature};

verus! {

/// The signature views of a sequence of signatures.
pub open spec fn views(s: Seq<Signature>) -> Seq<SigView> {
    s.map_values(|x: Signature| x@)
}

/// The integer values of a sequence of indices.
pub open spec fn ints(s: Seq<usize>) -> Seq<int> {
    s.map_values(|x: usize| x as int)
}

/// The first position at or after `j` holding an unconsumed live
/// window with signature `sig`, if any.
pub open spec fn find_free(live: Seq<SigView>, used: Seq<int>, sig: SigView, j: int) -> Option<
    int,
>
    decreases live.len() - j
        when j <= live.len()
{
    if j >= live.len() {
        None
    } else if live[j] == sig && !used.contains(j) {
        Some(j)
    } else {
        find_free(live, used, sig, j + 1)
    }
}

/// What a successful search implies about its result.
proof fn lemma_find_free_some(live: Seq<SigView>, used: Seq<int>, sig: SigView, j: int)
    requires
        0 <= j <= live.len(),
        find_free(live, used, sig, j) is Some,
    ensures
        ({
            let x = find_free(live, used, sig, j)->0;
            &&& j <= x < live.len()
            &&& live[x] == sig
            &&& !used.contains(x)
        }),
    decreases live.len() - j,
{
    if j >= live.len() {
    } else if live[j] == sig && !used.contains(j) {
    } else {
        lemma_find_free_some(live, used, sig, j + 1);
    }
}

/// Membership in a sequence extended by one element.
proof fn lemma_push_contains(s: Seq<int>, v: int)
    ensures
        forall|x: int| #[trigger] s.push(v).contains(x) <==> (s.contains(x) || x == v),
{
    assert forall|x: int| #[trigger] s.push(v).contains(x) implies (s.contains(x) || x == v) by {
        let i = choose|i: int| 0 <= i < s.push(v).len() && s.push(v)[i] == x;
        if i < s.len() {
            assert(s[i] == x);
        }
    }
    assert forall|x: int| (s.contains(x) || x == v) implies #[trigger] s.push(v).contains(x) by {
        if x == v {
            assert(s.push(v)[s.len() as int] == x);
        } else {
            let i = choose|i: int| 0 <= i < s.len() && s[i] == x;
            assert(s.push(v)[i] == x);
        }
    }
}

/// Walk the persisted order; each signature consumes the first live
/// window that still carries it, extending `acc` with that window's
/// index; signatures of vanished windows are dropped silently.
pub open spec fn match_phase(persisted: Seq<SigView>, live: Seq<SigView>, acc: Seq<int>) -> Seq<
    int,
>
    decreases persisted.len(),
{
    if persisted.len() == 0 {
        acc
    } else {
        match find_free(live, acc, persisted[0], 0) {
            Some(j) => match_phase(persisted.drop_first(), live, acc.push(j)),
            None => match_phase(persisted.drop_first(), live, acc),
        }
    }
}

/// The indices in `[j, live_len)` not consumed by the walk, in
/// discovery order: the newly appeared windows.
pub open spec fn append_phase(live_len: int, used: Seq<int>, j: int) -> Seq<int>
    decreases live_len - j
        when j <= live_len
{
    if j >= live_len {
        Seq::empty()
    } else if used.contains(j) {
        append_phase(live_len, used, j + 1)
    } else {
        seq![j] + append_phase(live_len, used, j + 1)
    }
}

/// The reconciled order as indices into the live set: first the
/// persisted order restricted to windows still alive, then the new
/// windows appended in discovery order.
pub open spec fn reconcile_spec(persisted: Seq<SigView>, live: Seq<SigView>) -> Seq<int> {
    let m = match_phase(persisted, live, Seq::empty());
    m + append_phase(live.len() as int, m, 0)
}

/// Processing one more persisted signature extends the walk's result
/// by at most that signature's match.
proof fn lemma_match_phase_snoc(p: Seq<SigView>, live: Seq<SigView>, acc: Seq<int>, x: SigView)
    ensures
        match_phase(p.push(x), live, acc) == (match find_free(
            live,
            match_phase(p, live, acc),
            x,
            0,
        ) {
            Some(j) => match_phase(p, live, acc).push(j),
            None => match_phase(p, live, acc),
        }),
    decreases p.len(),
{
    if p.len() == 0 {
        assert(p.push(x)[0] == x);
        assert(p.push(x).drop_first() =~= Seq::<SigView>::empty());
        match find_free(live, acc, x, 0) {
            Some(j) => {
                assert(match_phase(Seq::<SigView>::empty(), live, acc.push(j)) == acc.push(j));
            },
            None => {
                assert(match_phase(Seq::<SigView>::empty(), live, acc) == acc);
            },
        }
    } else {
        assert(p.push(x)[0] == p[0]);
        assert(p.push(x).drop_first() =~= p.drop_first().push(x));
        match find_free(live, acc, p[0], 0) {
            Some(j) => {
                lemma_match_phase_snoc(p.drop_first(), live, acc.push(j), x);
            },
            None => {
                lemma_match_phase_snoc(p.drop_first(), live, acc, x);
            },
        }
    }
}

/// How many entries of a flag sequence are set.
pub open spec fn count_true(s: Seq<bool>) -> int
    decreases s.len(),
{
    if s.len() == 0 {
        0
    } else {
        count_true(s.drop_last()) + if s.last() {
            1int
        } else {
            0int
        }
    }
}

/// Setting an unset flag raises the count by one.
proof fn lemma_count_true_update(s: Seq<bool>, j: int)
    requires
        0 <= j < s.len(),
        !s[j],
    ensures
        count_true(s.update(j, true)) == count_true(s) + 1,
    decreases s.len(),
{
    let u = s.update(j, true);
    if j == s.len() - 1 {
        assert(u.drop_last() =~= s.drop_last());
        assert(u.last());
    } else {
        assert(u.drop_last() =~= s.drop_last().update(j, true));
        assert(u.last() == s.last());
        lemma_count_true_update(s.drop_last(), j);
    }
}

/// A sequence of cleared flags has no set entries.
proof fn lemma_count_true_all_false(s: Seq<bool>)
    requires
        forall|k: int| 0 <= k < s.len() ==> !(#[trigger] s[k]),
    ensures
        count_true(s) == 0,
    decreases s.len(),
{
    if s.len() > 0 {
        lemma_count_true_all_false(s.drop_last());
    }
}

/// Find the first live window matching `sig` that is not yet
/// consumed; `used` is the ghost list of indices consumed so far,
/// mirrored by the `consumed` flags.
fn find_unconsumed(
    live: &Vec<Signature>,
    consumed: &Vec<bool>,
    sig: &Signature,
    used: Ghost<Seq<int>>,
) -> (r: Option<usize>)
    requires
        consumed@.len() == live@.len(),
        forall|j: int| 0 <= j < live@.len() ==> ((#[trigger] consumed@[j]) <==> used@.contains(j)),
    ensures
        match r {
            Some(x) => find_free(views(live@), used@, sig@, 0) == Some(x as int),
            None => find_free(views(live@), used@, sig@, 0) is None,
        },
{
    let n = live.len();
    let mut j: usize = 0;
    while j < n
        invariant
            n == live@.len(),
            consumed@.len() == live@.len(),
            forall|k: int| 0 <= k < live@.len() ==> ((#[trigger] consumed@[k]) <==> used@.contains(
                k,
            )),
            0 <= j <= n,
            find_free(views(live@), used@, sig@, 0) == find_free(
                views(live@),
                used@,
                sig@,
                j as int,
            ),
        decreases n - j,
    {
        assert(views(live@)[j as int] == live@[j as int]@);
        if live[j] == *sig && !consumed[j] {
            return Some(j);
        }
        j = j + 1;
    }
    None
}

/// Merge the persisted window order with the live window set.
///
/// The result lists one index into `live` for each live window:
/// windows remembered by `persisted` come first, keeping their
/// remembered relative order, then the newly appeared windows in
/// discovery order.  Vanished signatures are dropped silently.  The
/// result is a permutation of all the live indices, so reconciliation
/// is a bijection onto the live set.
pub fn reconcile(persisted: &Vec<Signature>, live: &Vec<Signature>) -> (r: Vec<usize>)
    ensures
        ints(r@) == reconcile_spec(views(persisted@), views(live@)),
        r@.len() == live@.len(),
        forall|i: int| 0 <= i < r@.len() ==> (#[trigger] r@[i]) < live@.len(),
        forall|i1: int, i2: int| 0 <= i1 < i2 < r@.len() ==> r@[i1] != r@[i2],
        forall|k: int| 0 <= k < live@.len() ==> ints(r@).contains(k),
{
    let ghost vp = views(persisted@);
    let ghost vl = views(live@);
    let n = live.len();
    let mut consumed: Vec<bool> = Vec::new();
    for i in 0..n
        invariant
            consumed@.len() == i,
            forall|k: int| 0 <= k < i ==> !(#[trigger] consumed@[k]),
    {
        consumed.push(false);
    }
    let mut result: Vec<usize> = Vec::new();
    proof {
        assert(ints(result@) =~= Seq::<int>::empty());
        lemma_count_true_all_false(consumed@);
        assert(vp.take(0) =~= Seq::<SigView>::empty());
    }
    let np = persisted.len();
    for k in 0..np
        invariant
            np == persisted@.len(),
            n == live@.len(),
            vp == views(persisted@),
            vl == views(live@),
            consumed@.len() == n,
            ints(result@) == match_phase(vp.take(k as int), vl, Seq::<int>::empty()),
            forall|j: int| 0 <= j < n ==> ((#[trigger] consumed@[j]) <==> ints(result@).contains(
                j,
            )),
            forall|i: int| 0 <= i < result@.len() ==> (#[trigger] result@[i]) < n,
            forall|i1: int, i2: int| 0 <= i1 < i2 < result@.len() ==> result@[i1] != result@[i2],
            count_true(consumed@) == result@.len(),
    {
        let ghost m_before = ints(result@);
        let found = find_unconsumed(live, &consumed, &persisted[k], Ghost(ints(result@)));
        proof {
            assert(vp.take(k + 1) =~= vp.take(k as int).push(vp[k as int]));
            lemma_match_phase_snoc(vp.take(k as int), vl, Seq::<int>::empty(), vp[k as int]);
            assert(vp[k as int] == persisted@[k as int]@);
        }
        match found {
            Some(j) => {
                proof {
                    lemma_find_free_some(vl, m_before, persisted@[k as int]@, 0);
                    lemma_push_contains(m_before, j as int);
                }
                let ghost c_before = consumed@;
                result.push(j);
                consumed.set(j, true);
                proof {
                    assert(ints(result@) =~= m_before.push(j as int));
                    lemma_count_true_update(c_before, j as int);
                    assert forall|i1: int| 0 <= i1 < m_before.len() implies (#[trigger] result@[i1])
                        != j by {
                        assert(m_before[i1] == result@[i1] as int);
                        if result@[i1] == j {
                            assert(m_before.contains(j as int));
                        }
                    }
                    assert forall|i1: int, i2: int|
                        0 <= i1 < i2 < result@.len() implies result@[i1] != result@[i2] by {
                        if i2 == result@.len() - 1 {
                            assert(result@[i2] == j);
                        }
                    }
                }
            },
            None => {},
        }
    }
    proof {
        assert(vp.take(np as int) =~= vp);
    }
    let ghost m = ints(result@);
    let ghost mut appended: Seq<int> = Seq::empty();
    proof {
        assert(m + appended =~= m);
        assert(appended + append_phase(n as int, m, 0) =~= append_phase(n as int, m, 0));
        assert(consumed@.take(0) =~= Seq::<bool>::empty());
    }
    for j in 0..n
        invariant
            n == live@.len(),
            consumed@.len() == n,
            m == match_phase(vp, vl, Seq::<int>::empty()),
            forall|t: int| 0 <= t < n ==> ((#[trigger] consumed@[t]) <==> m.contains(t)),
            ints(result@) == m + appended,
            append_phase(n as int, m, 0) == appended + append_phase(n as int, m, j as int),
            forall|x: int| appended.contains(x) ==> 0 <= x < j,
            forall|i: int| 0 <= i < result@.len() ==> (#[trigger] result@[i]) < n,
            forall|i1: int, i2: int| 0 <= i1 < i2 < result@.len() ==> result@[i1] != result@[i2],
            result@.len() == m.len() + j - count_true(consumed@.take(j as int)),
            count_true(consumed@) == m.len(),
            forall|t: int| 0 <= t < j ==> ints(result@).contains(t),
            forall|x: int| m.contains(x) ==> ints(result@).contains(x),
    {
        let ghost r_before = ints(result@);
        let ghost a_before = appended;
        proof {
            assert(consumed@.take(j + 1).drop_last() =~= consumed@.take(j as int));
            assert(consumed@.take(j + 1).last() == consumed@[j as int]);
        }
        if !consumed[j] {
            result.push(j);
            proof {
                appended = appended.push(j as int);
                lemma_push_contains(r_before, j as int);
                lemma_push_contains(a_before, j as int);
                assert(ints(result@) =~= r_before.push(j as int));
                assert(r_before.push(j as int) =~= m + appended);
                assert(append_phase(n as int, m, j as int) == seq![j as int] + append_phase(
                    n as int,
                    m,
                    j + 1,
                ));
                assert((a_before + (seq![j as int] + append_phase(n as int, m, j + 1))) =~= (
                appended + append_phase(n as int, m, j + 1)));
                assert forall|i1: int| 0 <= i1 < r_before.len() implies (#[trigger] result@[i1])
                    != j by {
                    assert(r_before[i1] == result@[i1] as int);
                    if i1 < m.len() {
                        assert(m[i1] == r_before[i1]);
                        assert(m.contains(r_before[i1]));
                    } else {
                        assert(a_before[i1 - m.len()] == r_before[i1]);
                        assert(a_before.contains(r_before[i1]));
                    }
                }
                assert forall|i1: int, i2: int|
                    0 <= i1 < i2 < result@.len() implies result@[i1] != result@[i2] by {
                    if i2 == result@.len() - 1 {
                        assert(result@[i2] == j);
                    }
                }
            }
        }
    }
    proof {
        assert(consumed@.take(n as int) =~= consumed@);
        assert(appended + Seq::<int>::empty() =~= appended);
        assert(ints(result@) == reconcile_spec(vp, vl));
    }
    result
}

} // verus!
