use vstd::prelude::*;

use crate::order_key::OrderKey;

verus! {

/// `r` is where a left-to-right scan of `s[0..n]` ends up when it starts at
/// index 0 and moves only to a strictly smaller value: with a NaN first the
/// scan never moves; otherwise `r` is the first index of the least non-NaN
/// value.
pub open spec fn is_first_minimum(s: Seq<OrderKey>, n: int, r: int) -> bool {
    &&& 0 <= r < n <= s.len()
    &&& if s[0] is Unordered {
        r == 0
    } else {
        &&& s[r] is Ranked
        &&& forall|j: int| 0 <= j < n ==> !(#[trigger] s[j]).less(s[r])
        &&& forall|j: int| 0 <= j < r ==> s[r].less(#[trigger] s[j]) || s[j] is Unordered
    }
}

/// `r` is the first index of the least value of `s` among those strictly
/// below `current`.
pub open spec fn is_first_improvement(s: Seq<OrderKey>, current: OrderKey, r: int) -> bool {
    &&& 0 <= r < s.len()
    &&& s[r].less(current)
    &&& forall|j: int| 0 <= j < s.len() ==> !(#[trigger] s[j]).less(s[r])
    &&& forall|j: int| 0 <= j < r ==> (#[trigger] s[j]).less(current) ==> s[r].less(s[j])
}

/// Whether some value of `s` is strictly below `current`.
pub open spec fn improves_on(s: Seq<OrderKey>, current: OrderKey) -> bool {
    exists|j: int| 0 <= j < s.len() && (#[trigger] s[j]).less(current)
}

/// The indices `i < n`, in increasing order, at which `current[i]` is strictly
/// below `best[i]`.
pub open spec fn improved_indices(best: Seq<OrderKey>, current: Seq<OrderKey>, n: nat) -> Seq<usize>
    decreases n,
{
    if n == 0 {
        Seq::empty()
    } else {
        let earlier = improved_indices(best, current, (n - 1) as nat);
        if current[n - 1].less(best[n - 1]) {
            earlier.push((n - 1) as usize)
        } else {
            earlier
        }
    }
}

/// The index of the lowest value, the first of equals; a NaN in front keeps
/// index 0. `None` for an empty slice.
pub fn argmin_f(v: &[OrderKey]) -> (r: Option<usize>)
    ensures
        r is None <==> v@.len() == 0,
        r matches Some(i) ==> is_first_minimum(v@, v@.len() as int, i as int),
{
    if v.len() == 0 {
        return None;
    }
    let mut best_i: usize = 0;
    let mut best: OrderKey = v[0];
    let mut i: usize = 1;
    while i < v.len()
        invariant
            1 <= i <= v@.len(),
            best_i < i,
            best == v@[best_i as int],
            is_first_minimum(v@, i as int, best_i as int),
        decreases v@.len() - i,
    {
        let val = v[i];
        if val.lt(&best) {
            best = val;
            best_i = i;
        }
        i = i + 1;
    }
    Some(best_i)
}

/// Among `scores`, the first index of the least value strictly below
/// `current`, or `None` when no value is below it.
pub fn best_improvement(scores: &[OrderKey], current: OrderKey) -> (r: Option<usize>)
    ensures
        r is None <==> !improves_on(scores@, current),
        r matches Some(i) ==> is_first_improvement(scores@, current, i as int),
        scan_best(scores@, current, scores@.len()) == match r {
            Some(i) => scores@[i as int],
            None => current,
        },
{
    let mut best: OrderKey = current;
    let mut best_i: Option<usize> = None;
    let mut i: usize = 0;
    while i < scores.len()
        invariant
            i <= scores@.len(),
            best == scan_best(scores@, current, i as nat),
            best_i is None ==> best == current && forall|j: int|
                0 <= j < i ==> !(#[trigger] scores@[j]).less(current),
            best_i matches Some(b) ==> b < i && best == scores@[b as int] && is_first_improvement(
                scores@.take(i as int),
                current,
                b as int,
            ),
        decreases scores@.len() - i,
    {
        let score = scores[i];
        if score.lt(&best) {
            best = score;
            best_i = Some(i);
        }
        i = i + 1;
    }
    assert(scores@.take(scores@.len() as int) =~= scores@);
    best_i
}

/// The indices at which `current` is strictly below `best`, in increasing
/// order: the particles whose personal best improves this generation.
pub fn personal_best_updates(best: &[OrderKey], current: &[OrderKey]) -> (r: Vec<usize>)
    requires
        best@.len() <= current@.len(),
    ensures
        r@ == improved_indices(best@, current@, best@.len()),
{
    let mut r: Vec<usize> = Vec::new();
    let mut i: usize = 0;
    while i < best.len()
        invariant
            i <= best@.len() <= current@.len(),
            r@ == improved_indices(best@, current@, i as nat),
        decreases best@.len() - i,
    {
        if current[i].lt(&best[i]) {
            r.push(i);
        }
        i = i + 1;
    }
    r
}

/// The particles whose personal best is replaced are exactly those whose new
/// value is strictly below their personal best, each named once, in order.
pub proof fn lemma_improved_indices_exact(best: Seq<OrderKey>, current: Seq<OrderKey>, n: nat)
    requires
        n <= usize::MAX,
    ensures
        forall|k: int|
            #![trigger improved_indices(best, current, n)[k]]
            0 <= k < improved_indices(best, current, n).len() ==> improved_indices(
                best,
                current,
                n,
            )[k] < n && current[improved_indices(best, current, n)[k] as int].less(
                best[improved_indices(best, current, n)[k] as int],
            ),
        forall|k: int, l: int|
            0 <= k < l < improved_indices(best, current, n).len() ==> improved_indices(
                best,
                current,
                n,
            )[k] < improved_indices(best, current, n)[l],
        forall|i: int|
            0 <= i < n && #[trigger] current[i].less(best[i]) ==> improved_indices(
                best,
                current,
                n,
            ).contains(i as usize),
    decreases n,
{
    if n > 0 {
        lemma_improved_indices_exact(best, current, (n - 1) as nat);
        let earlier = improved_indices(best, current, (n - 1) as nat);
        let all = improved_indices(best, current, n);
        let last = (n - 1) as usize;
        if current[n - 1].less(best[n - 1]) {
            assert(all == earlier.push(last));
            assert forall|k: int| 0 <= k < all.len() implies all[k] < n && current[all[k] as int].less(
                best[all[k] as int],
            ) by {
                if k < earlier.len() {
                    assert(all[k] == earlier[k]);
                }
            }
            assert forall|k: int, l: int| 0 <= k < l < all.len() implies all[k] < all[l] by {
                assert(all[k] == earlier[k]);
                if l < earlier.len() {
                    assert(all[l] == earlier[l]);
                }
            }
        } else {
            assert(all == earlier);
        }
        assert forall|i: int| 0 <= i < n && #[trigger] current[i].less(best[i]) implies all.contains(
            i as usize,
        ) by {
            if i < n - 1 {
                assert(earlier.contains(i as usize));
                let k = choose|k: int| 0 <= k < earlier.len() && earlier[k] == i as usize;
                assert(all[k] == i as usize);
            } else {
                assert(all[all.len() - 1] == i as usize);
            }
        }
    }
}

/// The best value a left-to-right scan of `scores[0..n]` holds when it starts
/// from `current` and moves only to a strictly smaller value.
pub open spec fn scan_best(scores: Seq<OrderKey>, current: OrderKey, n: nat) -> OrderKey
    decreases n,
{
    if n == 0 {
        current
    } else {
        let earlier = scan_best(scores, current, (n - 1) as nat);
        if scores[n - 1].less(earlier) {
            scores[n - 1]
        } else {
            earlier
        }
    }
}

/// The personal bests after a generation: each replaced by its particle's new
/// score where that is strictly lower (what `personal_best_updates` selects).
pub open spec fn next_personal_bests(best: Seq<OrderKey>, scores: Seq<OrderKey>) -> Seq<OrderKey> {
    Seq::new(
        best.len(),
        |i: int|
            if scores[i].less(best[i]) {
                scores[i]
            } else {
                best[i]
            },
    )
}

/// No personal best is strictly below the global best.
pub open spec fn global_below_personal(global: OrderKey, personal: Seq<OrderKey>) -> bool {
    forall|i: int| 0 <= i < personal.len() ==> !(#[trigger] personal[i]).less(global)
}

/// The scan ends at a value no score of the prefix is below, and at
/// `current` or something strictly below it.
pub proof fn lemma_scan_best_is_lowest(scores: Seq<OrderKey>, current: OrderKey, n: nat)
    requires
        n <= scores.len(),
    ensures
        forall|j: int| 0 <= j < n ==> !(#[trigger] scores[j]).less(scan_best(scores, current, n)),
        scan_best(scores, current, n) == current || scan_best(scores, current, n).less(current),
    decreases n,
{
    if n > 0 {
        lemma_scan_best_is_lowest(scores, current, (n - 1) as nat);
    }
}

/// Over a generation, the global best stays at or below every personal best:
/// the global best is updated from the new scores (`best_improvement`), then
/// the personal bests (`personal_best_updates`), and neither update can put a
/// personal best below the global one.
pub proof fn lemma_global_best_stays_below_personal_bests(
    global: OrderKey,
    personal: Seq<OrderKey>,
    scores: Seq<OrderKey>,
)
    requires
        global_below_personal(global, personal),
        personal.len() <= scores.len(),
    ensures
        global_below_personal(
            scan_best(scores, global, scores.len()),
            next_personal_bests(personal, scores),
        ),
{
    let g = scan_best(scores, global, scores.len());
    lemma_scan_best_is_lowest(scores, global, scores.len());
    let p = next_personal_bests(personal, scores);
    assert forall|i: int| 0 <= i < p.len() implies !(#[trigger] p[i]).less(g) by {
        assert(!scores[i].less(g));
        assert(!personal[i].less(global));
    }
}

/// After the first evaluation of a swarm, whose scores become the personal
/// bests, the global best is at or below every one of them.
pub proof fn lemma_first_evaluation_bests(scores: Seq<OrderKey>, start: OrderKey)
    ensures
        global_below_personal(scan_best(scores, start, scores.len()), scores),
{
    lemma_scan_best_is_lowest(scores, start, scores.len());
}

} // verus!
