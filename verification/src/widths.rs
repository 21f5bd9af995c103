//! Tree-view layout: the width each window's subtree needs.
use vstd::prelude::*;
use std::collections::HashMap;
use crate::state::{
    children_of, first_index, is_live, lemma_first_index, lemma_models_index, lookup, Treewm, WindowModel,
};
use crate::tree_wf::forest;

verus! {

/// Width of one window in the tree view.
pub const TREE_WINDOW_WIDTH: u64 = 800;
/// Horizontal gap between sibling subtrees in the tree view.
pub const TREE_GAP: u64 = 80;

/// Total gap between `k` side-by-side subtrees.
pub open spec fn gap_total(k: nat) -> int {
    if k > 1 {
        TREE_GAP * (k - 1)
    } else {
        0
    }
}

/// The larger of two integers.
pub open spec fn max_int(a: int, b: int) -> int {
    if a >= b {
        a
    } else {
        b
    }
}

/// Width of the subtree of `id` when every window down to depth `fuel` is
/// known: its children side by side with gaps, but at least one window wide.
/// `None` when the window does not exist or some descendant is missing or
/// deeper than `fuel`.
pub open spec fn width_at(ws: Seq<WindowModel>, id: u32, fuel: nat) -> Option<int>
    decreases fuel, 0nat, 0nat,
{
    if fuel == 0 {
        None
    } else {
        match lookup(ws, id) {
            None => None,
            Some(w) => match sum_at(ws, w.children, (fuel - 1) as nat) {
                Some(s) => Some(max_int(s + gap_total(w.children.len()), TREE_WINDOW_WIDTH as int)),
                None => None,
            },
        }
    }
}

/// Sum of the subtree widths of `cs` within depth `fuel`.
pub open spec fn sum_at(ws: Seq<WindowModel>, cs: Seq<u32>, fuel: nat) -> Option<int>
    decreases fuel, 1nat, cs.len(),
{
    if cs.len() == 0 {
        Some(0)
    } else {
        match (sum_at(ws, cs.drop_last(), fuel), width_at(ws, cs.last(), fuel)) {
            (Some(a), Some(b)) => Some(a + b),
            _ => None,
        }
    }
}

/// The subtree of `id` is finite and every window in it exists.
pub open spec fn resolvable(ws: Seq<WindowModel>, id: u32) -> bool {
    exists|f: nat| #[trigger] width_at(ws, id, f) is Some
}

/// Width of the subtree of `id`; one window wide when the subtree cannot be
/// measured (a missing descendant or a cycle).
pub open spec fn subtree_width(ws: Seq<WindowModel>, id: u32) -> int {
    if resolvable(ws, id) {
        width_at(ws, id, choose|f: nat| #[trigger] width_at(ws, id, f) is Some)->0
    } else {
        TREE_WINDOW_WIDTH as int
    }
}

/// Sum of the subtree widths of `cs`.
pub open spec fn width_sum(ws: Seq<WindowModel>, cs: Seq<u32>) -> int
    decreases cs.len(),
{
    if cs.len() == 0 {
        0
    } else {
        width_sum(ws, cs.drop_last()) + subtree_width(ws, cs.last())
    }
}

/// `v` capped at the largest `u64`.
pub open spec fn capped(v: int) -> int {
    if v > u64::MAX {
        u64::MAX as int
    } else {
        v
    }
}

/// More depth does not change a width that is already known.
pub proof fn lemma_width_mono(ws: Seq<WindowModel>, id: u32, f1: nat, f2: nat)
    requires
        f1 <= f2,
        width_at(ws, id, f1) is Some,
    ensures
        width_at(ws, id, f2) == width_at(ws, id, f1),
    decreases f1, 0nat, 0nat,
{
    let w = lookup(ws, id)->0;
    lemma_sum_mono(ws, w.children, (f1 - 1) as nat, (f2 - 1) as nat);
}

/// More depth does not change a sum that is already known.
pub proof fn lemma_sum_mono(ws: Seq<WindowModel>, cs: Seq<u32>, f1: nat, f2: nat)
    requires
        f1 <= f2,
        sum_at(ws, cs, f1) is Some,
    ensures
        sum_at(ws, cs, f2) == sum_at(ws, cs, f1),
    decreases f1, 1nat, cs.len(),
{
    if cs.len() > 0 {
        lemma_sum_mono(ws, cs.drop_last(), f1, f2);
        lemma_width_mono(ws, cs.last(), f1, f2);
    }
}

/// A width known at some depth is the subtree width.
pub proof fn lemma_width_value(ws: Seq<WindowModel>, id: u32, f: nat)
    requires
        width_at(ws, id, f) is Some,
    ensures
        resolvable(ws, id),
        subtree_width(ws, id) == width_at(ws, id, f)->0,
        subtree_width(ws, id) >= TREE_WINDOW_WIDTH,
{
    let f0 = choose|f: nat| #[trigger] width_at(ws, id, f) is Some;
    if f0 <= f {
        lemma_width_mono(ws, id, f0, f);
    } else {
        lemma_width_mono(ws, id, f, f0);
    }
}

/// A known sum means every summand is known at that depth.
pub proof fn lemma_sum_parts(ws: Seq<WindowModel>, cs: Seq<u32>, f: nat, i: int)
    requires
        sum_at(ws, cs, f) is Some,
        0 <= i < cs.len(),
    ensures
        width_at(ws, cs[i], f) is Some,
    decreases cs.len(),
{
    if i < cs.len() - 1 {
        assert(cs.drop_last()[i] == cs[i]);
        lemma_sum_parts(ws, cs.drop_last(), f, i);
    }
}

/// Whether the association list has an entry for `id`.
pub open spec fn has_key(kv: Seq<(u32, u64)>, id: u32) -> bool {
    exists|i: int| 0 <= i < kv.len() && kv[i].0 == id
}

/// The association list's keys are distinct.
pub open spec fn keys_distinct(kv: Seq<(u32, u64)>) -> bool {
    forall|i: int, j: int| 0 <= i < kv.len() && 0 <= j < kv.len() && i != j ==> #[trigger] kv[i].0 != #[trigger] kv[j].0
}

/// Every entry holds a measurable window's (capped) subtree width.
pub open spec fn entries_correct(ws: Seq<WindowModel>, kv: Seq<(u32, u64)>) -> bool {
    forall|i: int|
        0 <= i < kv.len() ==> is_live(ws, #[trigger] kv[i].0) && kv[i].1 as int == capped(
            subtree_width(ws, kv[i].0),
        )
}

/// Every entry's subtree can be measured.
pub open spec fn entries_resolvable(ws: Seq<WindowModel>, kv: Seq<(u32, u64)>) -> bool {
    forall|i: int| 0 <= i < kv.len() ==> resolvable(ws, #[trigger] kv[i].0)
}

/// The window's subtree cannot be measured with what is known yet: it has a
/// child without an entry.
pub open spec fn blocked(ws: Seq<WindowModel>, id: u32, kv: Seq<(u32, u64)>) -> bool {
    match lookup(ws, id) {
        Some(w) => exists|k: int| 0 <= k < w.children.len() && !has_key(kv, #[trigger] w.children[k]),
        None => false,
    }
}

/// When every unmeasured window is blocked, every measurable window has an entry.
pub proof fn lemma_closed_complete(ws: Seq<WindowModel>, kv: Seq<(u32, u64)>, rest: Seq<u32>, id: u32, f: nat)
    requires
        forall|x: u32| is_live(ws, x) ==> has_key(kv, x) || rest.contains(x),
        forall|i: int| 0 <= i < rest.len() ==> has_key(kv, #[trigger] rest[i]) || blocked(ws, rest[i], kv),
        width_at(ws, id, f) is Some,
    ensures
        has_key(kv, id),
    decreases f,
{
    let w = lookup(ws, id)->0;
    lemma_first_index(ws, id);
    let k = first_index(ws, id);
    assert(ws[k].id == id);
    assert(is_live(ws, id));
    if !has_key(kv, id) {
        let i = choose|i: int| 0 <= i < rest.len() && rest[i] == id;
        assert(blocked(ws, rest[i], kv));
        let c = choose|c: int| 0 <= c < w.children.len() && !has_key(kv, #[trigger] w.children[c]);
        lemma_sum_parts(ws, w.children, (f - 1) as nat, c);
        lemma_closed_complete(ws, kv, rest, w.children[c], (f - 1) as nat);
    }
}

/// The entry for `id`, if any.
pub fn lookup_width(kv: &Vec<(u32, u64)>, id: u32) -> (res: Option<u64>)
    ensures
        match res {
            Some(v) => exists|i: int| 0 <= i < kv@.len() && kv@[i] == (id, v),
            None => !has_key(kv@, id),
        },
{
    let mut i: usize = 0;
    while i < kv.len()
        invariant
            0 <= i <= kv.len(),
            forall|j: int| 0 <= j < i ==> kv@[j].0 != id,
        decreases kv.len() - i,
    {
        if kv[i].0 == id {
            return Some(kv[i].1);
        }
        i += 1;
    }
    None
}

impl Treewm {
    /// The subtree widths as a list of (window ID, width) entries, one for
    /// each existing window, found by measuring windows once all their
    /// children are measured.
    fn subtree_width_entries(&self) -> (res: Vec<(u32, u64)>)
        ensures
            keys_distinct(res@),
            entries_correct(self.model(), res@),
            forall|x: u32| is_live(self.model(), x) ==> #[trigger] has_key(res@, x),
    {
        let ghost ws = self.model();
        proof {
            lemma_models_index(self.windows@);
        }
        let mut widths: Vec<(u32, u64)> = Vec::new();
        let mut remaining: Vec<u32> = Vec::new();
        let mut i: usize = 0;
        while i < self.windows.len()
            invariant
                0 <= i <= self.windows.len(),
                ws == self.model(),
                ws.len() == self.windows.len(),
                remaining@.len() == i,
                forall|j: int| 0 <= j < i ==> remaining@[j] == #[trigger] ws[j].id,
            decreases self.windows.len() - i,
        {
            remaining.push(self.windows[i].id);
            i += 1;
        }
        assert forall|x: u32| is_live(ws, x) implies has_key(widths@, x) || remaining@.contains(x) by {
            let j = choose|j: int| 0 <= j < ws.len() && ws[j].id == x;
            assert(remaining@[j] == ws[j].id);
        }
        loop
            invariant
                ws == self.model(),
                keys_distinct(widths@),
                entries_correct(ws, widths@),
                entries_resolvable(ws, widths@),
                forall|x: u32| is_live(ws, x) ==> has_key(widths@, x) || remaining@.contains(x),
            decreases remaining.len(),
        {
            let before = remaining.len();
            let ghost start = widths@;
            let mut kept: Vec<u32> = Vec::new();
            let mut j: usize = 0;
            assert(remaining@.skip(0) =~= remaining@);
            while j < remaining.len()
                invariant
                    0 <= j <= remaining.len(),
                    before == remaining.len(),
                    ws == self.model(),
                    keys_distinct(widths@),
                    entries_correct(ws, widths@),
                    entries_resolvable(ws, widths@),
                    kept.len() <= j,
                    forall|x: u32|
                        is_live(ws, x) ==> has_key(widths@, x) || kept@.contains(x) || remaining@.skip(
                            j as int,
                        ).contains(x),
                    kept.len() == j ==> widths@ == start,
                    kept.len() == j ==> forall|t: int| 0 <= t < kept.len() ==> #[trigger] blocked(ws, kept@[t], widths@),
                decreases remaining.len() - j,
            {
                let id = remaining[j];
                let ghost old_kept = kept@;
                let ghost old_widths = widths@;
                proof {
                    assert(remaining@.skip(j as int) =~= seq![id] + remaining@.skip(j as int + 1));
                    assert forall|x: u32| remaining@.skip(j as int).contains(x) implies x == id || remaining@.skip(
                        j as int + 1,
                    ).contains(x) by {
                        let t = choose|t: int| 0 <= t < remaining@.skip(j as int).len() && remaining@.skip(j as int)[t] == x;
                        if t > 0 {
                            assert(remaining@.skip(j as int + 1)[t - 1] == x);
                        }
                    }
                    lemma_first_index(ws, id);
                    lemma_models_index(self.windows@);
                }
                match self.find_index(id) {
                    None => {
                        // Not a window (any more): drop it.
                    },
                    Some(k) => {
                        let children = &self.windows[k].children;
                        let mut sum: u64 = 0;
                        let mut all_known = true;
                        let mut c: usize = 0;
                        let ghost mut fuel: nat = 0;
                        proof {
                            assert(children@.take(0) =~= Seq::<u32>::empty());
                        }
                        while c < children.len()
                            invariant
                                0 <= c <= children.len(),
                                children@ == ws[k as int].children,
                                ws == self.model(),
                                entries_correct(ws, widths@),
                                entries_resolvable(ws, widths@),
                                all_known ==> sum as int == capped(width_sum(ws, children@.take(c as int))),
                                all_known ==> sum_at(ws, children@.take(c as int), fuel) == Some(
                                    width_sum(ws, children@.take(c as int)),
                                ),
                                all_known ==> width_sum(ws, children@.take(c as int)) >= 0,
                                !all_known ==> exists|t: int| 0 <= t < children@.len() && !has_key(widths@, #[trigger] children@[t]),
                            decreases children.len() - c,
                        {
                            let ghost tk = children@.take(c as int + 1);
                            proof {
                                assert(tk.drop_last() =~= children@.take(c as int));
                                assert(tk.last() == children@[c as int]);
                            }
                            match lookup_width(&widths, children[c]) {
                                Some(v) => {
                                    if all_known {
                                        proof {
                                            let t = choose|t: int| 0 <= t < widths@.len() && widths@[t] == (children@[c as int], v);
                                            assert(is_live(ws, widths@[t].0));
                                            assert(resolvable(ws, children@[c as int]));
                                            let fc = choose|f: nat| #[trigger] width_at(ws, children@[c as int], f) is Some;
                                            lemma_width_value(ws, children@[c as int], fc);
                                            let f2 = if fc > fuel { fc } else { fuel };
                                            lemma_sum_mono(ws, children@.take(c as int), fuel, f2);
                                            lemma_width_mono(ws, children@[c as int], fc, f2);
                                            fuel = f2;
                                        }
                                        sum = sum.saturating_add(v);
                                    }
                                },
                                None => {
                                    all_known = false;
                                },
                            }
                            c += 1;
                        }
                        proof {
                            assert(children@.take(c as int) =~= children@);
                        }
                        if all_known {
                            let n = children.len();
                            let gaps: u64 = if n > 1 {
                                match TREE_GAP.checked_mul((n - 1) as u64) {
                                    Some(g) => g,
                                    None => u64::MAX,
                                }
                            } else {
                                0
                            };
                            let total = sum.saturating_add(gaps);
                            let w = if total > TREE_WINDOW_WIDTH {
                                total
                            } else {
                                TREE_WINDOW_WIDTH
                            };
                            proof {
                                assert(width_at(ws, id, fuel + 1) == Some(
                                    max_int(width_sum(ws, children@) + gap_total(n as nat), TREE_WINDOW_WIDTH as int),
                                ));
                                lemma_width_value(ws, id, fuel + 1);
                                assert(ws[k as int].id == id);
                            }
                            if lookup_width(&widths, id).is_none() {
                                widths.push((id, w));
                                proof {
                                    assert forall|a: int, b: int| 0 <= a < widths@.len() && 0 <= b < widths@.len() && a != b
                                        implies #[trigger] widths@[a].0 != #[trigger] widths@[b].0 by {
                                        if a < old_widths.len() && b < old_widths.len() {
                                            assert(old_widths[a].0 != old_widths[b].0);
                                        } else if a < old_widths.len() {
                                            assert(widths@[a] == old_widths[a]);
                                        } else if b < old_widths.len() {
                                            assert(widths@[b] == old_widths[b]);
                                        }
                                    }
                                    assert forall|t: int| 0 <= t < widths@.len() implies is_live(ws, #[trigger] widths@[t].0)
                                        && widths@[t].1 as int == capped(subtree_width(ws, widths@[t].0)) && resolvable(ws, widths@[t].0) by {
                                        if t < old_widths.len() {
                                            assert(widths@[t] == old_widths[t]);
                                        }
                                    }
                                }
                            }
                            proof {
                                assert(has_key(widths@, id)) by {
                                    if !has_key(old_widths, id) {
                                        assert(widths@[widths@.len() - 1].0 == id);
                                    } else {
                                        let t = choose|t: int| 0 <= t < old_widths.len() && old_widths[t].0 == id;
                                        assert(widths@[t] == old_widths[t]);
                                    }
                                }
                                assert forall|x: u32| has_key(old_widths, x) implies has_key(widths@, x) by {
                                    let t = choose|t: int| 0 <= t < old_widths.len() && old_widths[t].0 == x;
                                    assert(widths@[t] == old_widths[t]);
                                }
                            }
                        } else {
                            kept.push(id);
                            proof {
                                assert(blocked(ws, id, widths@));
                                assert forall|x: u32| old_kept.contains(x) implies kept@.contains(x) by {
                                    let t = choose|t: int| 0 <= t < old_kept.len() && old_kept[t] == x;
                                    assert(kept@[t] == x);
                                }
                                assert(kept@[kept@.len() - 1] == id);
                                assert forall|t: int| 0 <= t < kept@.len() implies kept@[t] == (if t < old_kept.len() { old_kept[t] } else { id }) by {}
                            }
                        }
                    },
                }
                j += 1;
            }
            proof {
                assert(remaining@.skip(j as int) =~= Seq::<u32>::empty());
            }
            let done = kept.len() == 0 || kept.len() == before;
            remaining = kept;
            if done {
                // Every window still unmeasured has a child without a width
                // (or is gone): its subtree cannot be measured.
                let mut r: usize = 0;
                let ghost final_rest = remaining@;
                let ghost closed = widths@;
                proof {
                    assert forall|t: int| 0 <= t < final_rest.len() implies has_key(closed, #[trigger] final_rest[t]) || blocked(ws, final_rest[t], closed) by {}
                }
                while r < remaining.len()
                    invariant
                        0 <= r <= remaining.len(),
                        remaining@ == final_rest,
                        ws == self.model(),
                        keys_distinct(widths@),
                        entries_correct(ws, widths@),
                        forall|x: u32| has_key(closed, x) ==> has_key(widths@, x),
                        forall|x: u32| is_live(ws, x) ==> has_key(closed, x) || final_rest.contains(x),
                        forall|t: int| 0 <= t < final_rest.len() ==> has_key(closed, #[trigger] final_rest[t]) || blocked(ws, final_rest[t], closed),
                        forall|t: int| 0 <= t < r ==> has_key(widths@, #[trigger] final_rest[t]),
                    decreases remaining.len() - r,
                {
                    let id = remaining[r];
                    let ghost old_widths = widths@;
                    if lookup_width(&widths, id).is_none() {
                        proof {
                            if resolvable(ws, id) {
                                let f = choose|f: nat| #[trigger] width_at(ws, id, f) is Some;
                                lemma_closed_complete(ws, closed, final_rest, id, f);
                            }
                            assert(!resolvable(ws, id));
                            lemma_first_index(ws, id);
                        }
                        assert(is_live(ws, id)) by {
                            if !has_key(closed, id) {
                                assert(blocked(ws, final_rest[r as int], closed));
                                lemma_first_index(ws, id);
                                assert(ws[first_index(ws, id)].id == id);
                            }
                        }
                        widths.push((id, TREE_WINDOW_WIDTH));
                        proof {
                            assert forall|a: int, b: int| 0 <= a < widths@.len() && 0 <= b < widths@.len() && a != b
                                implies #[trigger] widths@[a].0 != #[trigger] widths@[b].0 by {
                                if a < old_widths.len() && b < old_widths.len() {
                                    assert(old_widths[a].0 != old_widths[b].0);
                                } else if a < old_widths.len() {
                                    assert(widths@[a] == old_widths[a]);
                                } else if b < old_widths.len() {
                                    assert(widths@[b] == old_widths[b]);
                                }
                            }
                            assert forall|t: int| 0 <= t < widths@.len() implies is_live(ws, #[trigger] widths@[t].0)
                                && widths@[t].1 as int == capped(subtree_width(ws, widths@[t].0)) by {
                                if t < old_widths.len() {
                                    assert(widths@[t] == old_widths[t]);
                                }
                            }
                        }
                    }
                    proof {
                        assert forall|x: u32| has_key(old_widths, x) implies has_key(widths@, x) by {
                            let t = choose|t: int| 0 <= t < old_widths.len() && old_widths[t].0 == x;
                            assert(widths@[t] == old_widths[t]);
                        }
                        assert(has_key(widths@, id)) by {
                            if !has_key(old_widths, id) {
                                assert(widths@[widths@.len() - 1].0 == id);
                            }
                        }
                    }
                    r += 1;
                }
                proof {
                    assert forall|x: u32| is_live(ws, x) implies #[trigger] has_key(widths@, x) by {
                        if !has_key(closed, x) {
                            let t = choose|t: int| 0 <= t < final_rest.len() && final_rest[t] == x;
                        }
                    }
                }
                return widths;
            }
        }
    }
}


impl Treewm {
    /// Subtree widths for the tree view, by window ID: every existing window
    /// has an entry, holding the width its subtree needs (children side by
    /// side with gaps, at least one window); one window wide when the subtree
    /// cannot be measured. Widths beyond the `u64` range are capped.
    pub fn compute_subtree_widths(&self) -> (res: HashMap<u32, u64>)
        ensures
            forall|x: u32| #[trigger] res@.contains_key(x) <==> is_live(self.model(), x),
            forall|x: u32| res@.contains_key(x) ==> #[trigger] res@[x] as int == capped(subtree_width(self.model(), x)),
    {
        broadcast use vstd::std_specs::hash::group_hash_axioms;
        let kv = self.subtree_width_entries();
        let mut m: HashMap<u32, u64> = HashMap::new();
        let mut i: usize = 0;
        while i < kv.len()
            invariant
                0 <= i <= kv.len(),
                keys_distinct(kv@),
                forall|j: int| 0 <= j < i ==> #[trigger] m@.contains_key(kv@[j].0) && m@[kv@[j].0] == kv@[j].1,
                forall|x: u32| #[trigger] m@.contains_key(x) ==> exists|j: int| 0 <= j < i && kv@[j].0 == x,
            decreases kv.len() - i,
        {
            let (k, v) = kv[i];
            m.insert(k, v);
            proof {
                assert forall|j: int| 0 <= j < i + 1 implies #[trigger] m@.contains_key(kv@[j].0) && m@[kv@[j].0]
                    == kv@[j].1 by {
                    if j < i {
                        assert(kv@[j].0 != kv@[i as int].0);
                    }
                }
                assert forall|x: u32| #[trigger] m@.contains_key(x) implies exists|j: int| 0 <= j < i + 1 && kv@[j].0 == x by {
                    if x == k {
                        assert(kv@[i as int].0 == x);
                    }
                }
            }
            i += 1;
        }
        proof {
            assert forall|x: u32| #[trigger] m@.contains_key(x) <==> is_live(self.model(), x) by {
                if m@.contains_key(x) {
                    let j = choose|j: int| 0 <= j < kv.len() && kv@[j].0 == x;
                    assert(is_live(self.model(), kv@[j].0));
                }
                if is_live(self.model(), x) {
                    assert(has_key(kv@, x));
                    let j = choose|j: int| 0 <= j < kv.len() && kv@[j].0 == x;
                    assert(m@.contains_key(kv@[j].0));
                }
            }
            assert forall|x: u32| m@.contains_key(x) implies #[trigger] m@[x] as int == capped(
                subtree_width(self.model(), x),
            ) by {
                let j = choose|j: int| 0 <= j < kv.len() && kv@[j].0 == x;
                assert(m@.contains_key(kv@[j].0));
                assert(kv@[j].1 as int == capped(subtree_width(self.model(), kv@[j].0)));
            }
        }
        m
    }
}

/// A known sum is the sum of the subtree widths.
pub proof fn lemma_sum_value(ws: Seq<WindowModel>, cs: Seq<u32>, f: nat)
    requires
        sum_at(ws, cs, f) is Some,
    ensures
        sum_at(ws, cs, f)->0 == width_sum(ws, cs),
    decreases cs.len(),
{
    if cs.len() > 0 {
        lemma_sum_value(ws, cs.drop_last(), f);
        lemma_width_value(ws, cs.last(), f);
    }
}

/// In a forest every window's subtree can be measured.
pub proof fn lemma_width_some(ws: Seq<WindowModel>, next: u32, id: u32, f: nat)
    requires
        forest(ws, next),
        is_live(ws, id),
        f >= next - id + 1,
    ensures
        width_at(ws, id, f) is Some,
    decreases f, 0nat, 0nat,
{
    lemma_first_index(ws, id);
    let k = first_index(ws, id);
    let cs = ws[k].children;
    assert forall|i: int| 0 <= i < cs.len() implies is_live(ws, #[trigger] cs[i]) && (f - 1) as nat >= next - cs[i] + 1 by {
        assert(is_live(ws, ws[k].children[i]));
        let j = choose|j: int| 0 <= j < ws.len() && ws[j].id == cs[i];
        assert(ws[j].id < next);
        assert(ws[k].children[i] > ws[k].id);
    }
    lemma_sum_some(ws, next, cs, (f - 1) as nat);
}

/// In a forest the widths of existing windows can be summed.
pub proof fn lemma_sum_some(ws: Seq<WindowModel>, next: u32, cs: Seq<u32>, f: nat)
    requires
        forest(ws, next),
        forall|i: int| 0 <= i < cs.len() ==> is_live(ws, #[trigger] cs[i]) && f >= next - cs[i] + 1,
    ensures
        sum_at(ws, cs, f) is Some,
    decreases f, 1nat, cs.len(),
{
    if cs.len() > 0 {
        assert forall|i: int| 0 <= i < cs.drop_last().len() implies is_live(ws, #[trigger] cs.drop_last()[i]) && f
            >= next - cs.drop_last()[i] + 1 by {
            assert(cs.drop_last()[i] == cs[i]);
        }
        lemma_sum_some(ws, next, cs.drop_last(), f);
        assert(cs.last() == cs[cs.len() - 1]);
        lemma_width_some(ws, next, cs.last(), f);
    }
}

/// In a forest a window's subtree is as wide as its children's
/// subtrees side by side with gaps between them, but at least one window wide.
pub proof fn lemma_subtree_width_equation(ws: Seq<WindowModel>, next: u32, id: u32)
    requires
        forest(ws, next),
        is_live(ws, id),
    ensures
        ({
            let cs = children_of(ws, id);
            let side_by_side = width_sum(ws, cs) + if cs.len() > 1 {
                TREE_GAP * (cs.len() - 1)
            } else {
                0
            };
            subtree_width(ws, id) == if side_by_side >= TREE_WINDOW_WIDTH {
                side_by_side
            } else {
                TREE_WINDOW_WIDTH as int
            }
        }),
        subtree_width(ws, id) >= TREE_WINDOW_WIDTH,
{
    let f = (next - id + 1) as nat;
    lemma_width_some(ws, next, id, f);
    lemma_width_value(ws, id, f);
    let w = lookup(ws, id)->0;
    lemma_sum_value(ws, w.children, (f - 1) as nat);
}
} // verus!
