use std::collections::{HashMap, HashSet};
use vstd::prelude::*;
use vstd::std_specs::iter::IteratorSpec;

use crate::generator::{next_u64, random_at_most, PlanetGenerator};
use crate::plate_map::{area_of, apply_plate_merges, build_plate_adjacency, count_plate_areas, nbrs, remap, wf_map, PlateMap};

verus! {

broadcast use vstd::std_specs::hash::group_hash_axioms;

/// `p` has at least one neighbour recorded.
pub open spec fn has_neighbors(adj: Map<usize, HashSet<usize>>, p: usize) -> bool {
    exists|q: usize| nbrs(adj, p).contains(q)
}

/// Merge candidates come largest area first; equal areas by ascending id.
pub open spec fn ranks_before(areas: Map<usize, usize>, a: usize, b: usize) -> bool {
    area_of(areas, a) > area_of(areas, b) || (area_of(areas, a) == area_of(areas, b) && a < b)
}

/// `s` is in strictly increasing rank order.
pub open spec fn ranked(areas: Map<usize, usize>, s: Seq<usize>) -> bool {
    forall|i: int, j: int| 0 <= i < j < s.len() ==> ranks_before(areas, #[trigger] s[i], #[trigger] s[j])
}

/// No plate is recorded as its own neighbour.
pub open spec fn no_self_neighbors(adj: Map<usize, HashSet<usize>>) -> bool {
    forall|p: usize| !(#[trigger] nbrs(adj, p)).contains(p)
}

/// `s` with the entries at `i` and `j` exchanged.
pub open spec fn swap_at(s: Seq<usize>, i: int, j: int) -> Seq<usize> {
    s.update(i, s[j]).update(j, s[i])
}

/// The first `t` steps of a Fisher-Yates shuffle of `s`: step `k` (from 1)
/// exchanges position `len - k` with position `swaps[k - 1]`.
pub open spec fn fisher_yates(s: Seq<usize>, swaps: Seq<usize>, t: nat) -> Seq<usize>
    decreases t,
{
    if t == 0 {
        s
    } else {
        swap_at(fisher_yates(s, swaps, (t - 1) as nat), s.len() - t, swaps[t - 1] as int)
    }
}

/// Swap positions drawn for a Fisher-Yates shuffle of `len` items: one per
/// position `len - 1` down to `1`, each at most that position.
pub open spec fn valid_swaps(len: nat, swaps: Seq<usize>) -> bool {
    &&& swaps.len() == if len == 0 { 0 } else { len - 1 }
    &&& forall|t: int| 0 <= t < swaps.len() ==> #[trigger] swaps[t] <= len - 1 - t
}

proof fn lemma_push_contains(s: Seq<usize>, v: usize)
    ensures
        forall|x: usize| #[trigger] s.push(v).contains(x) <==> (s.contains(x) || x == v),
        s.push(v).to_set() == s.to_set().insert(v),
{
    assert forall|x: usize| #[trigger] s.push(v).contains(x) <==> (s.contains(x) || x == v) by {
        if s.push(v).contains(x) {
            let t = choose|t: int| 0 <= t < s.len() + 1 && s.push(v)[t] == x;
            if t < s.len() {
                assert(s[t] == x);
            }
        }
        if s.contains(x) {
            let t = choose|t: int| 0 <= t < s.len() && s[t] == x;
            assert(s.push(v)[t] == x);
        }
        if x == v {
            assert(s.push(v)[s.len() as int] == x);
        }
    }
    assert(s.push(v).to_set() =~= s.to_set().insert(v));
}

pub open spec fn min_nat(a: nat, b: nat) -> nat {
    if a < b { a } else { b }
}

proof fn lemma_fisher_yates_keeps_items(s: Seq<usize>, swaps: Seq<usize>, t: nat)
    requires
        valid_swaps(s.len(), swaps),
        t <= swaps.len(),
    ensures
        fisher_yates(s, swaps, t).len() == s.len(),
        forall|x: usize| fisher_yates(s, swaps, t).contains(x) <==> s.contains(x),
        s.no_duplicates() ==> fisher_yates(s, swaps, t).no_duplicates(),
    decreases t,
{
    if t > 0 {
        lemma_fisher_yates_keeps_items(s, swaps, (t - 1) as nat);
        let p = fisher_yates(s, swaps, (t - 1) as nat);
        let i = s.len() - t;
        let j = swaps[t - 1] as int;
        assert(0 <= j <= i < s.len());
        let r = swap_at(p, i, j);
        assert forall|x: usize| r.contains(x) <==> p.contains(x) by {
            if r.contains(x) {
                let k = choose|k: int| 0 <= k < r.len() && r[k] == x;
                if k == i {
                    assert(p[j] == x);
                } else if k == j {
                    assert(p[i] == x);
                } else {
                    assert(p[k] == x);
                }
            }
            if p.contains(x) {
                let k = choose|k: int| 0 <= k < p.len() && p[k] == x;
                if k == i {
                    assert(r[j] == x);
                } else if k == j {
                    assert(r[i] == x);
                } else {
                    assert(r[k] == x);
                }
            }
        }
        if s.no_duplicates() {
            assert forall|a: int, b: int| 0 <= a < r.len() && 0 <= b < r.len() && a != b implies r[a] != r[b] by {
                let pa = if a == i { j } else if a == j { i } else { a };
                let pb = if b == i { j } else if b == j { i } else { b };
                assert(r[a] == p[pa]);
                assert(r[b] == p[pb]);
            }
        }
    }
}

/// Shuffles `items` by Fisher-Yates with the given swap positions and keeps
/// the first `keep` of them (all of them when there are fewer).
pub fn take_shuffled(items: Vec<usize>, swaps: &Vec<usize>, keep: usize) -> (r: Vec<usize>)
    requires
        valid_swaps(items@.len(), swaps@),
    ensures
        r@ == fisher_yates(items@, swaps@, swaps@.len()).take(min_nat(keep as nat, items@.len()) as int),
        r@.len() == min_nat(keep as nat, items@.len()),
        forall|x: usize| r@.contains(x) ==> items@.contains(x),
        items@.no_duplicates() ==> r@.no_duplicates(),
{
    let ghost s0 = items@;
    let len = items.len();
    let mut v = items;
    let mut t: usize = 0;
    while t < swaps.len()
        invariant
            valid_swaps(s0.len(), swaps@),
            len == s0.len(),
            t <= swaps@.len(),
            v@ == fisher_yates(s0, swaps@, t as nat),
            v@.len() == len,
        decreases swaps@.len() - t,
    {
        proof {
            lemma_fisher_yates_keeps_items(s0, swaps@, t as nat);
        }
        let i = len - 1 - t;
        let j = swaps[t];
        let a = v[i];
        let b = v[j];
        v.set(i, b);
        v.set(j, a);
        t += 1;
        assert(v@ =~= fisher_yates(s0, swaps@, t as nat));
    }
    proof {
        lemma_fisher_yates_keeps_items(s0, swaps@, swaps@.len());
    }
    let ghost full = v@;
    let keep_n = if keep < len { keep } else { len };
    v.truncate(keep_n);
    proof {
        assert(v@ =~= full.take(keep_n as int));
        assert forall|x: usize| v@.contains(x) implies s0.contains(x) by {
            let k = choose|k: int| 0 <= k < v@.len() && v@[k] == x;
            assert(full[k] == x);
        }
    }
    v
}

/// Inserts `k` into the ranked sequence `r`, which does not hold it.
fn insert_ranked(r: &mut Vec<usize>, k: usize, areas: &HashMap<usize, usize>)
    requires
        ranked(areas@, old(r)@),
        !old(r)@.contains(k),
    ensures
        ranked(areas@, final(r)@),
        forall|p: usize| final(r)@.contains(p) <==> (old(r)@.contains(p) || p == k),
{
    let ka: usize = match areas.get(&k) {
        Some(a) => *a,
        None => 0,
    };
    assert(ka == area_of(areas@, k));
    let mut i: usize = 0;
    while i < r.len()
        invariant
            i <= r@.len(),
            ka == area_of(areas@, k),
            forall|j: int| 0 <= j < i ==> ranks_before(areas@, #[trigger] r@[j], k),
        ensures
            i <= r@.len(),
            forall|j: int| 0 <= j < i ==> ranks_before(areas@, #[trigger] r@[j], k),
            i < r@.len() ==> !ranks_before(areas@, r@[i as int], k),
        decreases r@.len() - i,
    {
        let e = r[i];
        let ea: usize = match areas.get(&e) {
            Some(a) => *a,
            None => 0,
        };
        assert(ea == area_of(areas@, e));
        if ea > ka || (ea == ka && e < k) {
            i += 1;
        } else {
            break;
        }
    }
    let ghost before = r@;
    proof {
        if i < before.len() {
            assert(before[i as int] != k);
            assert(ranks_before(areas@, k, before[i as int]));
            assert forall|j: int| i <= j < before.len() implies ranks_before(areas@, k, #[trigger] before[j]) by {
                if j > i {
                    assert(ranks_before(areas@, before[i as int], before[j]));
                }
            }
        }
    }
    r.insert(i, k);
    proof {
        assert forall|a: int, b: int| 0 <= a < b < r@.len() implies ranks_before(areas@, #[trigger] r@[a], #[trigger] r@[b]) by {
            if b < i {
                assert(r@[a] == before[a] && r@[b] == before[b]);
            } else if b == i {
                assert(r@[a] == before[a]);
            } else if a < i {
                assert(r@[a] == before[a] && r@[b] == before[b - 1]);
                assert(ranks_before(areas@, before[a], k));
                assert(ranks_before(areas@, k, before[b - 1]));
            } else if a == i {
                assert(r@[b] == before[b - 1]);
            } else {
                assert(r@[a] == before[a - 1] && r@[b] == before[b - 1]);
            }
        }
        assert forall|p: usize| r@.contains(p) <==> (before.contains(p) || p == k) by {
            if r@.contains(p) {
                let t = choose|t: int| 0 <= t < r@.len() && r@[t] == p;
                if t < i {
                    assert(before[t] == p);
                } else if t > i {
                    assert(before[t - 1] == p);
                }
            }
            if before.contains(p) {
                let t = choose|t: int| 0 <= t < before.len() && before[t] == p;
                if t < i {
                    assert(r@[t] == p);
                } else {
                    assert(r@[t + 1] == p);
                }
            }
            if p == k {
                assert(r@[i as int] == k);
            }
        }
    }
}

/// The plates that may become merge primaries, in the order they are
/// considered: every plate with at least one neighbour, largest area first,
/// equal areas by ascending id.
pub fn merge_candidates(adjacency: &HashMap<usize, HashSet<usize>>, plate_areas: &HashMap<usize, usize>) -> (r: Vec<usize>)
    ensures
        ranked(plate_areas@, r@),
        forall|p: usize| r@.contains(p) <==> has_neighbors(adjacency@, p),
{
    let mut r: Vec<usize> = Vec::new();
    let ghost all = adjacency.keys().remaining();
    for k in it: adjacency.keys()
        invariant
            it.seq() == all,
            all.unref().to_set() == adjacency@.dom(),
            all.no_duplicates(),
            ranked(plate_areas@, r@),
            forall|p: usize| r@.contains(p) <==> (all.take(it.index() as int).unref().contains(p) && has_neighbors(adjacency@, p)),
    {
        let ghost idx = it.index();
        let k = *k;
        assert(all[idx as int] == &k);
        match adjacency.get(&k) {
            Some(set) => {
                if !set.is_empty() {
                    assert(has_neighbors(adjacency@, k)) by {
                        assert(nbrs(adjacency@, k) == set@);
                        assert(!(set@ =~= Set::<usize>::empty()));
                        let q = choose|q: usize| set@.contains(q) != Set::<usize>::empty().contains(q);
                        assert(nbrs(adjacency@, k).contains(q));
                    }
                    assert(!r@.contains(k)) by {
                        if all.take(idx as int).unref().contains(k) {
                            let t = choose|t: int| 0 <= t < idx && all.take(idx as int).unref()[t] == k;
                            assert(all[t] == all[idx as int]);
                        }
                    }
                    insert_ranked(&mut r, k, plate_areas);
                } else {
                    assert(!has_neighbors(adjacency@, k)) by {
                        assert(set@ =~= Set::<usize>::empty());
                    }
                }
            },
            None => {
                assert(!has_neighbors(adjacency@, k));
            },
        }
        assert(all.take(idx + 1).unref() =~= all.take(idx as int).unref().push(k));
        proof {
            lemma_push_contains(all.take(idx as int).unref(), k);
        }
    }
    assert(all.take(all.len() as int) =~= all);
    assert forall|p: usize| r@.contains(p) <==> has_neighbors(adjacency@, p) by {
            if has_neighbors(adjacency@, p) {
                let q = choose|q: usize| nbrs(adjacency@, p).contains(q);
                assert(adjacency@.dom().contains(p));
                assert(all.unref().to_set().contains(p));
            }
    }
    r
}

/// The merge invariants: every merged plate was a neighbour of its primary;
/// with no self-neighbours, no primary is itself merged away; and no primary
/// absorbs more than two plates.
pub open spec fn merge_map_ok(adj: Map<usize, HashSet<usize>>, merge: Map<usize, usize>) -> bool {
    &&& forall|q: usize| #[trigger] merge.contains_key(q) ==> nbrs(adj, merge[q]).contains(q)
    &&& no_self_neighbors(adj) ==> forall|q: usize| #[trigger] merge.contains_key(q) ==> !merge.contains_key(merge[q])
    &&& forall|a: usize, b: usize, c: usize|
        merge.contains_key(a) && merge.contains_key(b) && merge.contains_key(c) && a != b && b != c && a != c
            ==> !(#[trigger] merge[a] == #[trigger] merge[b] && #[trigger] merge[c] == merge[b])
}

/// No primary absorbs more than one plate.
pub open spec fn one_per_primary(merge: Map<usize, usize>) -> bool {
    forall|a: usize, b: usize| merge.contains_key(a) && merge.contains_key(b) && a != b
        ==> #[trigger] merge[a] != #[trigger] merge[b]
}

/// `p` takes part in a merge: it is merged away or absorbs another plate.
pub open spec fn involved(merge: Map<usize, usize>, p: usize) -> bool {
    merge.contains_key(p) || exists|q: usize| merge.contains_key(q) && merge[q] == p
}

/// The largest 53-bit draw; a selection threshold at least this passes every draw.
pub const DRAW_MAX: u64 = 0x1F_FFFF_FFFF_FFFF;

/// `s` is in strictly ascending order.
pub open spec fn ascending(s: Seq<usize>) -> bool {
    forall|i: int, j: int| 0 <= i < j < s.len() ==> #[trigger] s[i] < #[trigger] s[j]
}

/// Inserts `k` into the ascending sequence `r`, which does not hold it.
fn insert_ascending(r: &mut Vec<usize>, k: usize)
    requires
        ascending(old(r)@),
        !old(r)@.contains(k),
    ensures
        ascending(final(r)@),
        forall|p: usize| final(r)@.contains(p) <==> (old(r)@.contains(p) || p == k),
{
    let mut i: usize = 0;
    while i < r.len()
        invariant
            i <= r@.len(),
            r@ == old(r)@,
            !r@.contains(k),
            forall|j: int| 0 <= j < i ==> #[trigger] r@[j] < k,
        ensures
            i <= r@.len(),
            forall|j: int| 0 <= j < i ==> #[trigger] r@[j] < k,
            i < r@.len() ==> r@[i as int] > k,
        decreases r@.len() - i,
    {
        if r[i] < k {
            i += 1;
        } else {
            assert(r@[i as int] != k) by {
                assert(r@.contains(r@[i as int]));
            }
            break;
        }
    }
    let ghost before = r@;
    r.insert(i, k);
    proof {
        assert forall|a: int, b: int| 0 <= a < b < r@.len() implies #[trigger] r@[a] < #[trigger] r@[b] by {
            if b < i {
                assert(r@[a] == before[a] && r@[b] == before[b]);
            } else if b == i {
                assert(r@[a] == before[a]);
            } else if a < i {
                assert(r@[a] == before[a] && r@[b] == before[b - 1]);
                assert(before[i as int] > k);
                if b - 1 > i {
                    assert(before[i as int] < before[b - 1]);
                }
            } else if a == i {
                assert(r@[b] == before[b - 1]);
                if b - 1 > i {
                    assert(before[i as int] < before[b - 1]);
                }
            } else {
                assert(r@[a] == before[a - 1] && r@[b] == before[b - 1]);
            }
        }
        assert forall|p: usize| r@.contains(p) <==> (before.contains(p) || p == k) by {
            if r@.contains(p) {
                let t = choose|t: int| 0 <= t < r@.len() && r@[t] == p;
                if t < i {
                    assert(before[t] == p);
                } else if t > i {
                    assert(before[t - 1] == p);
                }
            }
            if before.contains(p) {
                let t = choose|t: int| 0 <= t < before.len() && before[t] == p;
                if t < i {
                    assert(r@[t] == p);
                } else {
                    assert(r@[t + 1] == p);
                }
            }
            if p == k {
                assert(r@[i as int] == k);
            }
        }
    }
}

/// The neighbours of `candidate` that are not in `used`, in ascending id.
pub fn available_neighbors(
    adjacency: &HashMap<usize, HashSet<usize>>,
    used: &HashSet<usize>,
    candidate: usize,
) -> (r: Vec<usize>)
    ensures
        ascending(r@),
        r@.no_duplicates(),
        forall|x: usize| #[trigger] r@.contains(x) <==> nbrs(adjacency@, candidate).contains(x) && !used@.contains(x),
{
    let mut available: Vec<usize> = Vec::new();
    let set = match adjacency.get(&candidate) {
        Some(s) => s,
        None => {
            return available;
        },
    };
    assert(set@ == nbrs(adjacency@, candidate));
    let ghost all = set.iter().remaining();
    for q in it: set.iter()
        invariant
            it.seq() == all,
            all.unref().to_set() == set@,
            all.no_duplicates(),
            ascending(available@),
            forall|x: usize| available@.contains(x) <==> all.take(it.index() as int).unref().contains(x) && !used@.contains(x),
    {
        let ghost idx = it.index();
        let q = *q;
        assert(all[idx as int] == &q);
        assert(all.unref().to_set().contains(q));
        proof {
            lemma_push_contains(all.take(idx as int).unref(), q);
        }
        if !used.contains(&q) {
            assert(!available@.contains(q)) by {
                if available@.contains(q) {
                    let t = choose|t: int| 0 <= t < idx && all.take(idx as int).unref()[t] == q;
                    assert(all[t] == all[idx as int]);
                }
            }
            insert_ascending(&mut available, q);
        }
        assert(all.take(idx + 1).unref() =~= all.take(idx as int).unref().push(q));
    }
    assert(all.take(all.len() as int) =~= all);
    assert(available@.no_duplicates()) by {
        assert forall|a: int, b: int| 0 <= a < available@.len() && 0 <= b < available@.len() && a != b
            implies available@[a] != available@[b] by {
            if a < b {
                assert(available@[a] < available@[b]);
            } else {
                assert(available@[b] < available@[a]);
            }
        }
    }
    available
}

/// Marks `candidate` and the plates of `chosen` as taking part in a merge and
/// maps each plate of `chosen` to `candidate`.
pub fn record_merge(
    merge_map: &mut HashMap<usize, usize>,
    used: &mut HashSet<usize>,
    candidate: usize,
    chosen: &Vec<usize>,
)
    ensures
        final(used)@ == old(used)@.insert(candidate).union(chosen@.to_set()),
        final(merge_map)@.dom() == old(merge_map)@.dom().union(chosen@.to_set()),
        forall|q: usize| #[trigger] final(merge_map)@.contains_key(q) ==> final(merge_map)@[q] == if chosen@.contains(q) {
            candidate
        } else {
            old(merge_map)@[q]
        },
{
    let ghost before = merge_map@;
    let ghost used_before = used@;
    used.insert(candidate);
    assert(chosen@.take(0).to_set() =~= Set::<usize>::empty());
    assert(used@ =~= used_before.insert(candidate).union(chosen@.take(0).to_set()));
    assert(merge_map@.dom() =~= before.dom().union(chosen@.take(0).to_set()));
    let mut k: usize = 0;
    while k < chosen.len()
        invariant
            k <= chosen@.len(),
            used@ == used_before.insert(candidate).union(chosen@.take(k as int).to_set()),
            merge_map@.dom() == before.dom().union(chosen@.take(k as int).to_set()),
            forall|q: usize| #[trigger] merge_map@.contains_key(q) ==> merge_map@[q] == if chosen@.take(k as int).contains(q) {
                candidate
            } else {
                before[q]
            },
        decreases chosen@.len() - k,
    {
        let q = chosen[k];
        used.insert(q);
        merge_map.insert(q, candidate);
        proof {
            assert(chosen@.take(k + 1) =~= chosen@.take(k as int).push(q));
            lemma_push_contains(chosen@.take(k as int), q);
        }
        k += 1;
        assert(used@ =~= used_before.insert(candidate).union(chosen@.take(k as int).to_set()));
        assert(merge_map@.dom() =~= before.dom().union(chosen@.take(k as int).to_set()));
    }
    assert(chosen@.take(k as int) =~= chosen@);
}

/// What one candidate's turn drew and found: the selection draw, the
/// two-neighbour draw, its available neighbours (in ascending id), and the
/// Fisher-Yates swap positions drawn for them.
pub type MergeChoice = (u64, u64, Seq<usize>, Seq<usize>);

/// One candidate's turn of the merge selection, from the merges and the used
/// plates so far: a used candidate, a selection draw above the threshold, or
/// no available neighbour leaves them as they are; otherwise the available
/// neighbours are shuffled, the first one or two (two when the second draw is
/// below its threshold) are mapped to the candidate, and all of them and the
/// candidate become used.
pub open spec fn merge_turn(
    merge: Map<usize, usize>,
    used: Set<usize>,
    c: usize,
    sel: u64,
    two: u64,
    ch: MergeChoice,
) -> (Map<usize, usize>, Set<usize>) {
    if used.contains(c) || (ch.0 >> 11u64) > sel || ch.2.len() == 0 {
        (merge, used)
    } else {
        let k: nat = if (ch.1 >> 11u64) < two { 2 } else { 1 };
        let chosen = fisher_yates(ch.2, ch.3, ch.3.len()).take(min_nat(k, ch.2.len()) as int);
        (
            Map::new(|q: usize| merge.contains_key(q) || chosen.contains(q), |q: usize| if chosen.contains(q) { c } else { merge[q] }),
            used.insert(c).union(chosen.to_set()),
        )
    }
}

proof fn lemma_draw_at_most(d: u64, t: u64)
    by (bit_vector)
    ensures
        (d >> 11u64) <= t <==> d < (t + 1) * 2048,
        (d >> 11u64) < t <==> d < t * 2048,
{
}

/// A turn selects its candidate by the selection draw read as a 53-bit
/// fraction: an unused candidate with free neighbours becomes a merge primary
/// exactly when `draw / 2^64 < (t + 1) / 2^53` for the threshold `t`, that is
/// when `floor(draw / 2^11) / 2^53` is at most `t / 2^53`; otherwise nothing
/// changes.
pub proof fn lemma_turn_selects_by_fraction(
    merge: Map<usize, usize>,
    used: Set<usize>,
    c: usize,
    sel: u64,
    two: u64,
    ch: MergeChoice,
)
    requires
        !used.contains(c),
        ch.2.len() > 0,
    ensures
        merge_turn(merge, used, c, sel, two, ch).1.contains(c) <==> (ch.0 as int) < (sel as int + 1) * 2048,
        !((ch.0 as int) < (sel as int + 1) * 2048) ==> merge_turn(merge, used, c, sel, two, ch) == (merge, used),
{
    lemma_draw_at_most(ch.0, sel);
}

/// In a turn that merges, the second draw read as a 53-bit fraction decides
/// how many neighbours are absorbed: with at least two free neighbours, two
/// distinct plates join the candidate exactly when `draw / 2^64 < t / 2^53`
/// for the two-neighbour threshold `t`; otherwise exactly one does.
pub proof fn lemma_turn_absorbs_by_fraction(
    merge: Map<usize, usize>,
    used: Set<usize>,
    c: usize,
    sel: u64,
    two: u64,
    ch: MergeChoice,
)
    requires
        !used.contains(c),
        (ch.0 as int) < (sel as int + 1) * 2048,
        ch.2.len() >= 2,
        ch.2.no_duplicates(),
        valid_swaps(ch.2.len(), ch.3),
        forall|x: usize| ch.2.contains(x) ==> !merge.contains_key(x),
    ensures
        exists|a: usize| !merge.contains_key(a) && #[trigger] merge_turn(merge, used, c, sel, two, ch).0.contains_key(a)
            && merge_turn(merge, used, c, sel, two, ch).0[a] == c,
        (exists|a: usize, b: usize| a != b && !merge.contains_key(a) && !merge.contains_key(b)
            && #[trigger] merge_turn(merge, used, c, sel, two, ch).0.contains_key(a)
            && #[trigger] merge_turn(merge, used, c, sel, two, ch).0.contains_key(b))
            <==> (ch.1 as int) < (two as int) * 2048,
{
    lemma_draw_at_most(ch.0, sel);
    lemma_draw_at_most(ch.1, two);
    lemma_fisher_yates_keeps_items(ch.2, ch.3, ch.3.len());
    let sh = fisher_yates(ch.2, ch.3, ch.3.len());
    let k: nat = if (ch.1 >> 11u64) < two { 2 } else { 1 };
    let chosen = sh.take(min_nat(k, ch.2.len()) as int);
    let r = merge_turn(merge, used, c, sel, two, ch);
    assert(r.0 == Map::new(|q: usize| merge.contains_key(q) || chosen.contains(q), |q: usize| if chosen.contains(q) { c } else { merge[q] }));
    assert forall|x: usize| chosen.contains(x) implies ch.2.contains(x) by {
        let i = choose|i: int| 0 <= i < chosen.len() && chosen[i] == x;
        assert(sh[i] == x);
        assert(sh.contains(x));
    }
    let a0 = sh[0];
    assert(chosen[0] == a0);
    assert(chosen.contains(a0));
    assert(ch.2.contains(a0));
    assert(!merge.contains_key(a0) && r.0.contains_key(a0) && r.0[a0] == c);
    if (ch.1 as int) < (two as int) * 2048 {
        let a1 = sh[1];
        assert(chosen[1] == a1);
        assert(chosen.contains(a1));
        assert(ch.2.contains(a1));
        assert(a0 != a1);
        assert(r.0.contains_key(a1));
    } else {
        assert(chosen.len() == 1);
        if exists|a: usize, b: usize| a != b && !merge.contains_key(a) && !merge.contains_key(b)
            && #[trigger] r.0.contains_key(a) && #[trigger] r.0.contains_key(b) {
            let (a, b) = choose|a: usize, b: usize| a != b && !merge.contains_key(a) && !merge.contains_key(b)
                && #[trigger] r.0.contains_key(a) && #[trigger] r.0.contains_key(b);
            assert(chosen.contains(a) && chosen.contains(b));
            let ia = choose|i: int| 0 <= i < chosen.len() && chosen[i] == a;
            let ib = choose|i: int| 0 <= i < chosen.len() && chosen[i] == b;
            assert(false);
        }
    }
}

/// The merges and used plates after the turns of `cands`, one choice each.
pub open spec fn greedy_merges(
    cands: Seq<usize>,
    sel: u64,
    two: u64,
    chs: Seq<MergeChoice>,
) -> (Map<usize, usize>, Set<usize>)
    decreases cands.len(),
{
    if cands.len() == 0 || chs.len() == 0 {
        (Map::empty(), Set::empty())
    } else {
        let prev = greedy_merges(cands.drop_last(), sel, two, chs.drop_last());
        merge_turn(prev.0, prev.1, cands.last(), sel, two, chs.last())
    }
}

/// A choice fits a turn: where the turn looks at the neighbours, they are
/// exactly the candidate's neighbours not yet used, in ascending id, and the swap
/// positions are those of a Fisher-Yates shuffle of them.
pub open spec fn choice_fits(adj: Map<usize, HashSet<usize>>, used: Set<usize>, c: usize, sel: u64, ch: MergeChoice) -> bool {
    !used.contains(c) && (ch.0 >> 11u64) <= sel ==> {
        &&& ascending(ch.2)
        &&& ch.2.no_duplicates()
        &&& forall|x: usize| #[trigger] ch.2.contains(x) <==> nbrs(adj, c).contains(x) && !used.contains(x)
        &&& valid_swaps(ch.2.len(), ch.3)
    }
}

/// Every choice fits its turn.
pub open spec fn choices_fit(adj: Map<usize, HashSet<usize>>, cands: Seq<usize>, sel: u64, two: u64, chs: Seq<MergeChoice>) -> bool
    decreases cands.len(),
{
    if cands.len() == 0 || chs.len() == 0 {
        true
    } else {
        &&& choices_fit(adj, cands.drop_last(), sel, two, chs.drop_last())
        &&& choice_fits(adj, greedy_merges(cands.drop_last(), sel, two, chs.drop_last()).1, cands.last(), sel, chs.last())
    }
}

/// `merge` is what the greedy selection gives for some draws: the turns are
/// taken over all plates with neighbours, largest area first and equal areas
/// by ascending id, each shuffling its free neighbours taken in ascending id.
pub open spec fn greedy_selection(adj: Map<usize, HashSet<usize>>, areas: Map<usize, usize>, sel: u64, two: u64, merge: Map<usize, usize>) -> bool {
    exists|cands: Seq<usize>, chs: Seq<MergeChoice>| {
        &&& ranked(areas, cands)
        &&& forall|p: usize| cands.contains(p) <==> has_neighbors(adj, p)
        &&& chs.len() == cands.len()
        &&& choices_fit(adj, cands, sel, two, chs)
        &&& merge == (#[trigger] greedy_merges(cands, sel, two, chs)).0
    }
}

proof fn lemma_greedy_push(
    adj: Map<usize, HashSet<usize>>,
    cands: Seq<usize>,
    sel: u64,
    two: u64,
    chs: Seq<MergeChoice>,
    c: usize,
    ch: MergeChoice,
)
    requires
        chs.len() == cands.len(),
    ensures
        greedy_merges(cands.push(c), sel, two, chs.push(ch)) == merge_turn(
            greedy_merges(cands, sel, two, chs).0,
            greedy_merges(cands, sel, two, chs).1,
            c,
            sel,
            two,
            ch,
        ),
        choices_fit(adj, cands.push(c), sel, two, chs.push(ch)) == (choices_fit(adj, cands, sel, two, chs)
            && choice_fits(adj, greedy_merges(cands, sel, two, chs).1, c, sel, ch)),
{
    assert(cands.push(c).drop_last() =~= cands);
    assert(chs.push(ch).drop_last() =~= chs);
}

impl PlanetGenerator {
    /// Chooses which plates merge into which, drawing from the
    /// `"merge/selection"` stream. Candidates are taken in `merge_candidates`
    /// order; one that is already part of a merge is passed over. Otherwise a
    /// 53-bit draw above `merge_selection_threshold` passes it over too; its
    /// neighbours not yet part of a merge are gathered, and if there are any,
    /// a second draw below `merge_two_neighbors_threshold` allows two of them
    /// (else one), the neighbours are shuffled with `take_shuffled` and the
    /// allowed number of them are mapped to the candidate.
    ///
    /// The result is the greedy selection over the ranked candidates for the
    /// draws taken (`greedy_selection`). Whatever the draws, it keeps the merge invariants; with a
    /// two-neighbour threshold of zero every primary absorbs one plate; and
    /// when the selection threshold passes every draw, no plate with
    /// neighbours is left out of every merge while one of its neighbours is
    /// too.
    pub fn select_plates_for_merging_probabilistic(
        &self,
        adjacency: &HashMap<usize, HashSet<usize>>,
        plate_areas: &HashMap<usize, usize>,
    ) -> (merge_map: HashMap<usize, usize>)
        ensures
            greedy_selection(adjacency@, plate_areas@, self.merge_selection_threshold, self.merge_two_neighbors_threshold, merge_map@),
            merge_map_ok(adjacency@, merge_map@),
            self.merge_two_neighbors_threshold == 0 ==> one_per_primary(merge_map@),
            self.merge_selection_threshold >= DRAW_MAX ==> forall|p: usize| #[trigger] has_neighbors(adjacency@, p)
                ==> involved(merge_map@, p) || forall|q: usize| #[trigger] nbrs(adjacency@, p).contains(q)
                    ==> involved(merge_map@, q),
    {
        let mut merge_map: HashMap<usize, usize> = HashMap::new();
        let mut used: HashSet<usize> = HashSet::new();
        let candidates = merge_candidates(adjacency, plate_areas);
        let mut rng = self.rng_for("merge/selection");
        let ghost all_pass = self.merge_selection_threshold >= DRAW_MAX;
        let ghost sel = self.merge_selection_threshold;
        let ghost two = self.merge_two_neighbors_threshold;
        let ghost mut chs: Seq<MergeChoice> = Seq::empty();
        let mut ci: usize = 0;
        assert(candidates@.take(0) =~= Seq::<usize>::empty());
        assert(merge_map@ =~= Map::<usize, usize>::empty());
        assert(used@ =~= Set::<usize>::empty());
        while ci < candidates.len()
            invariant
                ci <= candidates@.len(),
                sel == self.merge_selection_threshold,
                two == self.merge_two_neighbors_threshold,
                chs.len() == ci,
                choices_fit(adjacency@, candidates@.take(ci as int), sel, two, chs),
                merge_map@ == greedy_merges(candidates@.take(ci as int), sel, two, chs).0,
                used@ == greedy_merges(candidates@.take(ci as int), sel, two, chs).1,
                all_pass == (self.merge_selection_threshold >= DRAW_MAX),
                merge_map_ok(adjacency@, merge_map@),
                self.merge_two_neighbors_threshold == 0 ==> one_per_primary(merge_map@),
                forall|q: usize| #[trigger] merge_map@.contains_key(q) ==> used@.contains(q) && used@.contains(merge_map@[q]),
                forall|p: usize| #[trigger] used@.contains(p) ==> involved(merge_map@, p),
                all_pass ==> forall|i: int| 0 <= i < ci ==> used@.contains(#[trigger] candidates@[i])
                    || forall|q: usize| #[trigger] nbrs(adjacency@, candidates@[i]).contains(q) ==> used@.contains(q),
            decreases candidates@.len() - ci,
        {
            let candidate = candidates[ci];
            let ghost seen = candidates@.take(ci as int);
            let ghost chs0 = chs;
            proof {
                assert(candidates@.take(ci + 1) =~= seen.push(candidate));
            }
            ci += 1;
            if used.contains(&candidate) {
                proof {
                    let ch: MergeChoice = (0u64, 0u64, Seq::empty(), Seq::empty());
                    lemma_greedy_push(adjacency@, seen, sel, two, chs0, candidate, ch);
                    chs = chs0.push(ch);
                }
                continue;
            }
            let draw = next_u64(&mut rng);
            proof {
                assert(draw >> 11u64 <= 0x1F_FFFF_FFFF_FFFFu64) by (bit_vector);
            }
            if (draw >> 11u64) > self.merge_selection_threshold {
                proof {
                    let ch: MergeChoice = (draw, 0u64, Seq::empty(), Seq::empty());
                    lemma_greedy_push(adjacency@, seen, sel, two, chs0, candidate, ch);
                    chs = chs0.push(ch);
                }
                continue;
            }
            let available = available_neighbors(adjacency, &used, candidate);
            if available.len() == 0 {
                assert forall|q: usize| #[trigger] nbrs(adjacency@, candidate).contains(q) implies used@.contains(q) by {
                    if !used@.contains(q) {
                        assert(available@.contains(q));
                    }
                }
                proof {
                    let ch: MergeChoice = (draw, 0u64, available@, Seq::empty());
                    lemma_greedy_push(adjacency@, seen, sel, two, chs0, candidate, ch);
                    chs = chs0.push(ch);
                }
                continue;
            }
            let two_draw = next_u64(&mut rng);
            let max_neighbors: usize = if (two_draw >> 11u64) < self.merge_two_neighbors_threshold {
                2
            } else {
                1
            };
            let len = available.len();
            let mut swaps: Vec<usize> = Vec::new();
            let mut i: usize = len - 1;
            while i >= 1
                invariant
                    1 <= len,
                    i <= len - 1,
                    swaps@.len() == len - 1 - i,
                    forall|t: int| 0 <= t < swaps@.len() ==> #[trigger] swaps@[t] <= len - 1 - t,
                decreases i,
            {
                let j = random_at_most(&mut rng, i);
                swaps.push(j);
                i -= 1;
            }
            let ghost avail = available@;
            let chosen = take_shuffled(available, &swaps, max_neighbors);
            let ghost before = merge_map@;
            let ghost used_before = used@;
            record_merge(&mut merge_map, &mut used, candidate, &chosen);
            proof {
                let ch: MergeChoice = (draw, two_draw, avail, swaps@);
                lemma_greedy_push(adjacency@, seen, sel, two, chs0, candidate, ch);
                chs = chs0.push(ch);
                let k: nat = if (two_draw >> 11u64) < two { 2 } else { 1 };
                assert(k == max_neighbors as nat);
                let step = merge_turn(before, used_before, candidate, sel, two, ch);
                assert forall|x: usize| #[trigger] chosen@.to_set().contains(x) <==> chosen@.contains(x) by {}
                assert(merge_map@ =~= step.0);
                assert(used@ =~= step.1);
                let m = merge_map@;
                assert(chosen@.len() >= 1);
                assert(chosen@.len() <= 2);
                assert forall|x: usize| chosen@.contains(x) implies nbrs(adjacency@, candidate).contains(x)
                    && !used_before.contains(x) by {
                    assert(avail.contains(x));
                }
                assert forall|x: usize| #[trigger] chosen@.to_set().contains(x) <==> chosen@.contains(x) by {}
                assert forall|q: usize| before.contains_key(q) implies !chosen@.contains(q) && #[trigger] m[q] == before[q] by {
                    assert(used_before.contains(q));
                    assert(m.contains_key(q));
                    if chosen@.contains(q) {
                        assert(!used_before.contains(q));
                    }
                }
                assert(chosen@.contains(chosen@[0]));
                let c0 = chosen@[0];
                assert(chosen@.to_set().contains(c0));
                assert(m.dom().contains(c0));
                assert(m.contains_key(c0));
                assert(m[c0] == candidate);
                assert forall|q: usize| #[trigger] m.contains_key(q) implies used@.contains(q) && used@.contains(m[q]) by {
                    if !before.contains_key(q) {
                        assert(chosen@.contains(q));
                    }
                }
                assert forall|p: usize| #[trigger] used@.contains(p) implies involved(m, p) by {
                    if p == candidate {
                        assert(m.contains_key(chosen@[0]) && m[chosen@[0]] == p);
                    } else if chosen@.contains(p) {
                        assert(m.contains_key(p));
                    } else {
                        assert(used_before.contains(p));
                        assert(involved(before, p));
                        if !before.contains_key(p) {
                            let q = choose|q: usize| before.contains_key(q) && before[q] == p;
                            assert(m.contains_key(q) && m[q] == p);
                        }
                    }
                }
                assert forall|q: usize| #[trigger] m.contains_key(q) implies nbrs(adjacency@, m[q]).contains(q) by {
                    if !before.contains_key(q) {
                        assert(chosen@.contains(q));
                    }
                }
                if no_self_neighbors(adjacency@) {
                    assert forall|q: usize| #[trigger] m.contains_key(q) implies !m.contains_key(m[q]) by {
                        if before.contains_key(q) {
                            let v = before[q];
                            assert(used_before.contains(v));
                            assert(!before.contains_key(v));
                            if chosen@.contains(v) {
                                assert(!used_before.contains(v));
                            }
                        } else {
                            assert(chosen@.contains(q));
                            assert(m[q] == candidate);
                            assert(!used_before.contains(candidate));
                            assert(!before.contains_key(candidate));
                            if chosen@.contains(candidate) {
                                assert(nbrs(adjacency@, candidate).contains(candidate));
                            }
                        }
                    }
                }
                assert forall|a: usize, b: usize, c: usize|
                    m.contains_key(a) && m.contains_key(b) && m.contains_key(c) && a != b && b != c && a != c
                    implies !(#[trigger] m[a] == #[trigger] m[b] && #[trigger] m[c] == m[b]) by {
                    if m[a] == m[b] && m[c] == m[b] {
                        let na = before.contains_key(a);
                        let nb = before.contains_key(b);
                        let nc = before.contains_key(c);
                        if na && nb && nc {
                            assert(before[a] == before[b] && before[c] == before[b]);
                        } else if !na && !nb && !nc {
                            assert(chosen@.contains(a) && chosen@.contains(b) && chosen@.contains(c));
                            let ia = choose|t: int| 0 <= t < chosen@.len() && chosen@[t] == a;
                            let ib = choose|t: int| 0 <= t < chosen@.len() && chosen@[t] == b;
                            let ic = choose|t: int| 0 <= t < chosen@.len() && chosen@[t] == c;
                        } else {
                            // one of them keeps an old primary, which was used before;
                            // another maps to the fresh candidate, which was not
                            assert(!used_before.contains(candidate));
                            if na {
                                assert(used_before.contains(before[a]));
                            } else if nb {
                                assert(used_before.contains(before[b]));
                            } else {
                                assert(used_before.contains(before[c]));
                            }
                        }
                    }
                }
                assert(used@.contains(candidate));
                if self.merge_two_neighbors_threshold == 0 {
                    assert(max_neighbors == 1);
                    assert(chosen@.len() == 1);
                    assert forall|a: usize, b: usize| m.contains_key(a) && m.contains_key(b) && a != b
                        implies #[trigger] m[a] != #[trigger] m[b] by {
                        let na = before.contains_key(a);
                        let nb = before.contains_key(b);
                        if na && nb {
                            assert(before[a] != before[b]);
                        } else if !na && !nb {
                            assert(chosen@.contains(a) && chosen@.contains(b));
                            let ia = choose|t: int| 0 <= t < chosen@.len() && chosen@[t] == a;
                            let ib = choose|t: int| 0 <= t < chosen@.len() && chosen@[t] == b;
                        } else if na {
                            assert(used_before.contains(before[a]));
                            assert(chosen@.contains(b));
                        } else {
                            assert(used_before.contains(before[b]));
                            assert(chosen@.contains(a));
                        }
                    }
                }
                if all_pass {
                    assert forall|i: int| 0 <= i < ci implies used@.contains(#[trigger] candidates@[i])
                        || forall|q: usize| #[trigger] nbrs(adjacency@, candidates@[i]).contains(q) ==> used@.contains(q) by {
                        if i < ci - 1 {
                            if !used_before.contains(candidates@[i]) {
                                assert forall|q: usize| #[trigger] nbrs(adjacency@, candidates@[i]).contains(q)
                                    implies used@.contains(q) by {
                                    assert(used_before.contains(q));
                                }
                            }
                        }
                    }
                }
            }
        }
        proof {
            assert(candidates@.take(ci as int) =~= candidates@);
            assert(greedy_merges(candidates@, sel, two, chs).0 == merge_map@);
            assert(greedy_selection(adjacency@, plate_areas@, sel, two, merge_map@));
            if all_pass {
                assert forall|p: usize| #[trigger] has_neighbors(adjacency@, p) implies involved(merge_map@, p)
                    || forall|q: usize| #[trigger] nbrs(adjacency@, p).contains(q) ==> involved(merge_map@, q) by {
                    assert(candidates@.contains(p));
                    let i = choose|i: int| 0 <= i < candidates@.len() && candidates@[i] == p;
                    assert(used@.contains(candidates@[i])
                        || forall|q: usize| #[trigger] nbrs(adjacency@, candidates@[i]).contains(q) ==> used@.contains(q));
                }
            }
        }
        merge_map
    }

    /// Merges randomly selected plates with their neighbours: builds the
    /// adjacency and the areas of the map, selects merges with
    /// `select_plates_for_merging_probabilistic`, and rewrites the map.
    pub fn merge_plates(&self, face_grid_size: usize, plate_map: &mut PlateMap)
        requires
            wf_map(old(plate_map).deep_view(), face_grid_size as int),
            6 * face_grid_size * face_grid_size <= usize::MAX,
        ensures
            wf_map(final(plate_map).deep_view(), face_grid_size as int),
            exists|merge: Map<usize, usize>| {
                &&& #[trigger] merged_by(old(plate_map).deep_view(), final(plate_map).deep_view(), face_grid_size as int, merge)
                &&& merge_ok_for_map(old(plate_map).deep_view(), face_grid_size as int, merge)
                &&& greedy_selection_for_map(
                    old(plate_map).deep_view(),
                    face_grid_size as int,
                    self.merge_selection_threshold,
                    self.merge_two_neighbors_threshold,
                    merge,
                )
                &&& self.merge_two_neighbors_threshold == 0 ==> one_per_primary(merge)
                &&& self.merge_selection_threshold >= DRAW_MAX ==> merge_maximal_for_map(
                    old(plate_map).deep_view(),
                    face_grid_size as int,
                    merge,
                )
            },
    {
        let adjacency = build_plate_adjacency(face_grid_size, plate_map);
        let plate_areas = count_plate_areas(face_grid_size, plate_map);
        let merge_map = self.select_plates_for_merging_probabilistic(&adjacency, &plate_areas);
        let ghost m0 = plate_map.deep_view();
        apply_plate_merges(face_grid_size, plate_map, &merge_map);
        proof {
            let n = face_grid_size as int;
            assert(greedy_selection(
                adjacency@,
                plate_areas@,
                self.merge_selection_threshold,
                self.merge_two_neighbors_threshold,
                merge_map@,
            ));
            assert(greedy_selection_for_map(
                m0,
                n,
                self.merge_selection_threshold,
                self.merge_two_neighbors_threshold,
                merge_map@,
            ));
            assert(no_self_neighbors(adjacency@));
            assert(merged_by(m0, plate_map.deep_view(), n, merge_map@));
            assert forall|q: usize| #[trigger] merge_map@.contains_key(q)
                implies crate::plate_map::plates_adjacent(m0, n, merge_map@[q], q) by {
                assert(nbrs(adjacency@, merge_map@[q]).contains(q));
            }
            if self.merge_selection_threshold >= DRAW_MAX {
                assert forall|p: usize| (exists|q: usize| #[trigger] crate::plate_map::plates_adjacent(m0, n, p, q))
                    implies involved(merge_map@, p) || forall|q: usize| #[trigger] crate::plate_map::plates_adjacent(m0, n, p, q)
                        ==> involved(merge_map@, q) by {
                    let q0 = choose|q: usize| #[trigger] crate::plate_map::plates_adjacent(m0, n, p, q);
                    assert(nbrs(adjacency@, p).contains(q0));
                    assert(has_neighbors(adjacency@, p));
                    if !involved(merge_map@, p) {
                        assert forall|q: usize| #[trigger] crate::plate_map::plates_adjacent(m0, n, p, q)
                            implies involved(merge_map@, q) by {
                            assert(nbrs(adjacency@, p).contains(q));
                        }
                    }
                }
                assert(merge_maximal_for_map(m0, n, merge_map@));
            }
        }
    }
}

/// `merge` is what the greedy selection gives on the adjacency and the areas
/// of the map `m`, for some draws.
pub open spec fn greedy_selection_for_map(m: Seq<Seq<Seq<usize>>>, n: int, sel: u64, two: u64, merge: Map<usize, usize>) -> bool {
    exists|adj: Map<usize, HashSet<usize>>, areas: Map<usize, usize>| {
        &&& forall|p: usize, q: usize| #[trigger] nbrs(adj, p).contains(q) <==> crate::plate_map::plates_adjacent(m, n, p, q)
        &&& forall|p: usize| #[trigger] area_of(areas, p) == crate::plate_map::count_map(m, p)
        &&& #[trigger] greedy_selection(adj, areas, sel, two, merge)
    }
}

/// No plate that touches another is left out of every merge while one of the
/// plates it touches is too.
pub open spec fn merge_maximal_for_map(m: Seq<Seq<Seq<usize>>>, n: int, merge: Map<usize, usize>) -> bool {
    forall|p: usize| (exists|q: usize| #[trigger] crate::plate_map::plates_adjacent(m, n, p, q))
        ==> involved(merge, p) || forall|q: usize| #[trigger] crate::plate_map::plates_adjacent(m, n, p, q)
            ==> involved(merge, q)
}

/// `after` is `before` with every cell's plate remapped through `merge`.
pub open spec fn merged_by(before: Seq<Seq<Seq<usize>>>, after: Seq<Seq<Seq<usize>>>, n: int, merge: Map<usize, usize>) -> bool {
    forall|f: int, y: int, x: int|
        0 <= f < 6 && 0 <= y < n && 0 <= x < n ==> #[trigger] after[f][y][x] == remap(merge, before[f][y][x])
}

/// A merge map fit for a plate map: each merged plate touches its primary, no
/// primary is merged away, and no primary absorbs more than two plates.
pub open spec fn merge_ok_for_map(m: Seq<Seq<Seq<usize>>>, n: int, merge: Map<usize, usize>) -> bool {
    &&& forall|q: usize| #[trigger] merge.contains_key(q) ==> crate::plate_map::plates_adjacent(m, n, merge[q], q)
    &&& forall|q: usize| #[trigger] merge.contains_key(q) ==> !merge.contains_key(merge[q])
    &&& forall|a: usize, b: usize, c: usize|
        merge.contains_key(a) && merge.contains_key(b) && merge.contains_key(c) && a != b && b != c && a != c
            ==> !(#[trigger] merge[a] == #[trigger] merge[b] && #[trigger] merge[c] == merge[b])
}

} // verus!
