//! The maximum-clique problem state: a bitset candidate-set representation,
//! an include/exclude branching rule, and a greedy-coloring upper bound.

use vstd::prelude::*;
use bitset_fixed::BitSet;
use crate::bound::{BoundOrd, Rev};
use crate::state::{State, sum_nat, lemma_sum_nat_insert};
use crate::adapters::{Maximize, MonotoneLb};
use crate::engine::find_minimum;
use crate::bits::{
    bits, clean, and_bits, or_bits, not_bits, count_true, lemma_count_le_len, lemma_count_update,
    lemma_count_pos, lemma_count_mono, lemma_count_disjoint, lemma_count_false, bs_new, bs_set,
    bs_get, bs_count, bs_and, bs_or, bs_not, bs_clone,
};

verus! {

/// A well-formed problem instance: one adjacency row per vertex, each row
/// as long as there are vertices and with a clean buffer tail, the self-bit
/// set, and symmetric.  The vertex count stays a little below `u32::MAX` so
/// degree, bound and buffer-size arithmetic fits.
pub open spec fn graph_ok(g: Seq<BitSet>) -> bool {
    let n = g.len();
    &&& n + 64 <= u32::MAX
    &&& forall|i: int|
        0 <= i < n ==> (#[trigger] bits(g[i])).len() == n && bits(g[i])[i]
    &&& forall|i: int| 0 <= i < n ==> clean(#[trigger] g[i])
    &&& forall|i: int, j: int|
        0 <= i < n && 0 <= j < n ==> #[trigger] bits(g[i])[j] == bits(g[j])[i]
}

/// Powers of three, the termination potential scale.
pub open spec fn pow3(n: nat) -> nat
    decreases n,
{
    if n == 0 {
        1
    } else {
        3 * pow3((n - 1) as nat)
    }
}

pub proof fn lemma_pow3_pos(n: nat)
    ensures
        pow3(n) >= 1,
    decreases n,
{
    if n > 0 {
        lemma_pow3_pos((n - 1) as nat);
    }
}

pub proof fn lemma_pow3_mono(a: nat, b: nat)
    requires
        a <= b,
    ensures
        pow3(a) <= pow3(b),
    decreases b,
{
    if a < b {
        lemma_pow3_mono(a, (b - 1) as nat);
    }
}

/// The seed of the first color class: the union of the adjacency rows of
/// the committed vertices among the first `m`.
pub open spec fn class_seed(g: Seq<BitSet>, took: Seq<bool>, m: int) -> Seq<bool>
    decreases m,
{
    if m <= 0 {
        Seq::new(g.len(), |i: int| false)
    } else if took[m - 1] {
        or_bits(class_seed(g, took, m - 1), bits(g[m - 1]))
    } else {
        class_seed(g, took, m - 1)
    }
}

/// One greedy step: vertex `i`, with adjacency row `a`, joins the first
/// class whose forbidden set does not hold `i`, marking that class with
/// `a`; when every class forbids `i`, a new class seeded with `a` opens.
pub open spec fn place_step(classes: Seq<Seq<bool>>, i: int, a: Seq<bool>) -> Seq<Seq<bool>>
    decreases classes.len(),
{
    if classes.len() == 0 {
        seq![a]
    } else if !classes[0][i] {
        classes.update(0, or_bits(classes[0], a))
    } else {
        seq![classes[0]] + place_step(classes.drop_first(), i, a)
    }
}

/// Greedy coloring: the classes left after placing the ordered vertices
/// one by one.
pub open spec fn color_run(classes: Seq<Seq<bool>>, g: Seq<BitSet>, order: Seq<(u32, usize)>) -> Seq<
    Seq<bool>,
>
    decreases order.len(),
{
    if order.len() == 0 {
        classes
    } else {
        place_step(
            color_run(classes, g, order.drop_last()),
            order.last().1 as int,
            bits(g[order.last().1 as int]),
        )
    }
}

pub proof fn lemma_place_step_len(classes: Seq<Seq<bool>>, i: int, a: Seq<bool>)
    ensures
        classes.len() <= place_step(classes, i, a).len() <= classes.len() + 1,
    decreases classes.len(),
{
    if classes.len() > 0 && classes[0][i] {
        lemma_place_step_len(classes.drop_first(), i, a);
    }
}

pub proof fn lemma_color_run_len(classes: Seq<Seq<bool>>, g: Seq<BitSet>, order: Seq<(u32, usize)>)
    ensures
        classes.len() <= color_run(classes, g, order).len() <= classes.len() + order.len(),
    decreases order.len(),
{
    if order.len() > 0 {
        lemma_color_run_len(classes, g, order.drop_last());
        lemma_place_step_len(
            color_run(classes, g, order.drop_last()),
            order.last().1 as int,
            bits(g[order.last().1 as int]),
        );
    }
}

/// When the first `c` classes forbid `i` and class `c` does not, the greedy
/// step lands exactly on class `c`.
proof fn lemma_place_step_hit(classes: Seq<Seq<bool>>, i: int, a: Seq<bool>, c: int)
    requires
        0 <= c < classes.len(),
        forall|t: int| 0 <= t < c ==> (#[trigger] classes[t])[i],
        !classes[c][i],
    ensures
        place_step(classes, i, a) == classes.update(c, or_bits(classes[c], a)),
    decreases c,
{
    if c == 0 {
    } else {
        assert(classes[0][i]);
        lemma_place_step_hit(classes.drop_first(), i, a, c - 1);
        assert(seq![classes[0]] + classes.drop_first().update(
            c - 1,
            or_bits(classes.drop_first()[c - 1], a),
        ) =~= classes.update(c, or_bits(classes[c], a)));
    }
}

/// When every class forbids `i`, the greedy step opens a new class.
proof fn lemma_place_step_miss(classes: Seq<Seq<bool>>, i: int, a: Seq<bool>)
    requires
        forall|t: int| 0 <= t < classes.len() ==> (#[trigger] classes[t])[i],
    ensures
        place_step(classes, i, a) == classes.push(a),
    decreases classes.len(),
{
    if classes.len() == 0 {
        assert(seq![a] =~= classes.push(a));
    } else {
        lemma_place_step_miss(classes.drop_first(), i, a);
        assert(seq![classes[0]] + classes.drop_first().push(a) =~= classes.push(a));
    }
}

/// Insertion order for the two coloring orders: strictly before means a
/// larger degree in descending mode, a smaller one in ascending mode, so
/// equal degrees keep their input order (the sort is stable).
pub open spec fn pair_before(x: (u32, usize), y: (u32, usize), desc: bool) -> bool {
    if desc {
        x.0 > y.0
    } else {
        x.0 < y.0
    }
}

/// Stable insertion into an already sorted sequence.
pub open spec fn insert_ord(s: Seq<(u32, usize)>, x: (u32, usize), desc: bool) -> Seq<(u32, usize)>
    decreases s.len(),
{
    if s.len() == 0 {
        seq![x]
    } else if pair_before(x, s.last(), desc) {
        insert_ord(s.drop_last(), x, desc).push(s.last())
    } else {
        s.push(x)
    }
}

/// Stable insertion sort by degree.
pub open spec fn sort_ord(s: Seq<(u32, usize)>, desc: bool) -> Seq<(u32, usize)>
    decreases s.len(),
{
    if s.len() == 0 {
        Seq::empty()
    } else {
        insert_ord(sort_ord(s.drop_last(), desc), s.last(), desc)
    }
}

proof fn lemma_insert_ord_splice(s: Seq<(u32, usize)>, x: (u32, usize), desc: bool, i: int)
    requires
        0 <= i <= s.len(),
        forall|j: int| i <= j < s.len() ==> pair_before(x, #[trigger] s[j], desc),
        i > 0 ==> !pair_before(x, s[i - 1], desc),
    ensures
        insert_ord(s, x, desc) == s.insert(i, x),
    decreases s.len(),
{
    if i == s.len() {
        if s.len() == 0 {
            assert(insert_ord(s, x, desc) =~= s.insert(i, x));
        } else {
            assert(s.push(x) =~= s.insert(i, x));
        }
    } else {
        lemma_insert_ord_splice(s.drop_last(), x, desc, i);
        assert(s.drop_last().insert(i, x).push(s.last()) =~= s.insert(i, x));
    }
}

/// Inserting keeps the entries and adds the new one.
proof fn lemma_insert_ord_elems(s: Seq<(u32, usize)>, x: (u32, usize), desc: bool)
    ensures
        insert_ord(s, x, desc).len() == s.len() + 1,
        forall|t: int|
            0 <= t < insert_ord(s, x, desc).len() ==> (#[trigger] insert_ord(s, x, desc)[t] == x
                || exists|j: int| 0 <= j < s.len() && insert_ord(s, x, desc)[t] == s[j]),
    decreases s.len(),
{
    if s.len() == 0 {
    } else if pair_before(x, s.last(), desc) {
        lemma_insert_ord_elems(s.drop_last(), x, desc);
        let r0 = insert_ord(s.drop_last(), x, desc);
        let r = insert_ord(s, x, desc);
        assert forall|t: int| 0 <= t < r.len() implies (#[trigger] r[t] == x || exists|j: int|
            0 <= j < s.len() && r[t] == s[j]) by {
            if t == r.len() - 1 {
                assert(r[t] == s[s.len() - 1]);
            } else {
                assert(r[t] == r0[t]);
                if r0[t] != x {
                    let j = choose|j: int| 0 <= j < s.drop_last().len() && r0[t] == s.drop_last()[j];
                    assert(r[t] == s[j]);
                }
            }
        }
    } else {
        let r = insert_ord(s, x, desc);
        assert forall|t: int| 0 <= t < r.len() implies (#[trigger] r[t] == x || exists|j: int|
            0 <= j < s.len() && r[t] == s[j]) by {
            if t < s.len() {
                assert(r[t] == s[t]);
            }
        }
    }
}

/// Sorting keeps exactly the entries, in some order.
pub proof fn lemma_sort_ord_elems(s: Seq<(u32, usize)>, desc: bool)
    ensures
        sort_ord(s, desc).len() == s.len(),
        forall|t: int|
            0 <= t < sort_ord(s, desc).len() ==> exists|j: int|
                0 <= j < s.len() && #[trigger] sort_ord(s, desc)[t] == s[j],
    decreases s.len(),
{
    if s.len() > 0 {
        lemma_sort_ord_elems(s.drop_last(), desc);
        let r0 = sort_ord(s.drop_last(), desc);
        lemma_insert_ord_elems(r0, s.last(), desc);
        let r = sort_ord(s, desc);
        assert forall|t: int| 0 <= t < r.len() implies exists|j: int|
            0 <= j < s.len() && #[trigger] r[t] == s[j] by {
            if r[t] == s.last() {
                assert(r[t] == s[s.len() - 1]);
            } else {
                let j1 = choose|j1: int| 0 <= j1 < r0.len() && r[t] == r0[j1];
                let j2 = choose|j2: int| 0 <= j2 < s.drop_last().len() && r0[j1] == s.drop_last()[j2];
                assert(r[t] == s[j2]);
            }
        }
    }
}

/// The `(degree, vertex)` pairs of the vertices with nonzero cached degree
/// among the first `m`, in vertex order.
pub open spec fn nonzero_list(deg: Seq<u32>, m: int) -> Seq<(u32, usize)>
    decreases m,
{
    if m <= 0 {
        Seq::empty()
    } else if deg[m - 1] != 0 {
        nonzero_list(deg, m - 1).push((deg[m - 1], (m - 1) as usize))
    } else {
        nonzero_list(deg, m - 1)
    }
}

/// The list is no longer than the number of candidates, and each entry is
/// a vertex below `m` with its nonzero degree.
proof fn lemma_nonzero_list_props(deg: Seq<u32>, m: int, k: Seq<bool>)
    requires
        0 <= m <= deg.len(),
        m <= k.len(),
        forall|i: int| 0 <= i < m && #[trigger] deg[i] != 0 ==> k[i],
    ensures
        nonzero_list(deg, m).len() <= count_true(k.subrange(0, m)),
        forall|t: int|
            0 <= t < nonzero_list(deg, m).len() ==> (#[trigger] nonzero_list(deg, m)[t]).1 < m,
    decreases m,
{
    if m > 0 {
        lemma_nonzero_list_props(deg, m - 1, k);
        assert(k.subrange(0, m).drop_last() =~= k.subrange(0, m - 1));
        let r0 = nonzero_list(deg, m - 1);
        assert forall|t: int| 0 <= t < nonzero_list(deg, m).len() implies (#[trigger] nonzero_list(
            deg,
            m,
        )[t]).1 < m by {
            if t < r0.len() {
                assert(nonzero_list(deg, m)[t] == r0[t]);
            }
        }
    }
}

fn pair_ins(x: (u32, usize), y: (u32, usize), desc: bool) -> (r: bool)
    ensures
        r == pair_before(x, y, desc),
{
    if desc {
        x.0 > y.0
    } else {
        x.0 < y.0
    }
}

/// Stable insertion sort of `(degree, vertex)` pairs: descending by degree
/// when `desc`, else ascending; equal degrees keep their input order.
pub fn sort_pairs(v: &Vec<(u32, usize)>, desc: bool) -> (r: Vec<(u32, usize)>)
    ensures
        r@ == sort_ord(v@, desc),
{
    let mut out: Vec<(u32, usize)> = Vec::new();
    let mut j: usize = 0;
    proof {
        assert(v@.subrange(0, 0) =~= Seq::<(u32, usize)>::empty());
    }
    while j < v.len()
        invariant
            j <= v@.len(),
            out@ == sort_ord(v@.subrange(0, j as int), desc),
        decreases v@.len() - j,
    {
        let x = v[j];
        let mut i: usize = out.len();
        while i > 0 && pair_ins(x, out[i - 1], desc)
            invariant
                i <= out@.len(),
                forall|t: int| i <= t < out@.len() ==> pair_before(x, #[trigger] out@[t], desc),
            decreases i,
        {
            i = i - 1;
        }
        proof {
            lemma_insert_ord_splice(out@, x, desc, i as int);
            assert(v@.subrange(0, j + 1).drop_last() =~= v@.subrange(0, j as int));
            assert(v@.subrange(0, j + 1).last() == x);
        }
        out.insert(i, x);
        j = j + 1;
    }
    proof {
        assert(v@.subrange(0, v@.len() as int) =~= v@);
    }
    out
}

/// Scans the classes for the first one that does not forbid the vertex.
#[verifier::loop_isolation(false)]
fn find_class(isets: &Vec<BitSet>, vtx: usize) -> (r: usize)
    requires
        forall|c: int| 0 <= c < isets@.len() ==> vtx < bits(#[trigger] isets@[c]).len(),
    ensures
        r <= isets@.len(),
        forall|t: int| 0 <= t < r ==> bits(#[trigger] isets@[t])[vtx as int],
        r < isets@.len() ==> !bits(isets@[r as int])[vtx as int],
{
    let mut c: usize = 0;
    while c < isets.len()
        invariant
            c <= isets@.len(),
            forall|t: int| 0 <= t < c ==> bits(#[trigger] isets@[t])[vtx as int],
        decreases isets@.len() - c,
    {
        if !bs_get(&isets[c], vtx) {
            return c;
        }
        c = c + 1;
    }
    c
}

/// The marked vertices are pairwise adjacent (the self-bit convention makes
/// the diagonal harmless).
pub open spec fn is_clique(c: Seq<bool>, g: Seq<BitSet>) -> bool {
    forall|i: int, j: int|
        #![trigger c[i], c[j]]
        0 <= i < g.len() && 0 <= j < g.len() && c[i] && c[j] ==> bits(g[i])[j]
}

/// A partial solution: `k` holds the candidates (vertices not yet decided),
/// `siz` counts the vertices committed to the clique, `took` marks them, and
/// `deg` caches, for each candidate, an upper estimate of how many remaining
/// candidates (itself included) are adjacent to it; it is exact right after
/// an include step and may grow stale (too large) after exclude steps.
pub struct MaxCliqueState {
    pub k: BitSet,
    pub siz: usize,
    pub deg: Vec<u32>,
    pub took: BitSet,
}

impl MaxCliqueState {
    /// The state invariant, relative to the instance: sizes agree; decided
    /// vertices carry degree zero; a candidate's cached degree is at least
    /// the true count of candidates adjacent to it and at most the vertex
    /// count; no candidate is already committed; and `siz` counts the
    /// committed vertices.
    pub open spec fn wf(self, g: &Vec<BitSet>) -> bool {
        let n = g@.len();
        &&& bits(self.k).len() == n
        &&& bits(self.took).len() == n
        &&& self.deg@.len() == n
        &&& forall|i: int| 0 <= i < n ==> #[trigger] self.deg@[i] <= n
        &&& forall|i: int| 0 <= i < n && !bits(self.k)[i] ==> #[trigger] self.deg@[i] == 0
        &&& forall|i: int|
            0 <= i < n && bits(self.k)[i] ==> count_true(
                and_bits(bits(self.k), bits(g@[i])),
            ) <= #[trigger] self.deg@[i]
        &&& forall|i: int| 0 <= i < n && #[trigger] bits(self.k)[i] ==> !bits(self.took)[i]
        &&& self.siz as nat == count_true(bits(self.took))
        &&& clean(self.k)
        &&& clean(self.took)
        &&& is_clique(bits(self.took), g@)
        &&& forall|w: int, t: int|
            #![trigger bits(self.took)[w], bits(self.k)[t]]
            0 <= w < n && 0 <= t < n && bits(self.took)[w] && bits(self.k)[t] ==> bits(g@[w])[t]
    }

    /// Chooses the branching vertex: the candidate of maximum cached degree,
    /// the last such on a tie; nothing to branch on when every degree is
    /// zero.
    pub fn fork_on(&self) -> (r: Option<usize>)
        ensures
            match r {
                Option::None => forall|j: int|
                    0 <= j < self.deg@.len() ==> #[trigger] self.deg@[j] == 0,
                Option::Some(i) => i < self.deg@.len() && self.deg@[i as int] != 0 && (forall|
                    j: int,
                |
                    0 <= j < self.deg@.len() ==> #[trigger] self.deg@[j] <= self.deg@[i as int])
                    && (forall|j: int|
                    i < j < self.deg@.len() ==> #[trigger] self.deg@[j] < self.deg@[i as int]),
            },
    {
        if self.deg.len() == 0 {
            return Option::None;
        }
        let mut best: usize = 0;
        let mut j: usize = 1;
        while j < self.deg.len()
            invariant
                best < j,
                j <= self.deg@.len(),
                forall|k: int| 0 <= k < j ==> #[trigger] self.deg@[k] <= self.deg@[best as int],
                forall|k: int| best < k < j ==> #[trigger] self.deg@[k] < self.deg@[best as int],
            decreases self.deg@.len() - j,
        {
            if self.deg[j] >= self.deg[best] {
                best = j;
            }
            j = j + 1;
        }
        if self.deg[best] == 0 {
            Option::None
        } else {
            Option::Some(best)
        }
    }

    /// The exclude branch: vertex `i` leaves the candidate set and its
    /// cached degree is cleared; nothing else changes.
    pub fn fork0(&mut self, g: &Vec<BitSet>, i: usize)
        requires
            i < old(self).deg@.len(),
            old(self).deg@.len() == bits(old(self).k).len(),
        ensures
            final(self).deg@ == old(self).deg@.update(i as int, 0u32),
            bits(final(self).k) == bits(old(self).k).update(i as int, false),
            clean(final(self).k) == clean(old(self).k),
            final(self).siz == old(self).siz,
            final(self).took == old(self).took,
            old(self).wf(g) && graph_ok(g@) ==> final(self).wf(g),
            count_true(bits(old(self).k)) == count_true(bits(final(self).k)) + (if bits(
                old(self).k,
            )[i as int] {
                1nat
            } else {
                0nat
            }),
    {
        self.deg.set(i, 0);
        bs_set(&mut self.k, i, false);
        proof {
            lemma_count_update(bits(old(self).k), i as int, false);
            if old(self).wf(g) && graph_ok(g@) {
                let n = g@.len();
                let oldk = bits(old(self).k);
                let newk = bits(self.k);
                assert forall|j: int|
                    0 <= j < n && newk[j] implies count_true(and_bits(newk, bits(g@[j])))
                    <= #[trigger] self.deg@[j] by {
                    lemma_count_mono(and_bits(newk, bits(g@[j])), and_bits(oldk, bits(g@[j])));
                }
            }
        }
    }

    /// The include branch: vertex `i` joins the clique, the candidate set is
    /// intersected with `i`'s adjacency row, the cached degree of every
    /// vertex that still had one is recomputed against the narrowed
    /// candidate set, and finally `i` itself is excluded from the
    /// candidates.
    #[verifier::loop_isolation(false)]
    pub fn fork1(&mut self, g: &Vec<BitSet>, i: usize)
        requires
            old(self).wf(g),
            graph_ok(g@),
            i < g@.len(),
            bits(old(self).k)[i as int],
        ensures
            final(self).wf(g),
            final(self).siz == old(self).siz + 1,
            bits(final(self).took) == bits(old(self).took).update(i as int, true),
            bits(final(self).k) == and_bits(bits(old(self).k), bits(g@[i as int])).update(
                i as int,
                false,
            ),
            final(self).deg@.len() == old(self).deg@.len(),
            final(self).deg@[i as int] == 0,
            forall|j: int|
                0 <= j < g@.len() && j != i ==> (#[trigger] final(self).deg@[j]) as nat == (if old(
                    self,
                ).deg@[j] != 0 && and_bits(bits(old(self).k), bits(g@[i as int]))[j] {
                    count_true(
                        and_bits(and_bits(bits(old(self).k), bits(g@[i as int])), bits(g@[j])),
                    )
                } else {
                    0nat
                }),
            count_true(bits(final(self).k)) < count_true(bits(old(self).k)),
    {
        let n = g.len();
        proof {
            lemma_count_update(bits(old(self).took), i as int, true);
            lemma_count_le_len(bits(old(self).took).update(i as int, true));
        }
        self.siz = self.siz + 1;
        bs_set(&mut self.took, i, true);
        bs_and(&mut self.k, &g[i]);
        let ghost mid = bits(self.k);
        let ghost took_mid = self.took;
        let ghost siz_mid = self.siz;
        let mut j: usize = 0;
        while j < n
            invariant
                j <= n,
                self.deg@.len() == n,
                bits(self.k) == mid,
                clean(self.k),
                self.took == took_mid,
                self.siz == siz_mid,
                forall|t: int| j <= t < n ==> #[trigger] self.deg@[t] == old(self).deg@[t],
                forall|t: int|
                    0 <= t < j ==> (#[trigger] self.deg@[t]) as nat == (if old(self).deg@[t] != 0
                        && mid[t] {
                        count_true(and_bits(mid, bits(g@[t])))
                    } else {
                        0nat
                    }),
            decreases n - j,
        {
            if self.deg[j] != 0 {
                if bs_get(&self.k, j) {
                    let mut tmp = bs_clone(&self.k);
                    bs_and(&mut tmp, &g[j]);
                    proof {
                        lemma_count_le_len(and_bits(mid, bits(g@[j as int])));
                    }
                    let c = bs_count(&tmp);
                    self.deg.set(j, c);
                } else {
                    self.deg.set(j, 0);
                }
            }
            j = j + 1;
        }
        self.fork0(g, i);
        proof {
            let oldk = bits(old(self).k);
            let gi = bits(g@[i as int]);
            let newk = bits(self.k);
            assert(mid == and_bits(oldk, gi));
            assert(mid[i as int]);
            lemma_count_update(mid, i as int, false);
            lemma_count_mono(mid, oldk);
            let nn = g@.len();
            assert forall|t: int| 0 <= t < nn implies #[trigger] self.deg@[t] <= nn by {
                if t != i && old(self).deg@[t] != 0 && mid[t] {
                    lemma_count_le_len(and_bits(mid, bits(g@[t])));
                }
            }
            assert forall|t: int| 0 <= t < nn && !newk[t] implies #[trigger] self.deg@[t]
                == 0 by {
                if t != i && old(self).deg@[t] != 0 && mid[t] {
                    assert(newk[t]);
                }
            }
            assert forall|t: int| 0 <= t < nn && newk[t] implies count_true(
                and_bits(newk, bits(g@[t])),
            ) <= #[trigger] self.deg@[t] by {
                assert(mid[t] && t != i);
                assert(oldk[t]);
                lemma_count_pos(and_bits(oldk, bits(g@[t])), t);
                assert(old(self).deg@[t] != 0);
                lemma_count_le_len(and_bits(mid, bits(g@[t])));
                lemma_count_mono(and_bits(newk, bits(g@[t])), and_bits(mid, bits(g@[t])));
            }
            assert forall|t: int| 0 <= t < nn && #[trigger] newk[t] implies !bits(
                self.took,
            )[t] by {
                assert(oldk[t]);
            }
        }
    }

    /// Greedy-colors the candidates in the given order and returns the
    /// number of classes built, the seed class included.  Each class's
    /// forbidden set starts from the committed vertices' neighborhoods, and
    /// a clique can contribute at most one vertex per class.
    #[verifier::loop_isolation(false)]
    pub fn gcp_with_order(&self, g: &Vec<BitSet>, v: &Vec<(u32, usize)>) -> (r: u32)
        requires
            self.wf(g),
            graph_ok(g@),
            forall|t: int| 0 <= t < v@.len() ==> (#[trigger] v@[t]).1 < g@.len(),
            v@.len() + 1 <= u32::MAX,
        ensures
            r as int == color_run(
                seq![class_seed(g@, bits(self.took), g@.len() as int)],
                g@,
                v@,
            ).len(),
            1 <= r,
            r as int <= 1 + v@.len(),
    {
        let n = g.len();
        let mut seed = bs_new(n);
        let mut i: usize = 0;
        while i < n
            invariant
                i <= n,
                bits(seed) == class_seed(g@, bits(self.took), i as int),
                bits(seed).len() == n,
                clean(seed),
            decreases n - i,
        {
            if bs_get(&self.took, i) {
                bs_or(&mut seed, &g[i]);
            }
            i = i + 1;
        }
        let mut isets: Vec<BitSet> = Vec::new();
        isets.push(seed);
        let ghost init = seq![class_seed(g@, bits(self.took), g@.len() as int)];
        proof {
            assert(isets@.map_values(|b: BitSet| bits(b)) =~= init);
            assert(v@.subrange(0, 0) =~= Seq::<(u32, usize)>::empty());
        }
        let mut j: usize = 0;
        while j < v.len()
            invariant
                j <= v@.len(),
                isets@.map_values(|b: BitSet| bits(b)) == color_run(
                    init,
                    g@,
                    v@.subrange(0, j as int),
                ),
                forall|c: int| 0 <= c < isets@.len() ==> bits(#[trigger] isets@[c]).len() == n,
                forall|c: int| 0 <= c < isets@.len() ==> clean(#[trigger] isets@[c]),
                1 <= isets@.len(),
                isets@.len() <= 1 + j,
            decreases v@.len() - j,
        {
            let pr = v[j];
            let vtx = pr.1;
            let ghost before = isets@.map_values(|b: BitSet| bits(b));
            let c = find_class(&isets, vtx);
            if c < isets.len() {
                let mut cls = isets.remove(c);
                bs_or(&mut cls, &g[vtx]);
                isets.insert(c, cls);
                proof {
                    lemma_place_step_hit(before, vtx as int, bits(g@[vtx as int]), c as int);
                    assert(isets@.map_values(|b: BitSet| bits(b)) =~= before.update(
                        c as int,
                        or_bits(before[c as int], bits(g@[vtx as int])),
                    ));
                }
            } else {
                isets.push(bs_clone(&g[vtx]));
                proof {
                    lemma_place_step_miss(before, vtx as int, bits(g@[vtx as int]));
                    assert(isets@.map_values(|b: BitSet| bits(b)) =~= before.push(
                        bits(g@[vtx as int]),
                    ));
                }
            }
            proof {
                assert(v@.subrange(0, j + 1).drop_last() =~= v@.subrange(0, j as int));
                assert(v@.subrange(0, j + 1).last() == pr);
            }
            j = j + 1;
        }
        proof {
            assert(v@.subrange(0, v@.len() as int) =~= v@);
        }
        isets.len() as u32
    }

    /// The coloring-based upper bound on the best clique reachable from
    /// this state: `siz` plus the smaller class count of two greedy
    /// colorings, one over the candidates by descending cached degree, one
    /// by ascending.
    pub open spec fn clique_ub(self, g: &Vec<BitSet>) -> int {
        let v0 = nonzero_list(self.deg@, g@.len() as int);
        let o1 = sort_ord(v0, true);
        let o2 = sort_ord(o1, false);
        let init = seq![class_seed(g@, bits(self.took), g@.len() as int)];
        let c1 = color_run(init, g@, o1).len() as int;
        let c2 = color_run(init, g@, o2).len() as int;
        self.siz + (if c2 < c1 {
            c2
        } else {
            c1
        })
    }

    /// Computes the upper bound: the better of the two greedy colorings,
    /// plus the committed size.  The returned count truly bounds every
    /// clique that extends the committed set through the candidates:
    /// `lemma_clique_ub_sound`.
    pub fn gcp(&self, g: &Vec<BitSet>) -> (r: u32)
        requires
            self.wf(g),
            graph_ok(g@),
        ensures
            r as int == self.clique_ub(g),
            self.siz < r as int,
            r as int <= g@.len() + 1,
    {
        let n = g.len();
        let mut v: Vec<(u32, usize)> = Vec::new();
        let mut i: usize = 0;
        while i < n
            invariant
                i <= n,
                n == g@.len(),
                self.deg@.len() == n,
                v@ == nonzero_list(self.deg@, i as int),
            decreases n - i,
        {
            if self.deg[i] != 0 {
                v.push((self.deg[i], i));
            }
            i = i + 1;
        }
        proof {
            lemma_nonzero_list_props(self.deg@, n as int, bits(self.k));
            assert(bits(self.k).subrange(0, n as int) =~= bits(self.k));
            lemma_count_le_len(bits(self.k));
            lemma_count_le_len(bits(self.took));
            lemma_count_disjoint(bits(self.k), bits(self.took));
            lemma_sort_ord_elems(v@, true);
            lemma_sort_ord_elems(sort_ord(v@, true), false);
            assert forall|t: int| 0 <= t < sort_ord(v@, true).len() implies (#[trigger] sort_ord(
                v@,
                true,
            )[t]).1 < g@.len() by {
                let j = choose|j: int| 0 <= j < v@.len() && sort_ord(v@, true)[t] == v@[j];
            }
            assert forall|t: int|
                0 <= t < sort_ord(sort_ord(v@, true), false).len() implies (#[trigger] sort_ord(
                sort_ord(v@, true),
                false,
            )[t]).1 < g@.len() by {
                let j = choose|j: int|
                    0 <= j < sort_ord(v@, true).len() && sort_ord(sort_ord(v@, true), false)[t]
                        == sort_ord(v@, true)[j];
            }
        }
        let v1 = sort_pairs(&v, true);
        let r1 = self.gcp_with_order(g, &v1);
        let v2 = sort_pairs(&v1, false);
        let r2 = self.gcp_with_order(g, &v2);
        let res = if r2 < r1 {
            r2
        } else {
            r1
        };
        (self.siz as u32) + res
    }

    /// An independent deep copy.
    pub fn clone_state(&self) -> (r: Self)
        ensures
            bits(r.k) == bits(self.k),
            bits(r.took) == bits(self.took),
            clean(r.k) == clean(self.k),
            clean(r.took) == clean(self.took),
            r.deg@ == self.deg@,
            r.siz == self.siz,
    {
        let mut d: Vec<u32> = Vec::new();
        let mut j: usize = 0;
        while j < self.deg.len()
            invariant
                j <= self.deg@.len(),
                d@ == self.deg@.subrange(0, j as int),
            decreases self.deg@.len() - j,
        {
            d.push(self.deg[j]);
            proof {
                assert(d@ =~= self.deg@.subrange(0, j + 1));
            }
            j = j + 1;
        }
        proof {
            assert(self.deg@.subrange(0, self.deg@.len() as int) =~= self.deg@);
        }
        MaxCliqueState { k: bs_clone(&self.k), siz: self.siz, deg: d, took: bs_clone(&self.took) }
    }
}

/// Vertex `i` is the branching vertex of `s`: a vertex of maximum cached
/// degree, nonzero, and the last such on a tie.
pub open spec fn branch_at(s: MaxCliqueState, i: int, g: &Vec<BitSet>) -> bool {
    &&& 0 <= i < s.deg@.len()
    &&& s.deg@[i] != 0
    &&& forall|j: int| 0 <= j < s.deg@.len() ==> #[trigger] s.deg@[j] <= s.deg@[i]
    &&& forall|j: int| i < j < s.deg@.len() ==> #[trigger] s.deg@[j] < s.deg@[i]
}

/// `c` is the exclude child of `s` at vertex `i`.
pub open spec fn excl_rel(c: MaxCliqueState, s: MaxCliqueState, i: int) -> bool {
    &&& bits(c.k) == bits(s.k).update(i, false)
    &&& c.deg@ == s.deg@.update(i, 0u32)
    &&& c.siz == s.siz
    &&& bits(c.took) == bits(s.took)
}

/// `c` is the include child of `s` at vertex `i`: the vertex joins the
/// clique, the candidates narrow to its neighborhood, and the degrees of
/// the vertices that still had one are recomputed against the narrowed
/// candidate set (which still holds `i` at that point); finally `i` itself
/// is excluded.
pub open spec fn incl_rel(c: MaxCliqueState, s: MaxCliqueState, i: int, g: &Vec<BitSet>) -> bool {
    let mid = and_bits(bits(s.k), bits(g@[i]));
    &&& bits(c.k) == mid.update(i, false)
    &&& c.siz == s.siz + 1
    &&& bits(c.took) == bits(s.took).update(i, true)
    &&& c.deg@.len() == s.deg@.len()
    &&& c.deg@[i] == 0
    &&& forall|j: int|
        0 <= j < s.deg@.len() && j != i ==> (#[trigger] c.deg@[j]) as nat == (if s.deg@[j] != 0
            && mid[j] {
            count_true(and_bits(mid, bits(g@[j])))
        } else {
            0nat
        })
}

impl State for MaxCliqueState {
    type Rt = u32;

    type Problem = Vec<BitSet>;

    type Sol = Seq<bool>;

    open spec fn problem_ok(p: &Vec<BitSet>) -> bool {
        graph_ok(p@)
    }

    open spec fn inv(&self, p: &Vec<BitSet>) -> bool {
        self.wf(p)
    }

    open spec fn lb_spec(&self, p: &Vec<BitSet>) -> u32 {
        self.siz as u32
    }

    open spec fn ub_spec(&self, p: &Vec<BitSet>) -> u32 {
        self.clique_ub(p) as u32
    }

    open spec fn is_root(&self, p: &Vec<BitSet>) -> bool {
        &&& bits(self.k) == Seq::new(p@.len(), |i: int| true)
        &&& self.siz == 0
        &&& bits(self.took) == Seq::new(p@.len(), |i: int| false)
        &&& self.deg@.len() == p@.len()
        &&& forall|i: int|
            0 <= i < p@.len() ==> (#[trigger] self.deg@[i]) as nat == count_true(bits(p@[i]))
    }

    open spec fn is_child_of(&self, parent: &Self, p: &Vec<BitSet>) -> bool {
        exists|i: int|
            #[trigger] branch_at(*parent, i, p) && (incl_rel(*self, *parent, i, p) || excl_rel(
                *self,
                *parent,
                i,
            ))
    }

    open spec fn is_children_list(&self, r: Seq<Self>, p: &Vec<BitSet>) -> bool {
        if self.is_leaf(p) {
            r.len() == 0
        } else {
            r.len() == 2 && exists|i: int|
                #[trigger] branch_at(*self, i, p) && incl_rel(r[0], *self, i, p) && excl_rel(
                    r[1],
                    *self,
                    i,
                )
        }
    }

    open spec fn is_leaf(&self, p: &Vec<BitSet>) -> bool {
        forall|j: int| 0 <= j < self.deg@.len() ==> #[trigger] self.deg@[j] == 0
    }

    open spec fn pot(&self, p: &Vec<BitSet>) -> nat {
        pow3(count_true(bits(self.k)) + 1)
    }

    proof fn lemma_pot_pos(&self, p: &Vec<BitSet>) {
        lemma_pow3_pos(count_true(bits(self.k)) + 1);
    }

    open spec fn is_target(sol: Seq<bool>, p: &Vec<BitSet>) -> bool {
        false
    }

    open spec fn target_value(sol: Seq<bool>, p: &Vec<BitSet>) -> u32 {
        0u32
    }

    open spec fn covers(&self, sol: Seq<bool>, p: &Vec<BitSet>) -> bool {
        false
    }

    proof fn lemma_root_target(&self, sol: Seq<bool>, p: &Vec<BitSet>) {
    }

    proof fn lemma_target_step(&self, kids: Seq<Self>, sol: Seq<bool>, p: &Vec<BitSet>) {
    }

    open spec fn is_goal(sol: Seq<bool>, p: &Vec<BitSet>) -> bool {
        sol.len() == p@.len() && is_clique(sol, p@)
    }

    open spec fn goal_value(sol: Seq<bool>, p: &Vec<BitSet>) -> u32 {
        count_true(sol) as u32
    }

    open spec fn covers_goal(&self, sol: Seq<bool>, p: &Vec<BitSet>) -> bool {
        &&& forall|i: int| 0 <= i < p@.len() && #[trigger] bits(self.took)[i] ==> sol[i]
        &&& forall|i: int|
            0 <= i < p@.len() && #[trigger] sol[i] && !bits(self.took)[i] ==> bits(self.k)[i]
    }

    proof fn lemma_root_goal(&self, sol: Seq<bool>, p: &Vec<BitSet>) {
        lemma_clique_ub_sound(*self, p, sol);
        lemma_clique_bounds(*self, p);
        lemma_count_le_len(sol);
    }

    proof fn lemma_goal_step(&self, kids: Seq<Self>, sol: Seq<bool>, p: &Vec<BitSet>) {
        let n = p@.len() as int;
        lemma_count_le_len(sol);
        lemma_count_le_len(bits(self.took));
        if self.is_leaf(p) {
            lemma_leaf_bounds(*self, p);
            assert forall|i: int| 0 <= i < n implies !bits(self.k)[i] by {
                if bits(self.k)[i] {
                    lemma_count_pos(bits(self.k), i);
                }
            }
            assert forall|i: int| 0 <= i < n && #[trigger] sol[i] implies bits(self.took)[i] by {
            }
            lemma_count_mono(sol, bits(self.took));
        } else {
            let i = choose|i: int|
                #[trigger] branch_at(*self, i, p) && incl_rel(kids[0], *self, i, p) && excl_rel(
                    kids[1],
                    *self,
                    i,
                );
            assert(bits(self.k)[i]);
            if sol[i] {
                let c1 = kids[0];
                let mid = and_bits(bits(self.k), bits(p@[i]));
                assert forall|j: int|
                    0 <= j < n && #[trigger] sol[j] && !bits(c1.took)[j] implies bits(c1.k)[j] by {
                    assert(bits(p@[i])[j]);
                }
                lemma_clique_ub_sound(c1, p, sol);
                lemma_clique_bounds(c1, p);
                assert(c1.covers_goal(sol, p) && Self::goal_value(sol, p).le_spec(
                    c1.ub_spec(p),
                ));
            } else {
                let c0 = kids[1];
                assert forall|j: int|
                    0 <= j < n && #[trigger] sol[j] && !bits(c0.took)[j] implies bits(c0.k)[j] by {
                }
                lemma_clique_ub_sound(c0, p, sol);
                lemma_clique_bounds(c0, p);
                assert(c0.covers_goal(sol, p) && Self::goal_value(sol, p).le_spec(
                    c0.ub_spec(p),
                ));
            }
        }
    }

    fn root(p: &Vec<BitSet>) -> (r: Self) {
        let n = p.len();
        let mut deg: Vec<u32> = Vec::new();
        let mut i: usize = 0;
        while i < n
            invariant
                i <= n,
                n == p@.len(),
                graph_ok(p@),
                deg@.len() == i,
                forall|t: int| 0 <= t < i ==> (#[trigger] deg@[t]) as nat == count_true(bits(p@[t])),
            decreases n - i,
        {
            proof {
                lemma_count_le_len(bits(p@[i as int]));
            }
            deg.push(bs_count(&p[i]));
            i = i + 1;
        }
        let k = bs_not(bs_new(n));
        let took = bs_new(n);
        let r = MaxCliqueState { k, siz: 0, deg, took };
        proof {
            assert(bits(r.k) =~= Seq::new(n as nat, |t: int| true));
            lemma_count_false(n as nat);
            assert forall|t: int| 0 <= t < n implies #[trigger] r.deg@[t] <= n by {
                lemma_count_le_len(bits(p@[t]));
            }
            assert forall|t: int| 0 <= t < n && bits(r.k)[t] implies count_true(
                and_bits(bits(r.k), bits(p@[t])),
            ) <= #[trigger] r.deg@[t] by {
                assert(and_bits(bits(r.k), bits(p@[t])) =~= bits(p@[t]));
            }
        }
        r
    }

    fn lb(&self, p: &Vec<BitSet>) -> (r: u32) {
        proof {
            lemma_count_le_len(bits(self.took));
        }
        self.siz as u32
    }

    fn ub(&self, p: &Vec<BitSet>) -> (r: u32) {
        self.gcp(p)
    }

    fn children(&self, p: &Vec<BitSet>) -> (r: Vec<Self>) {
        let mut out: Vec<MaxCliqueState> = Vec::new();
        match self.fork_on() {
            Option::None => {
                proof {
                    lemma_pow3_pos(count_true(bits(self.k)) + 1);
                    assert(out@.map_values(|c: MaxCliqueState| c.pot(p)) =~= Seq::<nat>::empty());
                }
            },
            Option::Some(i) => {
                let mut c0 = self.clone_state();
                let mut c1 = self.clone_state();
                c0.fork0(p, i);
                c1.fork1(p, i);
                out.push(c1);
                out.push(c0);
                proof {
                    let cnt = count_true(bits(self.k));
                    let cnt0 = count_true(bits(c0.k));
                    let cnt1 = count_true(bits(c1.k));
                    assert(branch_at(*self, i as int, p));
                    assert(excl_rel(c0, *self, i as int));
                    assert(incl_rel(c1, *self, i as int, p));
                    assert(c1.is_child_of(self, p));
                    assert(c0.is_child_of(self, p));
                    assert(bits(self.k)[i as int]);
                    assert(cnt0 + 1 == cnt);
                    assert(cnt1 < cnt);
                    lemma_pow3_pos(cnt);
                    lemma_pow3_mono(cnt1 + 1, cnt);
                    let pots = out@.map_values(|c: MaxCliqueState| c.pot(p));
                    assert(pots =~= seq![pow3(cnt1 + 1), pow3(cnt0 + 1)]);
                    lemma_sum_nat_insert(Seq::<nat>::empty(), 0, pow3(cnt1 + 1));
                    assert(Seq::<nat>::empty().insert(0, pow3(cnt1 + 1)) =~= seq![
                        pow3(cnt1 + 1),
                    ]);
                    lemma_sum_nat_insert(seq![pow3(cnt1 + 1)], 1, pow3(cnt0 + 1));
                    assert(seq![pow3(cnt1 + 1)].insert(1, pow3(cnt0 + 1)) =~= seq![
                        pow3(cnt1 + 1),
                        pow3(cnt0 + 1),
                    ]);
                    assert(sum_nat(pots) == pow3(cnt1 + 1) + pow3(cnt0 + 1));
                    assert(pow3(cnt + 1) == 3 * pow3(cnt));
                }
            },
        }
        out
    }

    fn dup(&self, p: &Vec<BitSet>) -> (r: Self) {
        self.clone_state()
    }
}

/// Whether vertices `i` and `j` are joined by one of the first `m` edges,
/// in either direction, or are the same vertex.
pub open spec fn edge_bit(edges: Seq<(usize, usize)>, m: int, i: int, j: int) -> bool
    decreases m,
{
    if m <= 0 {
        i == j
    } else {
        edge_bit(edges, m - 1, i, j) || (edges[m - 1].0 == i && edges[m - 1].1 == j) || (edges[m
            - 1].0 == j && edges[m - 1].1 == i)
    }
}

proof fn lemma_edge_bit_refl(edges: Seq<(usize, usize)>, m: int, i: int)
    ensures
        edge_bit(edges, m, i, i),
    decreases m,
{
    if m > 0 {
        lemma_edge_bit_refl(edges, m - 1, i);
    }
}

proof fn lemma_edge_bit_sym(edges: Seq<(usize, usize)>, m: int, i: int, j: int)
    ensures
        edge_bit(edges, m, i, j) == edge_bit(edges, m, j, i),
    decreases m,
{
    if m > 0 {
        lemma_edge_bit_sym(edges, m - 1, i, j);
    }
}

/// Builds the adjacency representation from an edge list over `n` vertices:
/// bit `(i, j)` is set exactly when `i == j` or the list holds the edge in
/// either direction.
#[verifier::loop_isolation(false)]
pub fn graph_from_edges(n: usize, edges: &Vec<(usize, usize)>) -> (g: Vec<BitSet>)
    requires
        n + 64 <= u32::MAX,
        forall|e: int|
            0 <= e < edges@.len() ==> (#[trigger] edges@[e]).0 < n && edges@[e].1 < n,
    ensures
        g@.len() == n,
        graph_ok(g@),
        forall|i: int, j: int|
            0 <= i < n && 0 <= j < n ==> #[trigger] bits(g@[i])[j] == edge_bit(
                edges@,
                edges@.len() as int,
                i,
                j,
            ),
{
    let mut g: Vec<BitSet> = Vec::new();
    let mut i: usize = 0;
    while i < n
        invariant
            i <= n,
            g@.len() == i,
            forall|t: int|
                0 <= t < i ==> bits(#[trigger] g@[t]) == Seq::new(n as nat, |x: int| false).update(
                    t,
                    true,
                ),
            forall|t: int| 0 <= t < i ==> clean(#[trigger] g@[t]),
        decreases n - i,
    {
        let mut row = bs_new(n);
        bs_set(&mut row, i, true);
        g.push(row);
        i = i + 1;
    }
    let mut e: usize = 0;
    while e < edges.len()
        invariant
            e <= edges@.len(),
            g@.len() == n,
            forall|t: int| 0 <= t < n ==> bits(#[trigger] g@[t]).len() == n,
            forall|t: int| 0 <= t < n ==> clean(#[trigger] g@[t]),
            forall|i2: int, j2: int|
                0 <= i2 < n && 0 <= j2 < n ==> #[trigger] bits(g@[i2])[j2] == edge_bit(
                    edges@,
                    e as int,
                    i2,
                    j2,
                ),
        decreases edges@.len() - e,
    {
        let pr = edges[e];
        let u = pr.0;
        let v = pr.1;
        let mut row = bs_clone(&g[u]);
        bs_set(&mut row, v, true);
        g.set(u, row);
        let mut row2 = bs_clone(&g[v]);
        bs_set(&mut row2, u, true);
        g.set(v, row2);
        proof {
            assert forall|i2: int, j2: int|
                0 <= i2 < n && 0 <= j2 < n implies #[trigger] bits(g@[i2])[j2] == edge_bit(
                edges@,
                e + 1,
                i2,
                j2,
            ) by {
            }
        }
        e = e + 1;
    }
    proof {
        assert forall|i2: int|
            0 <= i2 < g@.len() implies (#[trigger] bits(g@[i2])).len() == g@.len() && bits(
            g@[i2],
        )[i2] by {
            lemma_edge_bit_refl(edges@, edges@.len() as int, i2);
        }
        assert forall|i2: int, j2: int|
            0 <= i2 < g@.len() && 0 <= j2 < g@.len() implies #[trigger] bits(g@[i2])[j2] == bits(
            g@[j2],
        )[i2] by {
            lemma_edge_bit_sym(edges@, edges@.len() as int, i2, j2);
        }
    }
    g
}

/// The size of the largest clique of the graph.  The returned value is
/// achieved — it counts the vertices of an actual clique of the graph, the
/// search state's committed set — and it is maximal: no clique of the
/// graph has more vertices.
pub fn max_clique_value(g: &Vec<BitSet>) -> (r: u32)
    requires
        graph_ok(g@),
    ensures
        r as int <= g@.len(),
        exists|c: Seq<bool>|
            c.len() == g@.len() && #[trigger] is_clique(c, g@) && r as nat == count_true(c),
        forall|c: Seq<bool>|
            c.len() == g@.len() && #[trigger] is_clique(c, g@) ==> count_true(c) <= r as nat,
{
    let res = find_minimum::<MonotoneLb<Maximize<MaxCliqueState>>>(g);
    proof {
        lemma_count_le_len(bits(res.1.0.0.took));
        assert(is_clique(bits(res.1.0.0.took), g@) && res.0.0 as nat == count_true(
            bits(res.1.0.0.took),
        ));
        assert forall|c: Seq<bool>|
            c.len() == g@.len() && #[trigger] is_clique(c, g@) implies count_true(c) <= res.0.0
            as nat by {
            lemma_count_le_len(c);
            assert(<MonotoneLb<Maximize<MaxCliqueState>> as State>::is_target(c, g));
            assert(res.0.le_spec(
                <MonotoneLb<Maximize<MaxCliqueState>> as State>::target_value(c, g),
            ));
        }
    }
    let bound: Rev<u32> = res.0;
    bound.0
}

/// The forbidden set `c` covers every vertex of the set `w`.
spec fn forbids_all(c: Seq<bool>, w: Seq<bool>) -> bool {
    forall|u: int| 0 <= u < w.len() && #[trigger] w[u] ==> c[u]
}

/// How many classes forbid all of `w`.
spec fn full_count(cs: Seq<Seq<bool>>, w: Seq<bool>) -> nat
    decreases cs.len(),
{
    if cs.len() == 0 {
        0
    } else {
        (if forbids_all(cs[0], w) {
            1nat
        } else {
            0nat
        }) + full_count(cs.drop_first(), w)
    }
}

proof fn lemma_full_le_len(cs: Seq<Seq<bool>>, w: Seq<bool>)
    ensures
        full_count(cs, w) <= cs.len(),
    decreases cs.len(),
{
    if cs.len() > 0 {
        lemma_full_le_len(cs.drop_first(), w);
    }
}

/// A greedy step never un-fills a class: forbidden sets only grow.
proof fn lemma_full_step_mono(cs: Seq<Seq<bool>>, i: int, a: Seq<bool>, w: Seq<bool>)
    requires
        forall|j: int| 0 <= j < cs.len() ==> (#[trigger] cs[j]).len() == w.len(),
    ensures
        full_count(place_step(cs, i, a), w) >= full_count(cs, w),
    decreases cs.len(),
{
    if cs.len() == 0 {
    } else if !cs[0][i] {
        let r = place_step(cs, i, a);
        assert(r.drop_first() =~= cs.drop_first());
        assert(r[0] == or_bits(cs[0], a));
        if forbids_all(cs[0], w) {
            assert forall|u: int| 0 <= u < w.len() && #[trigger] w[u] implies or_bits(
                cs[0],
                a,
            )[u] by {
                assert(cs[0][u]);
            }
        }
    } else {
        lemma_full_step_mono(cs.drop_first(), i, a, w);
        let r = place_step(cs, i, a);
        assert(r.drop_first() =~= place_step(cs.drop_first(), i, a));
        assert(r[0] == cs[0]);
    }
}

/// Placing a member `v` of `w`, whose adjacency row `a` covers all of `w`,
/// fills one more class: the class it joins (or opens) now forbids every
/// member of `w`.
proof fn lemma_full_step_member(cs: Seq<Seq<bool>>, v: int, a: Seq<bool>, w: Seq<bool>)
    requires
        0 <= v < w.len(),
        w[v],
        a.len() == w.len(),
        forall|j: int| 0 <= j < cs.len() ==> (#[trigger] cs[j]).len() == w.len(),
        forall|u: int| 0 <= u < w.len() && #[trigger] w[u] ==> a[u],
    ensures
        full_count(place_step(cs, v, a), w) >= full_count(cs, w) + 1,
    decreases cs.len(),
{
    if cs.len() == 0 {
        let r = place_step(cs, v, a);
        assert(r.drop_first() =~= Seq::<Seq<bool>>::empty());
        assert(forbids_all(a, w));
    } else if !cs[0][v] {
        let r = place_step(cs, v, a);
        assert(r.drop_first() =~= cs.drop_first());
        assert(r[0] == or_bits(cs[0], a));
        assert(!forbids_all(cs[0], w));
        assert forall|u: int| 0 <= u < w.len() && #[trigger] w[u] implies or_bits(cs[0], a)[u] by {
            assert(a[u]);
        }
    } else {
        lemma_full_step_member(cs.drop_first(), v, a, w);
        let r = place_step(cs, v, a);
        assert(r.drop_first() =~= place_step(cs.drop_first(), v, a));
        assert(r[0] == cs[0]);
    }
}

proof fn lemma_step_class_lens(cs: Seq<Seq<bool>>, i: int, a: Seq<bool>, len: nat)
    requires
        a.len() == len,
        forall|j: int| 0 <= j < cs.len() ==> (#[trigger] cs[j]).len() == len,
    ensures
        forall|j: int|
            0 <= j < place_step(cs, i, a).len() ==> (#[trigger] place_step(cs, i, a)[j]).len()
                == len,
    decreases cs.len(),
{
    if cs.len() == 0 {
    } else if !cs[0][i] {
    } else {
        lemma_step_class_lens(cs.drop_first(), i, a, len);
        let r = place_step(cs, i, a);
        assert forall|j: int| 0 <= j < r.len() implies (#[trigger] r[j]).len() == len by {
            if j > 0 {
                assert(r[j] == place_step(cs.drop_first(), i, a)[j - 1]);
            }
        }
    }
}

proof fn lemma_run_class_lens(cs: Seq<Seq<bool>>, g: Seq<BitSet>, o: Seq<(u32, usize)>, len: nat)
    requires
        forall|j: int| 0 <= j < cs.len() ==> (#[trigger] cs[j]).len() == len,
        forall|t: int| 0 <= t < o.len() ==> (#[trigger] o[t]).1 < g.len(),
        forall|t: int| 0 <= t < o.len() ==> bits(g[(#[trigger] o[t]).1 as int]).len() == len,
    ensures
        forall|j: int|
            0 <= j < color_run(cs, g, o).len() ==> (#[trigger] color_run(cs, g, o)[j]).len() == len,
    decreases o.len(),
{
    if o.len() > 0 {
        assert forall|t: int| 0 <= t < o.drop_last().len() implies (#[trigger] o.drop_last()[t]).1
            < g.len() && bits(g[o.drop_last()[t].1 as int]).len() == len by {
            assert(o.drop_last()[t] == o[t]);
        }
        lemma_run_class_lens(cs, g, o.drop_last(), len);
        lemma_step_class_lens(
            color_run(cs, g, o.drop_last()),
            o.last().1 as int,
            bits(g[o.last().1 as int]),
            len,
        );
    }
}

/// Some entry of the order names vertex `v`.
spec fn occurs(o: Seq<(u32, usize)>, v: int) -> bool {
    exists|t: int| 0 <= t < o.len() && (#[trigger] o[t]).1 == v
}

/// The members of `w` that the order processes.
spec fn mask_of(w: Seq<bool>, o: Seq<(u32, usize)>) -> Seq<bool> {
    Seq::new(w.len(), |v: int| w[v] && occurs(o, v))
}

/// Running the greedy coloring fills at least one class per processed
/// member of `w`, when `w` is pairwise covered by its members' rows.
proof fn lemma_full_run(cs: Seq<Seq<bool>>, g: Seq<BitSet>, o: Seq<(u32, usize)>, w: Seq<bool>)
    requires
        w.len() == g.len(),
        forall|j: int| 0 <= j < cs.len() ==> (#[trigger] cs[j]).len() == w.len(),
        forall|t: int| 0 <= t < o.len() ==> (#[trigger] o[t]).1 < g.len(),
        forall|t: int| 0 <= t < o.len() ==> bits(g[(#[trigger] o[t]).1 as int]).len() == w.len(),
        forall|t: int|
            0 <= t < o.len() && w[(#[trigger] o[t]).1 as int] ==> (forall|u: int|
                0 <= u < w.len() && #[trigger] w[u] ==> bits(g[o[t].1 as int])[u]),
    ensures
        full_count(color_run(cs, g, o), w) >= full_count(cs, w) + count_true(mask_of(w, o)),
    decreases o.len(),
{
    if o.len() == 0 {
        assert(mask_of(w, o) =~= Seq::new(w.len(), |v: int| false));
        lemma_count_false(w.len());
    } else {
        let o0 = o.drop_last();
        let e = o.last();
        assert forall|t: int| 0 <= t < o0.len() implies (#[trigger] o0[t]).1 < g.len() && bits(
            g[o0[t].1 as int],
        ).len() == w.len() && (w[o0[t].1 as int] ==> (forall|u: int|
            0 <= u < w.len() && #[trigger] w[u] ==> bits(g[o0[t].1 as int])[u])) by {
            assert(o0[t] == o[t]);
        }
        lemma_full_run(cs, g, o0, w);
        let r0 = color_run(cs, g, o0);
        lemma_run_class_lens(cs, g, o0, w.len());
        let a = bits(g[e.1 as int]);
        let m0 = mask_of(w, o0);
        let m1 = mask_of(w, o);
        assert(e == o[o.len() - 1]);
        assert forall|v: int| occurs(o, v) == (occurs(o0, v) || e.1 == v) by {
            if occurs(o, v) {
                let t = choose|t: int| 0 <= t < o.len() && (#[trigger] o[t]).1 == v;
                if t < o0.len() {
                    assert(o0[t].1 == v);
                    assert(occurs(o0, v));
                }
            }
            if occurs(o0, v) {
                let t = choose|t: int| 0 <= t < o0.len() && (#[trigger] o0[t]).1 == v;
                assert(o[t].1 == v);
                assert(occurs(o, v));
            }
            if e.1 == v {
                assert(o[o.len() - 1].1 == v);
                assert(occurs(o, v));
            }
        }
        if w[e.1 as int] {
            lemma_full_step_member(r0, e.1 as int, a, w);
            assert(m1 =~= m0.update(e.1 as int, true));
            lemma_count_update(m0, e.1 as int, true);
        } else {
            lemma_full_step_mono(r0, e.1 as int, a, w);
            assert(m1 =~= m0);
        }
    }
}

/// A set that contains another splits its count: the members of the larger
/// set are those of the smaller plus those outside it.
proof fn lemma_count_partition(c: Seq<bool>, t: Seq<bool>)
    requires
        c.len() == t.len(),
        forall|i: int| 0 <= i < t.len() && #[trigger] t[i] ==> c[i],
    ensures
        count_true(c) == count_true(t) + count_true(and_bits(c, not_bits(t))),
    decreases c.len(),
{
    if c.len() > 0 {
        lemma_count_partition(c.drop_last(), t.drop_last());
        assert(and_bits(c, not_bits(t)).drop_last() =~= and_bits(c.drop_last(), not_bits(
            t.drop_last(),
        )));
        assert(and_bits(c, not_bits(t)).last() == (c.last() && !t.last()));
    }
}

proof fn lemma_class_seed_len(g: Seq<BitSet>, took: Seq<bool>, m: int)
    ensures
        class_seed(g, took, m).len() == g.len(),
    decreases m,
{
    if m > 0 {
        lemma_class_seed_len(g, took, m - 1);
    }
}

proof fn lemma_insert_ord_occurs(s: Seq<(u32, usize)>, x: (u32, usize), desc: bool, v: int)
    requires
        occurs(s, v) || x.1 == v,
    ensures
        occurs(insert_ord(s, x, desc), v),
    decreases s.len(),
{
    if s.len() == 0 {
        assert(insert_ord(s, x, desc)[0].1 == v);
    } else if pair_before(x, s.last(), desc) {
        let r0 = insert_ord(s.drop_last(), x, desc);
        let r = insert_ord(s, x, desc);
        if occurs(s, v) {
            let t = choose|t: int| 0 <= t < s.len() && (#[trigger] s[t]).1 == v;
            if t < s.len() - 1 {
                assert(s.drop_last()[t].1 == v);
                lemma_insert_ord_occurs(s.drop_last(), x, desc, v);
                let t2 = choose|t2: int| 0 <= t2 < r0.len() && (#[trigger] r0[t2]).1 == v;
                assert(r[t2].1 == v);
            } else {
                assert(r[r.len() - 1].1 == v);
            }
        } else {
            lemma_insert_ord_occurs(s.drop_last(), x, desc, v);
            let t2 = choose|t2: int| 0 <= t2 < r0.len() && (#[trigger] r0[t2]).1 == v;
            assert(r[t2].1 == v);
        }
    } else {
        let r = insert_ord(s, x, desc);
        if occurs(s, v) {
            let t = choose|t: int| 0 <= t < s.len() && (#[trigger] s[t]).1 == v;
            assert(r[t].1 == v);
        } else {
            assert(r[r.len() - 1].1 == v);
        }
    }
}

proof fn lemma_sort_ord_occurs(s: Seq<(u32, usize)>, desc: bool, v: int)
    requires
        occurs(s, v),
    ensures
        occurs(sort_ord(s, desc), v),
    decreases s.len(),
{
    let t = choose|t: int| 0 <= t < s.len() && (#[trigger] s[t]).1 == v;
    if t < s.len() - 1 {
        assert(s.drop_last()[t].1 == v);
        lemma_sort_ord_occurs(s.drop_last(), desc, v);
        lemma_insert_ord_occurs(sort_ord(s.drop_last(), desc), s.last(), desc, v);
    } else {
        lemma_insert_ord_occurs(sort_ord(s.drop_last(), desc), s.last(), desc, v);
    }
}

proof fn lemma_nonzero_list_occurs(deg: Seq<u32>, m: int, v: int)
    requires
        0 <= v < m <= deg.len(),
        m <= usize::MAX,
        deg[v] != 0,
    ensures
        occurs(nonzero_list(deg, m), v),
    decreases m,
{
    let r = nonzero_list(deg, m);
    if v == m - 1 {
        assert(r[r.len() - 1].1 == v);
    } else {
        lemma_nonzero_list_occurs(deg, m - 1, v);
        let r0 = nonzero_list(deg, m - 1);
        let t = choose|t: int| 0 <= t < r0.len() && (#[trigger] r0[t]).1 == v;
        assert(r[t].1 == v);
    }
}

/// Soundness of the coloring bound: every clique of the graph that extends
/// the committed set and draws its undecided members from the candidates is
/// no larger than the state's upper bound.  Members of one greedy class
/// are pairwise non-adjacent — each placement forbids all neighbors of the
/// placed vertex — so a clique fills at most one slot per class.
pub proof fn lemma_clique_ub_sound(s: MaxCliqueState, g: &Vec<BitSet>, c: Seq<bool>)
    requires
        s.wf(g),
        graph_ok(g@),
        c.len() == g@.len(),
        is_clique(c, g@),
        forall|i: int| 0 <= i < g@.len() && bits(s.took)[i] ==> c[i],
        forall|i: int| 0 <= i < g@.len() && c[i] && !bits(s.took)[i] ==> bits(s.k)[i],
    ensures
        count_true(c) <= s.clique_ub(g),
{
    let n = g@.len() as int;
    let w = and_bits(c, not_bits(bits(s.took)));
    lemma_count_partition(c, bits(s.took));
    assert forall|v: int| 0 <= v < n && #[trigger] w[v] implies bits(s.k)[v] && s.deg@[v] != 0 by {
        assert(c[v] && !bits(s.took)[v]);
        assert(bits(s.k)[v]);
        assert(and_bits(bits(s.k), bits(g@[v]))[v]);
        lemma_count_pos(and_bits(bits(s.k), bits(g@[v])), v);
        assert(count_true(and_bits(bits(s.k), bits(g@[v]))) <= s.deg@[v]);
    }
    let v0 = nonzero_list(s.deg@, n);
    let o1 = sort_ord(v0, true);
    let o2 = sort_ord(o1, false);
    lemma_nonzero_list_props(s.deg@, n, bits(s.k));
    lemma_sort_ord_elems(v0, true);
    lemma_sort_ord_elems(o1, false);
    assert forall|t: int| 0 <= t < o1.len() implies (#[trigger] o1[t]).1 < n by {
        let j = choose|j: int| 0 <= j < v0.len() && o1[t] == v0[j];
    }
    assert forall|t: int| 0 <= t < o2.len() implies (#[trigger] o2[t]).1 < n by {
        let j = choose|j: int| 0 <= j < o1.len() && o2[t] == o1[j];
    }
    assert forall|t: int|
        0 <= t < o1.len() && w[(#[trigger] o1[t]).1 as int] implies (forall|u: int|
        0 <= u < w.len() && #[trigger] w[u] ==> bits(g@[o1[t].1 as int])[u]) by {
        assert forall|u: int| 0 <= u < w.len() && #[trigger] w[u] implies bits(
            g@[o1[t].1 as int],
        )[u] by {
            assert(c[o1[t].1 as int] && c[u]);
        }
    }
    assert forall|t: int|
        0 <= t < o2.len() && w[(#[trigger] o2[t]).1 as int] implies (forall|u: int|
        0 <= u < w.len() && #[trigger] w[u] ==> bits(g@[o2[t].1 as int])[u]) by {
        assert forall|u: int| 0 <= u < w.len() && #[trigger] w[u] implies bits(
            g@[o2[t].1 as int],
        )[u] by {
            assert(c[o2[t].1 as int] && c[u]);
        }
    }
    assert forall|v: int| 0 <= v < n && #[trigger] w[v] implies occurs(o1, v) && occurs(o2, v) by {
        lemma_nonzero_list_occurs(s.deg@, n, v);
        lemma_sort_ord_occurs(v0, true, v);
        lemma_sort_ord_occurs(o1, false, v);
    }
    let init = seq![class_seed(g@, bits(s.took), n)];
    lemma_class_seed_len(g@, bits(s.took), n);
    lemma_full_run(init, g@, o1, w);
    lemma_full_run(init, g@, o2, w);
    lemma_full_le_len(color_run(init, g@, o1), w);
    lemma_full_le_len(color_run(init, g@, o2), w);
    assert(mask_of(w, o1) =~= w);
    assert(mask_of(w, o2) =~= w);
}

proof fn lemma_nonzero_list_empty(deg: Seq<u32>, m: int)
    requires
        0 <= m <= deg.len(),
        forall|i: int| 0 <= i < m ==> #[trigger] deg[i] == 0,
    ensures
        nonzero_list(deg, m).len() == 0,
    decreases m,
{
    if m > 0 {
        lemma_nonzero_list_empty(deg, m - 1);
    }
}

/// At a leaf (every cached degree zero) the candidate set is empty, and
/// the two bounds close to within the seed class: the lower bound is the
/// committed size and the upper bound exceeds it by exactly one, the one
/// being the seed class that the greedy coloring always counts.
pub proof fn lemma_leaf_bounds(s: MaxCliqueState, g: &Vec<BitSet>)
    requires
        s.wf(g),
        graph_ok(g@),
        s.is_leaf(g),
    ensures
        count_true(bits(s.k)) == 0,
        s.clique_ub(g) == s.siz + 1,
{
    let n = g@.len() as int;
    assert forall|i: int| 0 <= i < n implies !bits(s.k)[i] by {
        if bits(s.k)[i] {
            assert(s.deg@[i] == 0);
            assert(count_true(and_bits(bits(s.k), bits(g@[i]))) <= s.deg@[i]);
            assert(and_bits(bits(s.k), bits(g@[i]))[i]);
            lemma_count_pos(and_bits(bits(s.k), bits(g@[i])), i);
        }
    }
    lemma_count_mono(bits(s.k), Seq::new(n as nat, |i: int| false));
    lemma_count_false(n as nat);
    lemma_nonzero_list_empty(s.deg@, n);
    assert(nonzero_list(s.deg@, n) =~= Seq::<(u32, usize)>::empty());
    assert(sort_ord(nonzero_list(s.deg@, n), true) =~= Seq::<(u32, usize)>::empty());
    assert(sort_ord(Seq::<(u32, usize)>::empty(), false) =~= Seq::<(u32, usize)>::empty());
}

/// Bound validity for the maximum-clique state: the lower bound is the
/// committed size, it never exceeds the vertex count, and it is strictly
/// below the upper bound.  The upper bound itself stays within the vertex
/// count plus one: the seed class is counted even when no candidate can
/// join it, so on a state whose committed set dominates every candidate
/// the bound can exceed the vertex count by exactly one.
pub proof fn lemma_clique_bounds(s: MaxCliqueState, g: &Vec<BitSet>)
    requires
        s.wf(g),
        graph_ok(g@),
    ensures
        s.lb_spec(g).le_spec(s.ub_spec(g)),
        s.lb_spec(g) as int == s.siz,
        s.siz <= g@.len(),
        s.siz < s.clique_ub(g),
        s.clique_ub(g) <= g@.len() + 1,
        s.ub_spec(g) as int == s.clique_ub(g),
{
    let n = g@.len() as int;
    lemma_nonzero_list_props(s.deg@, n, bits(s.k));
    assert(bits(s.k).subrange(0, n) =~= bits(s.k));
    lemma_count_le_len(bits(s.k));
    lemma_count_le_len(bits(s.took));
    lemma_count_disjoint(bits(s.k), bits(s.took));
    let v0 = nonzero_list(s.deg@, n);
    let o1 = sort_ord(v0, true);
    let o2 = sort_ord(o1, false);
    lemma_sort_ord_elems(v0, true);
    lemma_sort_ord_elems(o1, false);
    let init = seq![class_seed(g@, bits(s.took), n)];
    lemma_color_run_len(init, g@, o1);
    lemma_color_run_len(init, g@, o2);
}

} // verus!

