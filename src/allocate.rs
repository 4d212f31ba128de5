//! Allocation of a byte budget among the components of a slug: the leading
//! component first, then the tags, cheapest first.

use vstd::prelude::*;
use crate::components::{cost, views, SlugComponent};
use crate::text::{
    byte_len, bytes_len, char_width, chars_of, fit_prefix, lemma_bytes_len_append, lemma_bytes_len_single,
    lemma_fit_prefix_fits, push_char, push_fitting, width,
};

verus! {

/// `ord` with index `i` inserted after every index of no greater cost.
pub open spec fn insert_by_cost(ord: Seq<int>, i: int, costs: Seq<nat>) -> Seq<int>
    decreases ord.len(),
{
    if ord.len() == 0 {
        seq![i]
    } else if costs[ord.last()] > costs[i] {
        insert_by_cost(ord.drop_last(), i, costs).push(ord.last())
    } else {
        ord.push(i)
    }
}

/// The first `n` indices in the order in which tags are considered: by
/// ascending cost, equal costs in their original order.
pub open spec fn order_of(costs: Seq<nat>, n: nat) -> Seq<int>
    decreases n,
{
    if n == 0 {
        seq![]
    } else {
        insert_by_cost(order_of(costs, (n - 1) as nat), n - 1, costs)
    }
}

/// The order in which the tags with these costs are considered.
pub open spec fn priority_order(costs: Seq<nat>) -> Seq<int> {
    order_of(costs, costs.len())
}

/// The costs of the components.
pub open spec fn costs_of(comps: Seq<(char, Seq<char>)>) -> Seq<nat> {
    comps.map_values(|c: (char, Seq<char>)| cost(c))
}

/// A component cut down to `budget` bytes: its delimiter, then as many whole
/// characters of its tag as fit.
pub open spec fn partial_text(c: (char, Seq<char>), budget: nat) -> Seq<char> {
    seq![c.0] + fit_prefix(c.1, (budget - width(c.0)) as nat)
}

/// The text that each tag contributes, by position, after considering the
/// tags at `ord` in turn with `budget` bytes left, the normalized tags in
/// `seen` already emitted, and `slots` filled so far.
///
/// A tag whose normalized form `keys[i]` is ignored or already emitted is
/// skipped. The scan stops when no byte is left, or after the first tag
/// that does not fit whole, which is cut down to the bytes left.
pub open spec fn allot(
    comps: Seq<(char, Seq<char>)>,
    keys: Seq<Seq<char>>,
    ignored: Seq<Seq<char>>,
    ord: Seq<int>,
    budget: nat,
    seen: Seq<Seq<char>>,
    slots: Seq<Seq<char>>,
) -> Seq<Seq<char>>
    decreases ord.len(),
{
    if ord.len() == 0 {
        slots
    } else {
        let i = ord[0];
        let c = comps[i];
        let key = keys[i];
        if ignored.contains(key) || seen.contains(key) {
            allot(comps, keys, ignored, ord.drop_first(), budget, seen, slots)
        } else if budget == 0 {
            slots
        } else if budget < cost(c) {
            if budget < width(c.0) {
                slots
            } else {
                slots.update(i, partial_text(c, budget))
            }
        } else {
            allot(
                comps,
                keys,
                ignored,
                ord.drop_first(),
                (budget - cost(c)) as nat,
                seen.push(key),
                slots.update(i, seq![c.0] + c.1),
            )
        }
    }
}

/// `n` empty texts.
pub open spec fn empty_slots(n: nat) -> Seq<Seq<char>> {
    Seq::new(n, |i: int| Seq::<char>::empty())
}

/// The texts of the tags, by position, for a budget of `budget` bytes.
pub open spec fn tag_slots(
    comps: Seq<(char, Seq<char>)>,
    keys: Seq<Seq<char>>,
    ignored: Seq<Seq<char>>,
    budget: nat,
) -> Seq<Seq<char>> {
    allot(
        comps,
        keys,
        ignored,
        priority_order(costs_of(comps)),
        budget,
        seq![],
        empty_slots(comps.len()),
    )
}

/// The texts joined in order.
pub open spec fn concat(s: Seq<Seq<char>>) -> Seq<char>
    decreases s.len(),
{
    if s.len() == 0 {
        seq![]
    } else {
        concat(s.drop_last()) + s.last()
    }
}

/// The slug that fits in `budget` bytes: a prefix of the leading component
/// where that alone does not fit, else the leading component followed by
/// the texts of the tags in their original order.
pub open spec fn allocated_slug(
    first: Seq<char>,
    comps: Seq<(char, Seq<char>)>,
    keys: Seq<Seq<char>>,
    ignored: Seq<Seq<char>>,
    budget: nat,
) -> Seq<char> {
    if bytes_len(first) > budget {
        fit_prefix(first, budget)
    } else {
        first + concat(tag_slots(comps, keys, ignored, (budget - bytes_len(first)) as nat))
    }
}

/// Tag `a` is considered before tag `b`: it costs less, or as much and
/// comes earlier.
pub open spec fn considered_before(costs: Seq<nat>, a: int, b: int) -> bool {
    costs[a] < costs[b] || (costs[a] == costs[b] && a < b)
}

/// Every index in `ord` is considered before every later one.
pub open spec fn is_sorted(ord: Seq<int>, costs: Seq<nat>) -> bool {
    forall|p: int, q: int| 0 <= p < q < ord.len() ==> considered_before(costs, #[trigger] ord[p], #[trigger] ord[q])
}

proof fn lemma_insert_props(ord: Seq<int>, i: int, costs: Seq<nat>)
    requires
        0 <= i < costs.len(),
        is_sorted(ord, costs),
        forall|j: int| 0 <= j < ord.len() ==> 0 <= #[trigger] ord[j] < i,
    ensures
        insert_by_cost(ord, i, costs).len() == ord.len() + 1,
        is_sorted(insert_by_cost(ord, i, costs), costs),
        forall|j: int|
            0 <= j < ord.len() + 1 ==> 0 <= #[trigger] insert_by_cost(ord, i, costs)[j] <= i,
        insert_by_cost(ord, i, costs).contains(i),
        forall|x: int| ord.contains(x) ==> insert_by_cost(ord, i, costs).contains(x),
    decreases ord.len(),
{
    let r = insert_by_cost(ord, i, costs);
    if ord.len() == 0 {
        assert(r[0] == i);
    } else if costs[ord.last()] > costs[i] {
        let t = ord.drop_last();
        let l = ord.last();
        lemma_insert_props(t, i, costs);
        let a = insert_by_cost(t, i, costs);
        assert(r == a.push(l));
        assert forall|p: int, q: int| 0 <= p < q < r.len() implies considered_before(
            costs,
            #[trigger] r[p],
            #[trigger] r[q],
        ) by {
            if q == r.len() - 1 {
                assert(r[q] == l);
                assert(a.contains(r[p]));
                if r[p] != i {
                    assert(t.contains(r[p]) || r[p] == i) by {
                        let w = choose|w: int| 0 <= w < a.len() && a[w] == r[p];
                        lemma_insert_member(t, i, costs, w);
                    }
                    let w = choose|w: int| 0 <= w < t.len() && t[w] == r[p];
                    assert(ord[w] == t[w]);
                    assert(ord[ord.len() - 1] == l);
                }
            } else {
                assert(r[p] == a[p] && r[q] == a[q]);
            }
        }
        assert(r[a.len() as int] == l);
        assert(a.contains(i));
        let wi = choose|w: int| 0 <= w < a.len() && a[w] == i;
        assert(r[wi] == i);
        assert forall|x: int| ord.contains(x) implies r.contains(x) by {
            let w = choose|w: int| 0 <= w < ord.len() && ord[w] == x;
            if w == ord.len() - 1 {
                assert(r[a.len() as int] == x);
            } else {
                assert(t[w] == x);
                assert(t.contains(x));
                let v = choose|v: int| 0 <= v < a.len() && a[v] == x;
                assert(r[v] == x);
            }
        }
        assert forall|j: int| 0 <= j < ord.len() + 1 implies 0 <= #[trigger] r[j] <= i by {
            if j < a.len() {
                assert(r[j] == a[j]);
            }
        }
    } else {
        assert(r == ord.push(i));
        assert(r[ord.len() as int] == i);
        assert forall|x: int| ord.contains(x) implies r.contains(x) by {
            let w = choose|w: int| 0 <= w < ord.len() && ord[w] == x;
            assert(r[w] == x);
        }
        assert forall|p: int, q: int| 0 <= p < q < r.len() implies considered_before(
            costs,
            #[trigger] r[p],
            #[trigger] r[q],
        ) by {
            if q == r.len() - 1 {
                let l = ord.len() - 1;
                if p < l {
                    assert(considered_before(costs, ord[p], ord[l]));
                }
            }
        }
    }
}

proof fn lemma_insert_member(ord: Seq<int>, i: int, costs: Seq<nat>, w: int)
    requires
        0 <= w < insert_by_cost(ord, i, costs).len(),
    ensures
        insert_by_cost(ord, i, costs)[w] == i || ord.contains(insert_by_cost(ord, i, costs)[w]),
    decreases ord.len(),
{
    let r = insert_by_cost(ord, i, costs);
    if ord.len() == 0 {
    } else if costs[ord.last()] > costs[i] {
        let t = ord.drop_last();
        let a = insert_by_cost(t, i, costs);
        if w < a.len() {
            lemma_insert_member(t, i, costs, w);
            if r[w] != i {
                let v = choose|v: int| 0 <= v < t.len() && t[v] == r[w];
                assert(ord[v] == r[w]);
            }
        } else {
            assert(ord[ord.len() - 1] == r[w]);
        }
    } else {
        if w < ord.len() {
            assert(ord[w] == r[w]);
        }
    }
}

/// The order in which tags are considered lists each index below `n` once,
/// cheapest first, equal costs in their original order.
pub proof fn lemma_order_props(costs: Seq<nat>, n: nat)
    requires
        n <= costs.len(),
    ensures
        order_of(costs, n).len() == n,
        is_sorted(order_of(costs, n), costs),
        forall|j: int| 0 <= j < n ==> 0 <= #[trigger] order_of(costs, n)[j] < n,
        forall|x: int| 0 <= x < n ==> order_of(costs, n).contains(x),
    decreases n,
{
    if n > 0 {
        let m = (n - 1) as nat;
        lemma_order_props(costs, m);
        let o = order_of(costs, m);
        lemma_insert_props(o, m as int, costs);
        assert forall|x: int| 0 <= x < n implies order_of(costs, n).contains(x) by {
            if x < m {
                assert(o.contains(x));
            }
        }
    }
}

proof fn lemma_concat_update(s: Seq<Seq<char>>, i: int, x: Seq<char>)
    requires
        0 <= i < s.len(),
    ensures
        bytes_len(concat(s.update(i, x))) + bytes_len(s[i]) == bytes_len(concat(s)) + bytes_len(x),
    decreases s.len(),
{
    let u = s.update(i, x);
    lemma_bytes_len_append(concat(u.drop_last()), u.last());
    lemma_bytes_len_append(concat(s.drop_last()), s.last());
    if i == s.len() - 1 {
        assert(u.drop_last() =~= s.drop_last());
    } else {
        assert(u.drop_last() =~= s.drop_last().update(i, x));
        lemma_concat_update(s.drop_last(), i, x);
    }
}

pub proof fn lemma_concat_empty(n: nat)
    ensures
        bytes_len(concat(empty_slots(n))) == 0,
    decreases n,
{
    if n > 0 {
        assert(empty_slots(n).drop_last() =~= empty_slots((n - 1) as nat));
        lemma_concat_empty((n - 1) as nat);
        lemma_bytes_len_append(concat(empty_slots((n - 1) as nat)), Seq::<char>::empty());
    }
}

/// Well-formed arguments of `allot`: one key and one text per component, and
/// only positions of components in the order.
pub open spec fn allot_args(
    comps: Seq<(char, Seq<char>)>,
    keys: Seq<Seq<char>>,
    ord: Seq<int>,
    slots: Seq<Seq<char>>,
) -> bool {
    &&& keys.len() == comps.len()
    &&& slots.len() == comps.len()
    &&& forall|j: int| 0 <= j < ord.len() ==> 0 <= #[trigger] ord[j] < comps.len()
}

proof fn lemma_allot_args_tail(
    comps: Seq<(char, Seq<char>)>,
    keys: Seq<Seq<char>>,
    ord: Seq<int>,
    slots: Seq<Seq<char>>,
    slots2: Seq<Seq<char>>,
)
    requires
        ord.len() > 0,
        allot_args(comps, keys, ord, slots),
        slots2.len() == slots.len(),
    ensures
        allot_args(comps, keys, ord.drop_first(), slots2),
{
    assert forall|j: int| 0 <= j < ord.drop_first().len() implies 0 <= #[trigger] ord.drop_first()[j]
        < comps.len() by {
        assert(ord.drop_first()[j] == ord[j + 1]);
    }
}

/// The texts that `allot` adds take no more bytes than the budget.
pub proof fn lemma_allot_budget(
    comps: Seq<(char, Seq<char>)>,
    keys: Seq<Seq<char>>,
    ignored: Seq<Seq<char>>,
    ord: Seq<int>,
    budget: nat,
    seen: Seq<Seq<char>>,
    slots: Seq<Seq<char>>,
)
    requires
        allot_args(comps, keys, ord, slots),
    ensures
        bytes_len(concat(allot(comps, keys, ignored, ord, budget, seen, slots))) <= bytes_len(
            concat(slots),
        ) + budget,
    decreases ord.len(),
{
    if ord.len() > 0 {
        let i = ord[0];
        let c = comps[i];
        let key = keys[i];
        if ignored.contains(key) || seen.contains(key) {
            lemma_allot_args_tail(comps, keys, ord, slots, slots);
            lemma_allot_budget(comps, keys, ignored, ord.drop_first(), budget, seen, slots);
        } else if budget == 0 {
        } else if budget < cost(c) {
            if budget >= width(c.0) {
                let x = partial_text(c, budget);
                lemma_concat_update(slots, i, x);
                lemma_bytes_len_single(c.0);
                lemma_bytes_len_append(seq![c.0], fit_prefix(c.1, (budget - width(c.0)) as nat));
                lemma_fit_prefix_fits(c.1, (budget - width(c.0)) as nat);
            }
        } else {
            let x = seq![c.0] + c.1;
            let s2 = slots.update(i, x);
            lemma_concat_update(slots, i, x);
            lemma_bytes_len_single(c.0);
            lemma_bytes_len_append(seq![c.0], c.1);
            lemma_allot_args_tail(comps, keys, ord, slots, s2);
            lemma_allot_budget(
                comps,
                keys,
                ignored,
                ord.drop_first(),
                (budget - cost(c)) as nat,
                seen.push(key),
                s2,
            );
        }
    }
}

/// A tag whose normalized form is ignored or already emitted keeps its text.
pub proof fn lemma_allot_skips(
    comps: Seq<(char, Seq<char>)>,
    keys: Seq<Seq<char>>,
    ignored: Seq<Seq<char>>,
    ord: Seq<int>,
    budget: nat,
    seen: Seq<Seq<char>>,
    slots: Seq<Seq<char>>,
    x: int,
)
    requires
        allot_args(comps, keys, ord, slots),
        0 <= x < comps.len(),
        ignored.contains(keys[x]) || seen.contains(keys[x]),
    ensures
        allot(comps, keys, ignored, ord, budget, seen, slots)[x] == slots[x],
    decreases ord.len(),
{
    if ord.len() > 0 {
        let i = ord[0];
        let c = comps[i];
        let key = keys[i];
        if ignored.contains(key) || seen.contains(key) {
            lemma_allot_args_tail(comps, keys, ord, slots, slots);
            lemma_allot_skips(comps, keys, ignored, ord.drop_first(), budget, seen, slots, x);
        } else if budget == 0 {
        } else if budget < cost(c) {
        } else {
            let s2 = slots.update(i, seq![c.0] + c.1);
            assert(ignored.contains(keys[x]) || seen.push(key).contains(keys[x])) by {
                if seen.contains(keys[x]) {
                    let w = choose|w: int| 0 <= w < seen.len() && seen[w] == keys[x];
                    assert(seen.push(key)[w] == keys[x]);
                }
            }
            lemma_allot_args_tail(comps, keys, ord, slots, s2);
            lemma_allot_skips(
                comps,
                keys,
                ignored,
                ord.drop_first(),
                (budget - cost(c)) as nat,
                seen.push(key),
                s2,
                x,
            );
        }
    }
}

/// Of two tags with the same normalized form, the one considered later keeps
/// its text.
pub proof fn lemma_allot_duplicate(
    comps: Seq<(char, Seq<char>)>,
    keys: Seq<Seq<char>>,
    ignored: Seq<Seq<char>>,
    ord: Seq<int>,
    budget: nat,
    seen: Seq<Seq<char>>,
    slots: Seq<Seq<char>>,
    a: int,
    b: int,
)
    requires
        allot_args(comps, keys, ord, slots),
        0 <= a < b < ord.len(),
        forall|p: int, q: int| 0 <= p < q < ord.len() ==> #[trigger] ord[p] != #[trigger] ord[q],
        keys[ord[a]] == keys[ord[b]],
    ensures
        allot(comps, keys, ignored, ord, budget, seen, slots)[ord[b]] == slots[ord[b]],
    decreases ord.len(),
{
    let i = ord[0];
    let j = ord[b];
    let c = comps[i];
    let key = keys[i];
    let t = ord.drop_first();
    assert(t[b - 1] == j);
    assert forall|p: int, q: int| 0 <= p < q < t.len() implies #[trigger] t[p] != #[trigger] t[q] by {
        assert(t[p] == ord[p + 1] && t[q] == ord[q + 1]);
    }
    if a == 0 {
        if ignored.contains(key) || seen.contains(key) {
            lemma_allot_args_tail(comps, keys, ord, slots, slots);
            lemma_allot_skips(comps, keys, ignored, t, budget, seen, slots, j);
        } else if budget == 0 {
        } else if budget < cost(c) {
        } else {
            let s2 = slots.update(i, seq![c.0] + c.1);
            assert(seen.push(key)[seen.len() as int] == keys[j]);
            lemma_allot_args_tail(comps, keys, ord, slots, s2);
            lemma_allot_skips(
                comps,
                keys,
                ignored,
                t,
                (budget - cost(c)) as nat,
                seen.push(key),
                s2,
                j,
            );
        }
    } else {
        assert(t[a - 1] == ord[a]);
        if ignored.contains(key) || seen.contains(key) {
            lemma_allot_args_tail(comps, keys, ord, slots, slots);
            lemma_allot_duplicate(comps, keys, ignored, t, budget, seen, slots, a - 1, b - 1);
        } else if budget == 0 {
        } else if budget < cost(c) {
        } else {
            let s2 = slots.update(i, seq![c.0] + c.1);
            lemma_allot_args_tail(comps, keys, ord, slots, s2);
            lemma_allot_duplicate(
                comps,
                keys,
                ignored,
                t,
                (budget - cost(c)) as nat,
                seen.push(key),
                s2,
                a - 1,
                b - 1,
            );
        }
    }
}

/// Whether `x` is one of `v`.
pub fn contains_str(v: &Vec<String>, x: &String) -> (r: bool)
    ensures
        r == v.deep_view().contains(x@),
{
    let mut k: usize = 0;
    while k < v.len()
        invariant
            k <= v.len(),
            forall|j: int| 0 <= j < k ==> v.deep_view()[j] != x@,
        decreases v.len() - k,
    {
        if v[k] == *x {
            assert(v.deep_view()[k as int] == x@);
            return true;
        }
        k = k + 1;
    }
    false
}

/// Indices as integers.
pub open spec fn ints(v: Seq<usize>) -> Seq<int> {
    v.map_values(|x: usize| x as int)
}

/// Costs as natural numbers.
pub open spec fn nats(v: Seq<usize>) -> Seq<nat> {
    v.map_values(|x: usize| x as nat)
}

proof fn lemma_insert_shift(ord: Seq<int>, p: int, i: int, costs: Seq<nat>)
    requires
        0 < p <= ord.len(),
        costs[ord[p - 1]] > costs[i],
    ensures
        insert_by_cost(ord.subrange(0, p), i, costs) + ord.subrange(p, ord.len() as int)
            == insert_by_cost(ord.subrange(0, p - 1), i, costs) + ord.subrange(
            p - 1,
            ord.len() as int,
        ),
{
    let q = ord.subrange(0, p);
    assert(q.drop_last() =~= ord.subrange(0, p - 1));
    assert(q.last() == ord[p - 1]);
    let a = insert_by_cost(ord.subrange(0, p - 1), i, costs);
    assert(a.push(ord[p - 1]) + ord.subrange(p, ord.len() as int) =~= a + ord.subrange(
        p - 1,
        ord.len() as int,
    ));
}

proof fn lemma_insert_stop(ord: Seq<int>, p: int, i: int, costs: Seq<nat>)
    requires
        0 <= p <= ord.len(),
        p == 0 || costs[ord[p - 1]] <= costs[i],
    ensures
        insert_by_cost(ord.subrange(0, p), i, costs) == ord.subrange(0, p).push(i),
{
    let q = ord.subrange(0, p);
    if p > 0 {
        assert(q.last() == ord[p - 1]);
    }
}

/// The indices `0..costs.len()` in the order in which tags are considered.
pub fn priority_order_of(costs: &Vec<usize>) -> (ord: Vec<usize>)
    ensures
        ord.len() == costs.len(),
        ints(ord@) == priority_order(nats(costs@)),
        forall|j: int| 0 <= j < ord.len() ==> ord@[j] < costs.len(),
{
    let ghost cs = nats(costs@);
    let mut ord: Vec<usize> = Vec::new();
    let mut i: usize = 0;
    while i < costs.len()
        invariant
            i <= costs.len(),
            cs == nats(costs@),
            ints(ord@) == order_of(cs, i as nat),
            ord.len() == i,
            forall|j: int| 0 <= j < ord.len() ==> ord@[j] < i,
        decreases costs.len() - i,
    {
        let ghost o = ints(ord@);
        let mut p: usize = ord.len();
        assert(o.subrange(0, p as int) =~= o);
        assert(o.subrange(p as int, o.len() as int) =~= Seq::<int>::empty());
        while p > 0 && costs[ord[p - 1]] > costs[i]
            invariant
                p <= ord.len(),
                i < costs.len(),
                o == ints(ord@),
                cs == nats(costs@),
                forall|j: int| 0 <= j < ord.len() ==> ord@[j] < i,
                insert_by_cost(o, i as int, cs) == insert_by_cost(o.subrange(0, p as int), i as int, cs)
                    + o.subrange(p as int, o.len() as int),
            decreases p,
        {
            proof {
                lemma_insert_shift(o, p as int, i as int, cs);
            }
            p = p - 1;
        }
        proof {
            lemma_insert_stop(o, p as int, i as int, cs);
        }
        ord.insert(p, i);
        assert(ints(ord@) =~= o.subrange(0, p as int).push(i as int) + o.subrange(
            p as int,
            o.len() as int,
        ));
        i = i + 1;
    }
    ord
}

proof fn lemma_allot_step(ord: Seq<int>, k: int)
    requires
        0 <= k < ord.len(),
    ensures
        ord.subrange(k, ord.len() as int).drop_first() == ord.subrange(k + 1, ord.len() as int),
        ord.subrange(k, ord.len() as int)[0] == ord[k],
{
    assert(ord.subrange(k, ord.len() as int).drop_first() =~= ord.subrange(k + 1, ord.len() as int));
}

/// Computes the slug that fits in `budget` bytes from the leading component
/// `first`, the components that follow it, and the normalized form of each
/// component's tag (`keys`, by position).
pub fn allocate_slug(
    first: &str,
    comps: &Vec<SlugComponent>,
    keys: &Vec<String>,
    ignored_tags: &Vec<String>,
    budget: usize,
) -> (r: String)
    requires
        comps.len() == keys.len(),
        forall|i: int| 0 <= i < comps.len() ==> bytes_len(#[trigger] comps@[i].tag@) + 4 <= usize::MAX,
    ensures
        r@ == allocated_slug(
            first@,
            views(comps@),
            keys.deep_view(),
            ignored_tags.deep_view(),
            budget as nat,
        ),
{
    let ghost cv = views(comps@);
    let ghost kv = keys.deep_view();
    let ghost iv = ignored_tags.deep_view();
    let mut out = String::new();
    let flen = byte_len(first);
    if flen > budget {
        let fc = chars_of(first);
        push_fitting(&mut out, &fc, budget);
        assert(out@ =~= fit_prefix(first@, budget as nat));
        return out;
    }
    out.append(first);
    let n = comps.len();
    assert(cv.len() == n);
    assert(costs_of(cv).len() == n);
    let mut costs: Vec<usize> = Vec::new();
    let mut i: usize = 0;
    while i < n
        invariant
            i <= n,
            n == comps.len(),
            cv == views(comps@),
            cv.len() == n,
            costs_of(cv).len() == n,
            forall|j: int| 0 <= j < comps.len() ==> bytes_len(#[trigger] comps@[j].tag@) + 4 <= usize::MAX,
            nats(costs@) == costs_of(cv).subrange(0, i as int),
        decreases n - i,
    {
        let c = comps[i].n_bytes();
        assert(cv[i as int] == comps@[i as int]@);
        assert(nats(costs@.push(c)) =~= nats(costs@).push(c as nat));
        assert(costs_of(cv).subrange(0, i + 1) =~= costs_of(cv).subrange(0, i as int).push(
            cost(cv[i as int]),
        ));
        costs.push(c);
        i = i + 1;
    }
    assert(nats(costs@) =~= costs_of(cv));
    let ord = priority_order_of(&costs);
    let ghost ordi = ints(ord@);
    let mut slots: Vec<String> = Vec::new();
    let mut i: usize = 0;
    while i < n
        invariant
            i <= n,
            slots.len() == i,
            slots.deep_view() == empty_slots(i as nat),
        decreases n - i,
    {
        let e = String::new();
        assert(slots.deep_view().push(e@) =~= empty_slots((i + 1) as nat));
        slots.push(e);
        assert(slots.deep_view() =~= empty_slots((i + 1) as nat));
        i = i + 1;
    }
    let mut rest: usize = budget - flen;
    let ghost full = tag_slots(cv, kv, iv, rest as nat);
    assert(rest as nat == budget - bytes_len(first@));
    let mut seen: Vec<String> = Vec::new();
    let mut stop = false;
    let mut k: usize = 0;
    assert(ordi.subrange(0, ordi.len() as int) =~= ordi);
    assert(seen.deep_view() =~= Seq::<Seq<char>>::empty());
    while !stop && k < ord.len()
        invariant
            k <= ord.len(),
            n == comps.len(),
            n == keys.len(),
            ord.len() == costs.len(),
            costs.len() == n,
            slots.len() == n,
            cv == views(comps@),
            cv.len() == n,
            costs_of(cv).len() == n,
            kv == keys.deep_view(),
            iv == ignored_tags.deep_view(),
            ordi == ints(ord@),
            nats(costs@) == costs_of(cv),
            forall|j: int| 0 <= j < ord.len() ==> ord@[j] < n,
            !stop ==> full == allot(
                cv,
                kv,
                iv,
                ordi.subrange(k as int, ordi.len() as int),
                rest as nat,
                seen.deep_view(),
                slots.deep_view(),
            ),
            stop ==> full == slots.deep_view(),
        decreases ord.len() - k + if stop { 0int } else { 1int },
    {
        let i = ord[k];
        proof {
            lemma_allot_step(ordi, k as int);
        }
        assert(cv[i as int] == comps@[i as int]@);
        assert(kv[i as int] == keys@[i as int]@);
        assert(nats(costs@)[i as int] == costs_of(cv)[i as int]);
        assert(costs@[i as int] == cost(cv[i as int]));
        assert(ordi[k as int] == i as int);
        if contains_str(ignored_tags, &keys[i]) || contains_str(&seen, &keys[i]) {
            k = k + 1;
        } else if rest == 0 {
            stop = true;
        } else if rest < costs[i] {
            let d = comps[i].delimiter;
            let dw = char_width(d);
            if rest >= dw {
                let mut t = String::new();
                push_char(&mut t, d);
                let tc = chars_of(comps[i].tag.as_str());
                push_fitting(&mut t, &tc, rest - dw);
                assert(t@ =~= partial_text(cv[i as int], rest as nat));
                let ghost old_slots = slots.deep_view();
                slots.set(i, t);
                assert(slots.deep_view() =~= old_slots.update(i as int, partial_text(cv[i as int], rest as nat)));
            }
            stop = true;
        } else {
            let t = comps[i].to_text();
            let ghost old_slots = slots.deep_view();
            let ghost old_seen = seen.deep_view();
            slots.set(i, t);
            assert(slots.deep_view() =~= old_slots.update(i as int, seq![cv[i as int].0] + cv[i as int].1));
            seen.push(keys[i].clone());
            assert(seen.deep_view() =~= old_seen.push(kv[i as int]));
            rest = rest - costs[i];
            k = k + 1;
        }
    }
    let ghost sv = slots.deep_view();
    assert(sv == full);
    assert(ordi == priority_order(costs_of(cv)));
    assert(full == tag_slots(cv, kv, iv, (budget - bytes_len(first@)) as nat));
    let mut j: usize = 0;
    assert(sv.subrange(0, 0) =~= Seq::<Seq<char>>::empty());
    while j < n
        invariant
            j <= n,
            slots.len() == n,
            sv == slots.deep_view(),
            out@ == first@ + concat(sv.subrange(0, j as int)),
        decreases n - j,
    {
        assert(sv.subrange(0, j + 1).drop_last() =~= sv.subrange(0, j as int));
        assert(sv[j as int] == slots@[j as int]@);
        out.append(slots[j].as_str());
        j = j + 1;
    }
    assert(sv.subrange(0, n as int) =~= sv);
    out
}

} // verus!
