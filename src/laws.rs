//! Properties that hold of every candidate file name.

use vstd::prelude::*;
use vstd::utf8::{encode_utf8, encode_utf8_valid_utf8, valid_utf8};
use crate::allocate::{
    allocated_slug, concat, considered_before, costs_of, empty_slots, lemma_allot_budget,
    lemma_allot_duplicate, lemma_allot_skips, lemma_concat_empty, lemma_order_props,
    priority_order, tag_slots,
};
use crate::candidate::{
    candidate, decimal, extension, keys_of, slug_budget, suffix, N_FILENAME_BYTES,
};
use crate::candidate::{lemma_decimal_injective, lemma_last_dot_after, lemma_suffix_bytes};
use crate::components::{DELIMITER, leading, slug_components};
use crate::text::{bytes_len, fit_len, fit_prefix, lemma_bytes_len_append, lemma_fit_prefix_fits};

verus! {

/// The slug computed for a budget takes at most that many bytes.
pub proof fn allocated_slug_fits(
    first: Seq<char>,
    comps: Seq<(char, Seq<char>)>,
    keys: Seq<Seq<char>>,
    ignored: Seq<Seq<char>>,
    budget: nat,
)
    requires
        keys.len() == comps.len(),
    ensures
        bytes_len(allocated_slug(first, comps, keys, ignored, budget)) <= budget,
{
    if bytes_len(first) > budget {
        lemma_fit_prefix_fits(first, budget);
    } else {
        let rest = (budget - bytes_len(first)) as nat;
        let costs = costs_of(comps);
        lemma_order_props(costs, costs.len());
        lemma_concat_empty(comps.len());
        lemma_allot_budget(
            comps,
            keys,
            ignored,
            priority_order(costs),
            rest,
            seq![],
            empty_slots(comps.len()),
        );
        lemma_bytes_len_append(first, concat(tag_slots(comps, keys, ignored, rest)));
    }
}

/// Length bound: whatever the file name, the lookup structures and the
/// retry counter, the candidate takes at most `N_FILENAME_BYTES` bytes.
pub proof fn candidate_within_limit(
    f: Seq<char>,
    ignored: Seq<Seq<char>>,
    pairs: Seq<(Seq<char>, Seq<char>)>,
    n: usize,
)
    ensures
        bytes_len(candidate(f, ignored, pairs, n as nat)) <= N_FILENAME_BYTES,
{
    lemma_suffix_bytes(f, n);
    let slug = crate::candidate::slug_of(f);
    let comps = slug_components(slug, pairs);
    allocated_slug_fits(leading(slug), comps, keys_of(comps), ignored, slug_budget(f, n as nat));
    lemma_bytes_len_append(
        allocated_slug(leading(slug), comps, keys_of(comps), ignored, slug_budget(f, n as nat)),
        suffix(f, n as nat),
    );
}

proof fn lemma_encode_append(a: Seq<char>, b: Seq<char>)
    ensures
        encode_utf8(a + b) == encode_utf8(a) + encode_utf8(b),
    decreases a.len(),
{
    if a.len() == 0 {
        assert(a + b =~= b);
        assert(encode_utf8(a) + encode_utf8(b) =~= encode_utf8(b));
    } else {
        assert((a + b).drop_first() =~= a.drop_first() + b);
        lemma_encode_append(a.drop_first(), b);
        assert((a + b)[0] == a[0]);
        let h = vstd::utf8::encode_scalar(a[0] as u32);
        assert(h + (encode_utf8(a.drop_first()) + encode_utf8(b)) =~= (h + encode_utf8(a.drop_first()))
            + encode_utf8(b));
    }
}

/// Codepoint safety: a text cut down to a byte budget is cut between whole
/// encoded characters, and what is kept is valid UTF-8.
pub proof fn truncation_on_char_boundary(s: Seq<char>, budget: nat)
    ensures
        encode_utf8(s) == encode_utf8(fit_prefix(s, budget)) + encode_utf8(
            s.subrange(fit_len(s, budget) as int, s.len() as int),
        ),
        valid_utf8(encode_utf8(fit_prefix(s, budget))),
{
    lemma_fit_prefix_fits(s, budget);
    let k = fit_len(s, budget) as int;
    assert(s =~= s.subrange(0, k) + s.subrange(k, s.len() as int));
    lemma_encode_append(s.subrange(0, k), s.subrange(k, s.len() as int));
    encode_utf8_valid_utf8(fit_prefix(s, budget));
}

/// Codepoint safety of whole candidates: their bytes are valid UTF-8.
pub proof fn candidate_is_valid_utf8(
    f: Seq<char>,
    ignored: Seq<Seq<char>>,
    pairs: Seq<(Seq<char>, Seq<char>)>,
    n: nat,
)
    ensures
        valid_utf8(encode_utf8(candidate(f, ignored, pairs, n))),
{
    encode_utf8_valid_utf8(candidate(f, ignored, pairs, n));
}

/// Extension preservation: an extension of at most `N_MAX_EXTENSION_BYTES`
/// bytes ends every candidate, after a delimiter, with the retry counter
/// (when not zero) and a delimiter just before it.
pub proof fn extension_preserved(
    f: Seq<char>,
    ignored: Seq<Seq<char>>,
    pairs: Seq<(Seq<char>, Seq<char>)>,
    n: nat,
    e: Seq<char>,
)
    requires
        extension(f) == Some(e),
    ensures
        ({
            let c = candidate(f, ignored, pairs, n);
            let s = if n == 0 {
                seq![DELIMITER] + e
            } else {
                seq![DELIMITER] + decimal(n) + seq![DELIMITER] + e
            };
            c.len() >= s.len() && c.subrange(c.len() - s.len(), c.len() as int) == s
        }),
{
    let c = candidate(f, ignored, pairs, n);
    let s = suffix(f, n);
    let slug = crate::candidate::slug_of(f);
    let comps = slug_components(slug, pairs);
    let body = allocated_slug(leading(slug), comps, keys_of(comps), ignored, slug_budget(f, n));
    assert(c == body + s);
    assert(c.subrange(c.len() - s.len(), c.len() as int) =~= s);
    if n != 0 {
        assert(s =~= seq![DELIMITER] + decimal(n) + seq![DELIMITER] + e);
    }
}

/// Retry distinctness: candidates for two different non-zero retry
/// counters differ.
pub proof fn retry_candidates_distinct(
    f: Seq<char>,
    ignored: Seq<Seq<char>>,
    pairs: Seq<(Seq<char>, Seq<char>)>,
    n: nat,
    m: nat,
)
    requires
        1 <= n,
        1 <= m,
        n != m,
    ensures
        candidate(f, ignored, pairs, n) != candidate(f, ignored, pairs, m),
{
    let slug = crate::candidate::slug_of(f);
    let comps = slug_components(slug, pairs);
    let a = allocated_slug(leading(slug), comps, keys_of(comps), ignored, slug_budget(f, n));
    let b = allocated_slug(leading(slug), comps, keys_of(comps), ignored, slug_budget(f, m));
    let t = match extension(f) {
        Some(e) => seq![DELIMITER] + e,
        None => Seq::<char>::empty(),
    };
    let dot = seq![DELIMITER];
    let x = a + dot + decimal(n);
    let y = b + dot + decimal(m);
    assert(candidate(f, ignored, pairs, n) =~= x + t);
    assert(candidate(f, ignored, pairs, m) =~= y + t);
    if candidate(f, ignored, pairs, n) == candidate(f, ignored, pairs, m) {
        assert((x + t).subrange(0, x.len() as int) =~= x);
        assert((y + t).subrange(0, y.len() as int) =~= y);
        assert(x.len() == y.len());
        assert(x == y);
        lemma_last_dot_after(a, n);
        lemma_last_dot_after(b, m);
        assert(x.subrange(a.len() as int + 1, x.len() as int) =~= decimal(n));
        assert(y.subrange(b.len() as int + 1, y.len() as int) =~= decimal(m));
        lemma_decimal_injective(n, m);
    }
}

/// The first candidate differs from the one for retry counter `m` unless
/// it already ends the way that one does.
pub proof fn first_candidate_distinct(
    f: Seq<char>,
    ignored: Seq<Seq<char>>,
    pairs: Seq<(Seq<char>, Seq<char>)>,
    m: nat,
)
    requires
        1 <= m,
        ({
            let c = candidate(f, ignored, pairs, 0);
            let s = suffix(f, m);
            !(c.len() >= s.len() && c.subrange(c.len() - s.len(), c.len() as int) == s)
        }),
    ensures
        candidate(f, ignored, pairs, 0) != candidate(f, ignored, pairs, m),
{
    let c = candidate(f, ignored, pairs, m);
    let s = suffix(f, m);
    let slug = crate::candidate::slug_of(f);
    let comps = slug_components(slug, pairs);
    let body = allocated_slug(leading(slug), comps, keys_of(comps), ignored, slug_budget(f, m));
    assert(c == body + s);
    assert(c.subrange(c.len() - s.len(), c.len() as int) =~= s);
}

/// Ignored tag exclusion: a tag whose normalized form is ignored contributes
/// nothing to the slug.
pub proof fn ignored_tag_excluded(
    comps: Seq<(char, Seq<char>)>,
    keys: Seq<Seq<char>>,
    ignored: Seq<Seq<char>>,
    budget: nat,
    i: int,
)
    requires
        keys.len() == comps.len(),
        0 <= i < comps.len(),
        ignored.contains(keys[i]),
    ensures
        tag_slots(comps, keys, ignored, budget)[i] == Seq::<char>::empty(),
{
    let costs = costs_of(comps);
    lemma_order_props(costs, costs.len());
    lemma_allot_skips(
        comps,
        keys,
        ignored,
        priority_order(costs),
        budget,
        seq![],
        empty_slots(comps.len()),
        i,
    );
}

/// Duplicate collapse: of two tags with the same normalized form, the one
/// considered later (costlier, or as costly and later in the name)
/// contributes nothing; so at most one of them is kept.
pub proof fn duplicate_tags_collapse(
    comps: Seq<(char, Seq<char>)>,
    keys: Seq<Seq<char>>,
    ignored: Seq<Seq<char>>,
    budget: nat,
    i: int,
    j: int,
)
    requires
        keys.len() == comps.len(),
        0 <= i < comps.len(),
        0 <= j < comps.len(),
        keys[i] == keys[j],
        considered_before(costs_of(comps), i, j),
    ensures
        tag_slots(comps, keys, ignored, budget)[j] == Seq::<char>::empty(),
{
    let costs = costs_of(comps);
    let ord = priority_order(costs);
    lemma_order_props(costs, costs.len());
    assert(ord.contains(i));
    assert(ord.contains(j));
    let p = choose|p: int| 0 <= p < ord.len() && ord[p] == i;
    let q = choose|q: int| 0 <= q < ord.len() && ord[q] == j;
    if q <= p {
        if q < p {
            assert(considered_before(costs, ord[q], ord[p]));
        }
    }
    assert forall|x: int, y: int| 0 <= x < y < ord.len() implies #[trigger] ord[x] != #[trigger] ord[y] by {
        assert(considered_before(costs, ord[x], ord[y]));
    }
    lemma_allot_duplicate(comps, keys, ignored, ord, budget, seq![], empty_slots(comps.len()), p, q);
}

} // verus!
