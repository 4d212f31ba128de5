//! One candidate file name for a given retry counter: the extension is kept,
//! the counter goes before it, and the slug gets the bytes that are left.

use vstd::prelude::*;
use crate::allocate::{allocate_slug, allocated_slug};
use crate::components::{
    leading, lemma_components_bounded, push_range, slug_components, split_into_components, views,
    DELIMITER,
};
use crate::normalize::{nfd_of, normalize_str};
use crate::text::{
    byte_len, bytes_len, chars_of, lemma_ascii_bytes, lemma_bytes_len_append, lemma_bytes_len_single,
    lemma_subrange_bytes, push_char,
};

verus! {

/// The byte limit of a file name.
pub const N_FILENAME_BYTES: usize = 255;

/// The longest text after the last delimiter that still counts as an extension.
pub const N_MAX_EXTENSION_BYTES: usize = 5;

/// Index of the last delimiter in `s`, or -1 when there is none.
pub open spec fn last_dot(s: Seq<char>) -> int
    decreases s.len(),
{
    if s.len() == 0 {
        -1
    } else if s.last() == DELIMITER {
        s.len() - 1
    } else {
        last_dot(s.drop_last())
    }
}

/// The extension of a file name: the text after its last delimiter, unless
/// there is no delimiter, the name starts with it, or the text is longer
/// than `N_MAX_EXTENSION_BYTES` bytes.
pub open spec fn extension(f: Seq<char>) -> Option<Seq<char>> {
    let d = last_dot(f);
    if d <= 0 {
        None
    } else if bytes_len(f.subrange(d + 1, f.len() as int)) > N_MAX_EXTENSION_BYTES {
        None
    } else {
        Some(f.subrange(d + 1, f.len() as int))
    }
}

/// The file name without its extension.
pub open spec fn slug_of(f: Seq<char>) -> Seq<char> {
    match extension(f) {
        Some(_) => f.subrange(0, last_dot(f)),
        None => f,
    }
}

/// The decimal digit `d`.
pub open spec fn digit(d: nat) -> char {
    if d == 0 {
        '0'
    } else if d == 1 {
        '1'
    } else if d == 2 {
        '2'
    } else if d == 3 {
        '3'
    } else if d == 4 {
        '4'
    } else if d == 5 {
        '5'
    } else if d == 6 {
        '6'
    } else if d == 7 {
        '7'
    } else if d == 8 {
        '8'
    } else {
        '9'
    }
}

/// The decimal representation of `n`, without leading zeros.
pub open spec fn decimal(n: nat) -> Seq<char>
    decreases n,
{
    if n < 10 {
        seq![digit(n)]
    } else {
        decimal(n / 10).push(digit(n % 10))
    }
}

/// What follows the slug's final delimiter: the retry counter, when it is
/// not zero, then the extension, when there is one.
pub open spec fn formatted_extension(f: Seq<char>, n: nat) -> Option<Seq<char>> {
    match extension(f) {
        Some(e) => if n == 0 {
            Some(e)
        } else {
            Some(decimal(n) + seq![DELIMITER] + e)
        },
        None => if n == 0 {
            None
        } else {
            Some(decimal(n))
        },
    }
}

/// The end of every candidate for counter `n`: a delimiter and the formatted
/// extension, or nothing.
pub open spec fn suffix(f: Seq<char>, n: nat) -> Seq<char> {
    match formatted_extension(f, n) {
        Some(e) => seq![DELIMITER] + e,
        None => seq![],
    }
}

/// The bytes left for the slug once the suffix is reserved.
pub open spec fn slug_budget(f: Seq<char>, n: nat) -> nat {
    (N_FILENAME_BYTES - bytes_len(suffix(f, n))) as nat
}

/// The normalized tags of the components, by position.
pub open spec fn keys_of(comps: Seq<(char, Seq<char>)>) -> Seq<Seq<char>> {
    comps.map_values(|c: (char, Seq<char>)| nfd_of(c.1))
}

/// The candidate file name for `f` and retry counter `n`.
pub open spec fn candidate(
    f: Seq<char>,
    ignored: Seq<Seq<char>>,
    pairs: Seq<(Seq<char>, Seq<char>)>,
    n: nat,
) -> Seq<char> {
    let slug = slug_of(f);
    let comps = slug_components(slug, pairs);
    allocated_slug(leading(slug), comps, keys_of(comps), ignored, slug_budget(f, n)) + suffix(f, n)
}

/// `10` to the power `k`.
pub open spec fn pow10(k: nat) -> nat
    decreases k,
{
    if k == 0 {
        1
    } else {
        10 * pow10((k - 1) as nat)
    }
}

proof fn lemma_decimal_len(n: nat, k: nat)
    requires
        1 <= k,
        n < pow10(k),
    ensures
        1 <= decimal(n).len() <= k,
    decreases n,
{
    if n >= 10 {
        assert(k >= 2) by {
            if k == 1 {
                assert(pow10(0) == 1);
            }
        }
        assert(n / 10 < pow10((k - 1) as nat)) by (nonlinear_arith)
            requires
                n < 10 * pow10((k - 1) as nat),
        ;
        lemma_decimal_len(n / 10, (k - 1) as nat);
    }
}

proof fn lemma_decimal_ascii(n: nat)
    ensures
        forall|i: int| 0 <= i < decimal(n).len() ==> (#[trigger] decimal(n)[i] as u32) < 0x80,
        bytes_len(decimal(n)) == decimal(n).len(),
        !decimal(n).contains(DELIMITER),
    decreases n,
{
    if n >= 10 {
        lemma_decimal_ascii(n / 10);
        assert forall|i: int| 0 <= i < decimal(n).len() implies (#[trigger] decimal(n)[i] as u32) < 0x80 by {
            if i < decimal(n / 10).len() {
                assert(decimal(n)[i] == decimal(n / 10)[i]);
            }
        }
        if decimal(n).contains(DELIMITER) {
            let i = choose|i: int| 0 <= i < decimal(n).len() && decimal(n)[i] == DELIMITER;
            if i < decimal(n / 10).len() {
                assert(decimal(n)[i] == decimal(n / 10)[i]);
            }
        }
    }
    lemma_ascii_bytes(decimal(n));
}

/// A counter in a `usize` has at most twenty digits.
pub proof fn lemma_decimal_usize(n: usize)
    ensures
        1 <= decimal(n as nat).len() <= 20,
        bytes_len(decimal(n as nat)) == decimal(n as nat).len(),
{
    reveal_with_fuel(pow10, 21);
    assert(pow10(20) == 100000000000000000000nat);
    lemma_decimal_len(n as nat, 20);
    lemma_decimal_ascii(n as nat);
}

/// The suffix of a candidate takes at most 27 bytes.
pub proof fn lemma_suffix_bytes(f: Seq<char>, n: usize)
    ensures
        bytes_len(suffix(f, n as nat)) <= 27,
{
    lemma_decimal_usize(n);
    let d = decimal(n as nat);
    let dot = seq![DELIMITER];
    lemma_bytes_len_single(DELIMITER);
    match extension(f) {
        Some(e) => {
            if n == 0 {
                lemma_bytes_len_append(dot, e);
            } else {
                lemma_bytes_len_append(dot, d);
                lemma_bytes_len_append(dot + d, dot);
                lemma_bytes_len_append(dot + d + dot, e);
                assert(suffix(f, n as nat) =~= dot + d + dot + e);
            }
        },
        None => {
            if n == 0 {
                assert(bytes_len(Seq::<char>::empty()) == 0);
            } else {
                lemma_bytes_len_append(dot, d);
            }
        },
    }
}

/// Different counters have different decimal representations.
pub proof fn lemma_decimal_injective(n: nat, m: nat)
    requires
        decimal(n) == decimal(m),
    ensures
        n == m,
    decreases n,
{
    if n >= 10 && m >= 10 {
        assert(decimal(n).last() == digit(n % 10));
        assert(decimal(n).drop_last() =~= decimal(n / 10));
        assert(decimal(m).drop_last() =~= decimal(m / 10));
        lemma_decimal_injective(n / 10, m / 10);
    } else if n >= 10 {
        assert(decimal(n / 10).len() >= 1);
        assert(decimal(n).len() >= 2);
    } else if m >= 10 {
        assert(decimal(m / 10).len() >= 1);
        assert(decimal(m).len() >= 2);
    } else {
        assert(decimal(n)[0] == digit(n));
    }
}

/// In `a`, a delimiter and a decimal, the last delimiter is the one before
/// the decimal.
pub proof fn lemma_last_dot_after(a: Seq<char>, n: nat)
    ensures
        last_dot(a + seq![DELIMITER] + decimal(n)) == a.len(),
{
    lemma_decimal_ascii(n);
    lemma_last_dot_no_dot(a + seq![DELIMITER], decimal(n));
}

proof fn lemma_last_dot_no_dot(p: Seq<char>, d: Seq<char>)
    requires
        p.len() > 0,
        p.last() == DELIMITER,
        !d.contains(DELIMITER),
    ensures
        last_dot(p + d) == p.len() - 1,
    decreases d.len(),
{
    if d.len() == 0 {
        assert(p + d =~= p);
    } else {
        assert((p + d).drop_last() =~= p + d.drop_last());
        assert((p + d).last() == d.last());
        assert(!d.drop_last().contains(DELIMITER)) by {
            if d.drop_last().contains(DELIMITER) {
                let i = choose|i: int| 0 <= i < d.drop_last().len() && d.drop_last()[i] == DELIMITER;
                assert(d[i] == DELIMITER);
            }
        }
        assert(d[d.len() - 1] != DELIMITER);
        lemma_last_dot_no_dot(p, d.drop_last());
    }
}

fn digit_char(d: usize) -> (c: char)
    requires
        d < 10,
    ensures
        c == digit(d as nat),
{
    if d == 0 {
        '0'
    } else if d == 1 {
        '1'
    } else if d == 2 {
        '2'
    } else if d == 3 {
        '3'
    } else if d == 4 {
        '4'
    } else if d == 5 {
        '5'
    } else if d == 6 {
        '6'
    } else if d == 7 {
        '7'
    } else if d == 8 {
        '8'
    } else {
        '9'
    }
}

/// The decimal representation of `n`.
pub fn decimal_string(n: usize) -> (r: String)
    ensures
        r@ == decimal(n as nat),
    decreases n,
{
    if n < 10 {
        let mut s = String::new();
        push_char(&mut s, digit_char(n));
        assert(s@ =~= seq![digit(n as nat)]);
        s
    } else {
        let mut s = decimal_string(n / 10);
        push_char(&mut s, digit_char(n % 10));
        s
    }
}

proof fn lemma_last_dot_range(s: Seq<char>)
    ensures
        -1 <= last_dot(s) < s.len(),
        last_dot(s) >= 0 ==> s[last_dot(s)] == DELIMITER,
    decreases s.len(),
{
    if s.len() > 0 && s.last() != DELIMITER {
        lemma_last_dot_range(s.drop_last());
    }
}

proof fn lemma_last_dot_skip(s: Seq<char>, i: int)
    requires
        0 < i <= s.len(),
        s[i - 1] != DELIMITER,
    ensures
        last_dot(s.subrange(0, i)) == last_dot(s.subrange(0, i - 1)),
{
    assert(s.subrange(0, i).drop_last() =~= s.subrange(0, i - 1));
}

/// Position of the last delimiter in `cs`, if any.
fn find_last_dot(cs: &Vec<char>) -> (r: Option<usize>)
    ensures
        r matches Some(d) ==> d == last_dot(cs@) && d < cs.len(),
        r is None ==> last_dot(cs@) == -1,
{
    let mut i = cs.len();
    assert(cs@.subrange(0, i as int) =~= cs@);
    while i > 0
        invariant
            i <= cs.len(),
            last_dot(cs@) == last_dot(cs@.subrange(0, i as int)),
        decreases i,
    {
        if cs[i - 1] == DELIMITER {
            assert(cs@.subrange(0, i as int).last() == DELIMITER);
            return Some(i - 1);
        }
        proof {
            lemma_last_dot_skip(cs@, i as int);
        }
        i = i - 1;
    }
    None
}

/// Splits a file name into its extension, if it has one, and its slug.
fn split_extension(filename: &str) -> (r: (Option<String>, String))
    ensures
        r.0 matches Some(e) ==> extension(filename@) == Some(e@),
        r.0 is None ==> extension(filename@) is None,
        r.1@ == slug_of(filename@),
{
    let cs = chars_of(filename);
    match find_last_dot(&cs) {
        Some(d) => {
            if d == 0 {
                return (None, filename.to_owned());
            }
            let mut tail = String::new();
            push_range(&mut tail, &cs, d + 1, cs.len());
            if byte_len(tail.as_str()) > N_MAX_EXTENSION_BYTES {
                (None, filename.to_owned())
            } else {
                let mut slug = String::new();
                push_range(&mut slug, &cs, 0, d);
                (Some(tail), slug)
            }
        },
        None => (None, filename.to_owned()),
    }
}

/// Computes the candidate file name for `filename` and the retry counter
/// `n_retries`.
pub fn new_candidate_filename(
    filename: &str,
    ignored_tags: &Vec<String>,
    tag_conversion_map: &Vec<(String, String)>,
    n_retries: usize,
) -> (r: String)
    requires
        bytes_len(filename@) + 4 <= usize::MAX,
        forall|k: int|
            0 <= k < tag_conversion_map.len() ==> bytes_len(#[trigger] tag_conversion_map@[k].1@) + 4
                <= usize::MAX,
    ensures
        r@ == candidate(
            filename@,
            ignored_tags.deep_view(),
            tag_conversion_map.deep_view(),
            n_retries as nat,
        ),
        bytes_len(r@) <= N_FILENAME_BYTES,
{
    proof {
        crate::laws::candidate_within_limit(
            filename@,
            ignored_tags.deep_view(),
            tag_conversion_map.deep_view(),
            n_retries,
        );
    }
    let (ext, slug) = split_extension(filename);
    let formatted: Option<String> = match ext {
        Some(e) => {
            if n_retries == 0 {
                Some(e)
            } else {
                let mut s = decimal_string(n_retries);
                push_char(&mut s, DELIMITER);
                s.append(e.as_str());
                Some(s)
            }
        },
        None => {
            if n_retries == 0 {
                None
            } else {
                Some(decimal_string(n_retries))
            }
        },
    };
    let mut suffix_text = String::new();
    if let Some(e) = formatted {
        push_char(&mut suffix_text, DELIMITER);
        suffix_text.append(e.as_str());
    }
    let ghost f = filename@;
    assert(suffix_text@ =~= suffix(f, n_retries as nat));
    proof {
        lemma_suffix_bytes(f, n_retries);
    }
    let budget = N_FILENAME_BYTES - byte_len(suffix_text.as_str());
    let (first, comps) = split_into_components(slug.as_str(), tag_conversion_map);
    let mut keys: Vec<String> = Vec::new();
    let mut i: usize = 0;
    while i < comps.len()
        invariant
            i <= comps.len(),
            keys.len() == i,
            keys.deep_view() == keys_of(views(comps@)).subrange(0, i as int),
        decreases comps.len() - i,
    {
        let k = normalize_str(comps[i].tag.as_str());
        assert(keys.deep_view().push(k@) =~= keys_of(views(comps@)).subrange(0, i + 1));
        keys.push(k);
        assert(keys.deep_view() =~= keys_of(views(comps@)).subrange(0, i + 1));
        i = i + 1;
    }
    assert(keys.deep_view() =~= keys_of(views(comps@)));
    proof {
        let pairs = tag_conversion_map.deep_view();
        let bound = (usize::MAX - 4) as nat;
        assert forall|k: int| 0 <= k < pairs.len() implies bytes_len(#[trigger] pairs[k].1) <= bound by {
            assert(pairs[k].1 == tag_conversion_map@[k].1@);
        }
        match extension(f) {
            Some(_) => {
                lemma_last_dot_range(f);
                lemma_subrange_bytes(f, 0, last_dot(f));
            },
            None => {},
        }
        lemma_components_bounded(slug@, pairs, bound);
        assert(views(comps@).len() == comps@.len());
        assert forall|i: int| 0 <= i < comps.len() implies bytes_len(#[trigger] comps@[i].tag@) + 4 <= usize::MAX by {
            assert(views(comps@)[i] == comps@[i]@);
            assert(views(comps@)[i] == slug_components(slug@, pairs)[i]);
            assert(i < slug_components(slug@, pairs).len());
            assert(bytes_len(slug_components(slug@, pairs)[i].1) <= bound);
        }
    }
    let mut out = allocate_slug(first.as_str(), &comps, &keys, ignored_tags, budget);
    out.append(suffix_text.as_str());
    out
}

} // verus!
