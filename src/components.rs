//! Splitting a slug (a file name without its extension) into a leading
//! component and the tags that follow it.

use vstd::prelude::*;
use crate::normalize::{nfd_of, normalize_str};
use crate::text::{byte_len, bytes_len, chars_of, char_width, lemma_subrange_bytes, push_char, width};

verus! {

/// The character that separates tags.
pub const DELIMITER: char = '.';

/// One tag of a file name, with the delimiter that introduced it.
#[derive(Debug, Clone, PartialEq, Eq)]
pub struct SlugComponent {
    pub delimiter: char,
    pub tag: String,
}

impl View for SlugComponent {
    type V = (char, Seq<char>);

    open spec fn view(&self) -> (char, Seq<char>) {
        (self.delimiter, self.tag@)
    }
}

/// Bytes that a component takes in a file name: its tag and its delimiter.
pub open spec fn cost(c: (char, Seq<char>)) -> nat {
    bytes_len(c.1) + width(c.0)
}

/// The abstract values of a sequence of components.
pub open spec fn views(v: Seq<SlugComponent>) -> Seq<(char, Seq<char>)> {
    v.map_values(|c: SlugComponent| c@)
}

impl SlugComponent {
    /// Byte length of the delimiter and the tag.
    pub fn n_bytes(&self) -> (r: usize)
        requires
            bytes_len(self.tag@) + 4 <= usize::MAX,
        ensures
            r == cost(self@),
    {
        byte_len(self.tag.as_str()) + char_width(self.delimiter)
    }

    /// The component as it appears in a file name: delimiter, then tag.
    pub fn to_text(&self) -> (r: String)
        ensures
            r@ == seq![self.delimiter] + self.tag@,
    {
        let mut t = String::new();
        push_char(&mut t, self.delimiter);
        t.append(self.tag.as_str());
        t
    }
}

/// Index of the first delimiter in `s` at or after `i`, or `s.len()`.
pub open spec fn next_dot(s: Seq<char>, i: int) -> int
    decreases s.len() - i,
{
    if i >= s.len() {
        s.len() as int
    } else if i >= 0 && s[i] == DELIMITER {
        i
    } else {
        next_dot(s, i + 1)
    }
}

/// End of the leading component: the first delimiter after the first character.
pub open spec fn first_end(s: Seq<char>) -> int {
    if s.len() == 0 {
        0
    } else {
        next_dot(s, 1)
    }
}

/// The leading component of a slug.
pub open spec fn leading(s: Seq<char>) -> Seq<char> {
    s.subrange(0, first_end(s))
}

/// The tags that follow the delimiter at `d` and each later delimiter.
pub open spec fn tags_from(s: Seq<char>, d: int) -> Seq<Seq<char>>
    decreases s.len() - d
    via tags_from_decreases
{
    if d < 0 || d >= s.len() {
        seq![]
    } else {
        let e = next_dot(s, d + 1);
        if e < s.len() {
            seq![s.subrange(d + 1, e)] + tags_from(s, e)
        } else {
            seq![s.subrange(d + 1, e)]
        }
    }
}

proof fn lemma_next_dot_range(s: Seq<char>, i: int)
    requires
        0 <= i <= s.len(),
    ensures
        i <= next_dot(s, i) <= s.len(),
    decreases s.len() - i,
{
    if i < s.len() && s[i] != DELIMITER {
        lemma_next_dot_range(s, i + 1);
    }
}

#[via_fn]
proof fn tags_from_decreases(s: Seq<char>, d: int) {
    if 0 <= d < s.len() {
        lemma_next_dot_range(s, d + 1);
    }
}

proof fn lemma_tags_from_bounded(s: Seq<char>, d: int)
    ensures
        forall|i: int| 0 <= i < tags_from(s, d).len() ==> bytes_len(#[trigger] tags_from(s, d)[i]) <= bytes_len(s),
    decreases s.len() - d,
{
    if 0 <= d < s.len() {
        let e = next_dot(s, d + 1);
        lemma_next_dot_range(s, d + 1);
        lemma_subrange_bytes(s, d + 1, e);
        if e < s.len() {
            lemma_tags_from_bounded(s, e);
            assert forall|i: int| 0 <= i < tags_from(s, d).len() implies bytes_len(
                #[trigger] tags_from(s, d)[i],
            ) <= bytes_len(s) by {
                if i > 0 {
                    assert(tags_from(s, d)[i] == tags_from(s, e)[i - 1]);
                }
            }
        }
    }
}

/// The tags of a slug, as written in it.
pub open spec fn raw_tags(s: Seq<char>) -> Seq<Seq<char>> {
    tags_from(s, first_end(s))
}

/// The replacement for `key` in a list of conversions: the first pair whose
/// key matches.
pub open spec fn lookup(pairs: Seq<(Seq<char>, Seq<char>)>, key: Seq<char>) -> Option<Seq<char>>
    decreases pairs.len(),
{
    if pairs.len() == 0 {
        None
    } else if pairs[0].0 == key {
        Some(pairs[0].1)
    } else {
        lookup(pairs.drop_first(), key)
    }
}

/// A tag after conversion: the replacement of its normalized form `key`, if any.
pub open spec fn converted(tag: Seq<char>, key: Seq<char>, pairs: Seq<(Seq<char>, Seq<char>)>) -> Seq<char> {
    match lookup(pairs, key) {
        Some(v) => v,
        None => tag,
    }
}

/// The components of a slug, each tag converted through `pairs`.
pub open spec fn slug_components(s: Seq<char>, pairs: Seq<(Seq<char>, Seq<char>)>) -> Seq<(char, Seq<char>)> {
    raw_tags(s).map_values(|t: Seq<char>| (DELIMITER, converted(t, nfd_of(t), pairs)))
}

proof fn lemma_lookup_bounded(pairs: Seq<(Seq<char>, Seq<char>)>, key: Seq<char>, bound: nat)
    requires
        forall|k: int| 0 <= k < pairs.len() ==> bytes_len(#[trigger] pairs[k].1) <= bound,
    ensures
        lookup(pairs, key) matches Some(v) ==> bytes_len(v) <= bound,
    decreases pairs.len(),
{
    if pairs.len() > 0 && pairs[0].0 != key {
        let rest = pairs.drop_first();
        assert forall|k: int| 0 <= k < rest.len() implies bytes_len(#[trigger] rest[k].1) <= bound by {
            assert(rest[k] == pairs[k + 1]);
        }
        lemma_lookup_bounded(rest, key, bound);
    }
}

/// Every tag of a slug, after conversion, is no longer than the slug or
/// than the longest replacement.
pub proof fn lemma_components_bounded(s: Seq<char>, pairs: Seq<(Seq<char>, Seq<char>)>, bound: nat)
    requires
        bytes_len(s) <= bound,
        forall|k: int| 0 <= k < pairs.len() ==> bytes_len(#[trigger] pairs[k].1) <= bound,
    ensures
        forall|i: int|
            0 <= i < slug_components(s, pairs).len() ==> bytes_len(
                #[trigger] slug_components(s, pairs)[i].1,
            ) <= bound,
{
    lemma_tags_from_bounded(s, first_end(s));
    assert forall|i: int| 0 <= i < slug_components(s, pairs).len() implies bytes_len(
        #[trigger] slug_components(s, pairs)[i].1,
    ) <= bound by {
        let t = raw_tags(s)[i];
        lemma_lookup_bounded(pairs, nfd_of(t), bound);
    }
}

proof fn lemma_next_dot_skip(s: Seq<char>, a: int, i: int)
    requires
        0 <= a <= i <= s.len(),
        forall|k: int| a <= k < i ==> s[k] != DELIMITER,
    ensures
        next_dot(s, a) == next_dot(s, i),
    decreases i - a,
{
    if a < i {
        lemma_next_dot_skip(s, a + 1, i);
    }
}

/// Appends the characters `s[from..to]` to `out`.
pub(crate) fn push_range(out: &mut String, s: &Vec<char>, from: usize, to: usize)
    requires
        from <= to <= s.len(),
    ensures
        final(out)@ == old(out)@ + s@.subrange(from as int, to as int),
{
    let mut i = from;
    while i < to
        invariant
            from <= i <= to <= s.len(),
            out@ == old(out)@ + s@.subrange(from as int, i as int),
        decreases to - i,
    {
        push_char(out, s[i]);
        assert(s@.subrange(from as int, i + 1) =~= s@.subrange(from as int, i as int).push(s@[i as int]));
        i = i + 1;
    }
}

fn component_of(s: &Vec<char>, from: usize, to: usize) -> (r: SlugComponent)
    requires
        from <= to <= s.len(),
    ensures
        r@ == (DELIMITER, s@.subrange(from as int, to as int)),
{
    let mut tag = String::new();
    push_range(&mut tag, s, from, to);
    SlugComponent { delimiter: DELIMITER, tag }
}

/// Splits a slug into its leading component and its tags, as written. The
/// first character never starts a tag, even when it is a delimiter.
pub fn split_slug(slug: &str) -> (r: (String, Vec<SlugComponent>))
    ensures
        r.0@ == leading(slug@),
        views(r.1@) == raw_tags(slug@).map_values(|t: Seq<char>| (DELIMITER, t)),
{
    let cs = chars_of(slug);
    let n = cs.len();
    let ghost s = slug@;
    if n == 0 {
        let r = (String::new(), Vec::new());
        assert(views(r.1@) =~= raw_tags(s).map_values(|t: Seq<char>| (DELIMITER, t)));
        return r;
    }
    let mut e: usize = 1;
    while e < n && cs[e] != DELIMITER
        invariant
            1 <= e <= n,
            n == s.len(),
            cs@ == s,
            next_dot(s, 1) == next_dot(s, e as int),
        decreases n - e,
    {
        proof {
            lemma_next_dot_skip(s, e as int, e + 1);
        }
        e = e + 1;
    }
    let mut first = String::new();
    push_range(&mut first, &cs, 0, e);
    let mut comps: Vec<SlugComponent> = Vec::new();
    if e < n {
        let mut start: usize = e;
        let mut i: usize = e + 1;
        let ghost mut acc: Seq<Seq<char>> = seq![];
        while i < n
            invariant
                start < i <= n,
                n == s.len(),
                cs@ == s,
                s[start as int] == DELIMITER,
                e < n,
                first_end(s) == e,
                next_dot(s, start + 1) == next_dot(s, i as int),
                views(comps@) == acc.map_values(|t: Seq<char>| (DELIMITER, t)),
                acc + tags_from(s, start as int) == tags_from(s, e as int),
            decreases n - i,
        {
            if cs[i] == DELIMITER {
                let c = component_of(&cs, start + 1, i);
                proof {
                    let x = s.subrange(start + 1, i as int);
                    assert(tags_from(s, start as int) == seq![x] + tags_from(s, i as int));
                    assert(acc.push(x) + tags_from(s, i as int) =~= acc + tags_from(s, start as int));
                    assert(views(comps@.push(c)) =~= views(comps@).push(c@));
                    assert(acc.push(x).map_values(|t: Seq<char>| (DELIMITER, t)) =~= acc.map_values(|t: Seq<char>| (DELIMITER, t)).push((DELIMITER, x)));
                    acc = acc.push(x);
                }
                comps.push(c);
                start = i;
            } else {
                proof {
                    lemma_next_dot_skip(s, i as int, i + 1);
                }
            }
            i = i + 1;
        }
        let c = component_of(&cs, start + 1, n);
        proof {
            let x = s.subrange(start + 1, n as int);
            assert(tags_from(s, start as int) == seq![x]);
            assert(acc.push(x) =~= acc + tags_from(s, start as int));
            assert(views(comps@.push(c)) =~= views(comps@).push(c@));
            assert(acc.push(x).map_values(|t: Seq<char>| (DELIMITER, t)) =~= acc.map_values(|t: Seq<char>| (DELIMITER, t)).push((DELIMITER, x)));
        }
        comps.push(c);
    } else {
        assert(views(comps@) =~= raw_tags(s).map_values(|t: Seq<char>| (DELIMITER, t)));
    }
    (first, comps)
}

proof fn lemma_lookup_step(pairs: Seq<(Seq<char>, Seq<char>)>, key: Seq<char>, k: int)
    requires
        0 <= k < pairs.len(),
    ensures
        lookup(pairs.subrange(k, pairs.len() as int), key) == if pairs[k].0 == key {
            Some(pairs[k].1)
        } else {
            lookup(pairs.subrange(k + 1, pairs.len() as int), key)
        },
{
    assert(pairs.subrange(k, pairs.len() as int).drop_first() =~= pairs.subrange(
        k + 1,
        pairs.len() as int,
    ));
}

/// The replacement that `conversions` gives for the normalized tag `key`.
pub fn find_conversion<'a>(conversions: &'a Vec<(String, String)>, key: &String) -> (r: Option<
    &'a String,
>)
    ensures
        r matches Some(v) ==> lookup(conversions.deep_view(), key@) == Some(v@),
        r is None ==> lookup(conversions.deep_view(), key@) is None,
{
    let ghost pairs = conversions.deep_view();
    let mut k: usize = 0;
    assert(pairs.subrange(0, pairs.len() as int) =~= pairs);
    while k < conversions.len()
        invariant
            k <= conversions.len(),
            pairs == conversions.deep_view(),
            lookup(pairs, key@) == lookup(pairs.subrange(k as int, pairs.len() as int), key@),
        decreases conversions.len() - k,
    {
        proof {
            lemma_lookup_step(pairs, key@, k as int);
        }
        if conversions[k].0 == *key {
            return Some(&conversions[k].1);
        }
        k = k + 1;
    }
    None
}

/// A tag after conversion, given its normalized form `key`.
pub fn convert_tag(tag: String, key: &String, conversions: &Vec<(String, String)>) -> (r: String)
    ensures
        r@ == converted(tag@, key@, conversions.deep_view()),
{
    match find_conversion(conversions, key) {
        Some(v) => v.clone(),
        None => tag,
    }
}

/// Splits a slug into its leading component and its tags, each tag replaced
/// through `tag_conversion_map` when its normalized form is a key there.
pub fn split_into_components(slug: &str, tag_conversion_map: &Vec<(String, String)>) -> (r: (
    String,
    Vec<SlugComponent>,
))
    ensures
        r.0@ == leading(slug@),
        views(r.1@) == slug_components(slug@, tag_conversion_map.deep_view()),
{
    let (first, raw) = split_slug(slug);
    let ghost tags = raw_tags(slug@);
    let ghost pairs = tag_conversion_map.deep_view();
    assert(views(raw@).len() == raw@.len());
    assert(raw@.len() == tags.len());
    let mut comps: Vec<SlugComponent> = Vec::new();
    let mut i: usize = 0;
    while i < raw.len()
        invariant
            i <= raw.len(),
            raw@.len() == tags.len(),
            pairs == tag_conversion_map.deep_view(),
            views(raw@) == tags.map_values(|t: Seq<char>| (DELIMITER, t)),
            slug_components(slug@, pairs).len() == tags.len(),
            tags == raw_tags(slug@),
            views(comps@) == slug_components(slug@, pairs).subrange(0, i as int),
        decreases raw.len() - i,
    {
        assert(raw@[i as int]@ == views(raw@)[i as int]);
        assert(raw@[i as int]@ == (DELIMITER, tags[i as int]));
        let key = normalize_str(raw[i].tag.as_str());
        let tag = convert_tag(raw[i].tag.clone(), &key, tag_conversion_map);
        let c = SlugComponent { delimiter: raw[i].delimiter, tag };
        assert(views(comps@.push(c)) =~= views(comps@).push(c@));
        assert(slug_components(slug@, pairs)[i as int] == c@);
        assert(slug_components(slug@, pairs).subrange(0, i + 1) =~= slug_components(
            slug@,
            pairs,
        ).subrange(0, i as int).push(c@));
        comps.push(c);
        i = i + 1;
    }
    assert(slug_components(slug@, pairs).subrange(0, i as int) =~= slug_components(slug@, pairs));
    (first, comps)
}

} // verus!
