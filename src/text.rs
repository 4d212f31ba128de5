//! Character-level text model: UTF-8 widths, byte lengths and whole-character
//! prefixes of a byte budget.

use vstd::prelude::*;
use vstd::utf8::*;

verus! {

/// Number of bytes of the UTF-8 encoding of `c`.
pub open spec fn width(c: char) -> nat {
    if (c as u32) < 0x80 {
        1
    } else if (c as u32) < 0x800 {
        2
    } else if (c as u32) < 0x10000 {
        3
    } else {
        4
    }
}

/// Number of bytes of the UTF-8 encoding of `s`.
pub open spec fn bytes_len(s: Seq<char>) -> nat
    decreases s.len(),
{
    if s.len() == 0 {
        0
    } else {
        bytes_len(s.drop_last()) + width(s.last())
    }
}

/// Length of the longest prefix of `s` whose encoding fits in `budget` bytes.
pub open spec fn fit_len(s: Seq<char>, budget: nat) -> nat
    decreases s.len(),
{
    if bytes_len(s) <= budget || s.len() == 0 {
        s.len()
    } else {
        fit_len(s.drop_last(), budget)
    }
}

/// The longest whole-character prefix of `s` that fits in `budget` bytes.
pub open spec fn fit_prefix(s: Seq<char>, budget: nat) -> Seq<char> {
    s.subrange(0, fit_len(s, budget) as int)
}

/// Byte length of `c` in UTF-8.
pub fn char_width(c: char) -> (r: usize)
    ensures
        r == width(c),
        1 <= r <= 4,
{
    let v = c as u32;
    if v < 0x80 {
        1
    } else if v < 0x800 {
        2
    } else if v < 0x10000 {
        3
    } else {
        4
    }
}

pub proof fn lemma_width_encode(c: char)
    ensures
        encode_scalar(c as u32).len() == width(c),
{
    char_is_scalar(c);
}

pub proof fn lemma_bytes_len_single(c: char)
    ensures
        bytes_len(seq![c]) == width(c),
{
    assert(seq![c].drop_last() =~= Seq::<char>::empty());
    assert(bytes_len(Seq::<char>::empty()) == 0);
}

pub proof fn lemma_bytes_len_append(a: Seq<char>, b: Seq<char>)
    ensures
        bytes_len(a + b) == bytes_len(a) + bytes_len(b),
    decreases b.len(),
{
    if b.len() == 0 {
        assert(a + b =~= a);
    } else {
        assert((a + b).drop_last() =~= a + b.drop_last());
        lemma_bytes_len_append(a, b.drop_last());
    }
}

pub proof fn lemma_subrange_bytes(s: Seq<char>, a: int, b: int)
    requires
        0 <= a <= b <= s.len(),
    ensures
        bytes_len(s.subrange(a, b)) <= bytes_len(s),
{
    let x = s.subrange(0, a);
    let y = s.subrange(a, b);
    let z = s.subrange(b, s.len() as int);
    assert(s =~= x + y + z);
    lemma_bytes_len_append(x + y, z);
    lemma_bytes_len_append(x, y);
}

/// Text of one-byte characters takes one byte per character.
pub proof fn lemma_ascii_bytes(s: Seq<char>)
    requires
        forall|i: int| 0 <= i < s.len() ==> (s[i] as u32) < 0x80,
    ensures
        bytes_len(s) == s.len(),
    decreases s.len(),
{
    if s.len() > 0 {
        lemma_ascii_bytes(s.drop_last());
    }
}

/// `bytes_len` is the length of the UTF-8 encoding of the characters.
pub proof fn lemma_bytes_len_utf8(s: Seq<char>)
    ensures
        encode_utf8(s).len() == bytes_len(s),
    decreases s.len(),
{
    if s.len() > 0 {
        lemma_bytes_len_utf8(s.drop_first());
        lemma_width_encode(s[0]);
        assert(s =~= seq![s[0]] + s.drop_first());
        lemma_bytes_len_append(seq![s[0]], s.drop_first());
        lemma_bytes_len_single(s[0]);
    }
}

pub proof fn lemma_prefix_step(s: Seq<char>, i: int)
    requires
        0 <= i < s.len(),
    ensures
        bytes_len(s.subrange(0, i + 1)) == bytes_len(s.subrange(0, i)) + width(s[i]),
{
    assert(s.subrange(0, i + 1).drop_last() =~= s.subrange(0, i));
}

pub proof fn lemma_prefix_mono(s: Seq<char>, i: int, j: int)
    requires
        0 <= i <= j <= s.len(),
    ensures
        bytes_len(s.subrange(0, i)) <= bytes_len(s.subrange(0, j)),
    decreases j - i,
{
    if i < j {
        lemma_prefix_mono(s, i, j - 1);
        lemma_prefix_step(s, j - 1);
    }
}

/// A prefix that fits while one more character would not is the longest fitting one.
pub proof fn lemma_fit_len_exact(s: Seq<char>, budget: nat, k: int)
    requires
        0 <= k <= s.len(),
        bytes_len(s.subrange(0, k)) <= budget,
        k == s.len() || bytes_len(s.subrange(0, k + 1)) > budget,
    ensures
        fit_len(s, budget) == k,
    decreases s.len(),
{
    assert(s.subrange(0, s.len() as int) =~= s);
    if bytes_len(s) <= budget || s.len() == 0 {
        if k < s.len() {
            lemma_prefix_mono(s, k + 1, s.len() as int);
        }
    } else {
        let t = s.drop_last();
        assert(t.subrange(0, k) =~= s.subrange(0, k));
        if k + 1 <= t.len() {
            assert(t.subrange(0, k + 1) =~= s.subrange(0, k + 1));
        }
        lemma_fit_len_exact(t, budget, k);
    }
}

pub proof fn lemma_fit_prefix_fits(s: Seq<char>, budget: nat)
    ensures
        fit_len(s, budget) <= s.len(),
        bytes_len(fit_prefix(s, budget)) <= budget,
    decreases s.len(),
{
    assert(s.subrange(0, s.len() as int) =~= s);
    if bytes_len(s) <= budget || s.len() == 0 {
    } else {
        let t = s.drop_last();
        lemma_fit_prefix_fits(t, budget);
        assert(fit_prefix(s, budget) =~= fit_prefix(t, budget));
    }
}

/// Number of bytes of the UTF-8 encoding of `s`.
pub fn byte_len(s: &str) -> (r: usize)
    ensures
        r == bytes_len(s@),
{
    proof {
        lemma_bytes_len_utf8(s@);
    }
    s.as_bytes().len()
}

/// Relies on `String::push`: appends one character.
#[verifier::external_body]
pub(crate) fn push_char(s: &mut String, c: char)
    ensures
        final(s)@ == old(s)@.push(c),
{
    s.push(c);
}

/// The characters of `s`, in order.
pub fn chars_of(s: &str) -> (r: Vec<char>)
    ensures
        r@ == s@,
{
    let mut r: Vec<char> = Vec::new();
    for c in it: s.chars()
        invariant
            r@ == it.seq().subrange(0, it.index() as int),
            it.seq() == s@,
    {
        r.push(c);
    }
    assert(r@ =~= s@);
    r
}

/// Appends to `out` the longest whole-character prefix of `s` that fits in
/// `budget` bytes, and returns the bytes left over.
pub fn push_fitting(out: &mut String, s: &Vec<char>, budget: usize) -> (rest: usize)
    ensures
        final(out)@ == old(out)@ + fit_prefix(s@, budget as nat),
        rest + bytes_len(fit_prefix(s@, budget as nat)) == budget,
{
    let mut rest = budget;
    let mut i: usize = 0;
    while i < s.len()
        invariant_except_break
            0 <= i <= s.len(),
            out@ == old(out)@ + s@.subrange(0, i as int),
            rest + bytes_len(s@.subrange(0, i as int)) == budget,
        ensures
            0 <= i <= s.len(),
            out@ == old(out)@ + s@.subrange(0, i as int),
            rest + bytes_len(s@.subrange(0, i as int)) == budget,
            i == s.len() || bytes_len(s@.subrange(0, i as int + 1)) > budget,
        decreases s.len() - i,
    {
        let w = char_width(s[i]);
        proof {
            lemma_prefix_step(s@, i as int);
        }
        if rest < w {
            break;
        }
        rest = rest - w;
        push_char(out, s[i]);
        assert(s@.subrange(0, i as int + 1) =~= s@.subrange(0, i as int).push(s@[i as int]));
        i = i + 1;
    }
    proof {
        lemma_fit_len_exact(s@, budget as nat, i as int);
    }
    rest
}

} // verus!
