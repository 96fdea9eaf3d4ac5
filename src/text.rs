//! Byte-level text helpers: splitting on ASCII whitespace, decimal numbers.

use vstd::prelude::*;

verus! {

/// ASCII whitespace as `str::split_ascii_whitespace` knows it: space, tab,
/// line feed, form feed and carriage return.
pub open spec fn is_space(c: u8) -> bool {
    c == 32 || c == 9 || c == 10 || c == 12 || c == 13
}

/// The words of `b`: its maximal runs of non-whitespace bytes, in order.
pub open spec fn words(b: Seq<u8>) -> Seq<Seq<u8>>
    decreases b.len(),
{
    if b.len() == 0 {
        seq![]
    } else {
        let prev = words(b.drop_last());
        let c = b.last();
        if is_space(c) {
            prev
        } else if b.len() >= 2 && !is_space(b[b.len() - 2]) {
            prev.update(prev.len() - 1, prev.last().push(c))
        } else {
            prev.push(seq![c])
        }
    }
}

/// The words that a list of byte ranges of `b` picks out.
pub open spec fn spans_text(b: Seq<u8>, spans: Seq<(usize, usize)>) -> Seq<Seq<u8>> {
    spans.map_values(|p: (usize, usize)| b.subrange(p.0 as int, p.1 as int))
}

/// Splits `b` into the byte ranges of its words.
pub fn split_words(b: &[u8]) -> (r: Vec<(usize, usize)>)
    ensures
        spans_text(b@, r@) == words(b@),
        forall|k: int| 0 <= k < r@.len() ==> (#[trigger] r@[k]).0 < r@[k].1 <= b@.len(),
{
    let mut spans: Vec<(usize, usize)> = Vec::new();
    let mut i: usize = 0;
    while i < b.len()
        invariant
            i <= b@.len(),
            spans_text(b@, spans@) == words(b@.subrange(0, i as int)),
            forall|k: int| 0 <= k < spans@.len() ==> (#[trigger] spans@[k]).0 < spans@[k].1 <= i,
            i > 0 && !is_space(b@[i - 1]) ==> spans@.len() > 0 && spans@.last().1 == i,
        decreases b@.len() - i,
    {
        let c = b[i];
        let ghost pre = b@.subrange(0, i as int);
        let ghost post = b@.subrange(0, i + 1);
        assert(post.drop_last() =~= pre);
        assert(post.last() == c);
        if c == 32 || c == 9 || c == 10 || c == 12 || c == 13 {
        } else if i > 0 && !(b[i - 1] == 32 || b[i - 1] == 9 || b[i - 1] == 10 || b[i - 1] == 12
            || b[i - 1] == 13) {
            assert(post[post.len() - 2] == b@[i - 1]);
            let last = spans.len() - 1;
            let (s, e) = spans[last];
            spans.set(last, (s, i + 1));
            assert(b@.subrange(s as int, i + 1) =~= b@.subrange(s as int, i as int).push(c));
            assert(spans_text(b@, spans@) =~= words(post));
        } else {
            spans.push((i, i + 1));
            assert(b@.subrange(i as int, i + 1) =~= seq![c]);
            assert(spans_text(b@, spans@) =~= words(post));
        }
        i = i + 1;
    }
    assert(b@.subrange(0, b@.len() as int) =~= b@);
    spans
}

/// Whether `w` is made of ASCII decimal digits only.
pub open spec fn all_digits(w: Seq<u8>) -> bool {
    forall|k: int| 0 <= k < w.len() ==> 48 <= #[trigger] w[k] <= 57
}

/// The number that a run of decimal digits denotes.
pub open spec fn digits_value(w: Seq<u8>) -> int
    decreases w.len(),
{
    if w.len() == 0 {
        0
    } else {
        10 * digits_value(w.drop_last()) + (w.last() - 48)
    }
}

/// What `u64`'s `FromStr` makes of a word: an optional `+`, then one or more
/// decimal digits whose value fits in 64 bits.
pub open spec fn parse_u64_spec(w: Seq<u8>) -> Option<u64> {
    let d = if w.len() > 0 && w[0] == 43 {
        w.drop_first()
    } else {
        w
    };
    if d.len() > 0 && all_digits(d) && digits_value(d) <= u64::MAX {
        Some(digits_value(d) as u64)
    } else {
        None
    }
}

/// Reads the decimal number in `b[start..end]`.
pub fn parse_u64(b: &[u8], start: usize, end: usize) -> (r: Option<u64>)
    requires
        start <= end <= b@.len(),
    ensures
        r == parse_u64_spec(b@.subrange(start as int, end as int)),
{
    let ghost w = b@.subrange(start as int, end as int);
    let mut i = start;
    if i < end && b[i] == 43 {
        i = i + 1;
    }
    let ghost d = b@.subrange(i as int, end as int);
    assert(d =~= (if w.len() > 0 && w[0] == 43 {
        w.drop_first()
    } else {
        w
    }));
    let first = i;
    let mut acc: u64 = 0;
    let mut overflow = false;
    let mut digits = true;
    while i < end
        invariant
            start <= first <= i <= end <= b@.len(),
            d == b@.subrange(first as int, end as int),
            digits == all_digits(b@.subrange(first as int, i as int)),
            digits && !overflow ==> acc == digits_value(b@.subrange(first as int, i as int)),
            digits && overflow ==> digits_value(b@.subrange(first as int, i as int)) > u64::MAX,
        decreases end - i,
    {
        let c = b[i];
        let ghost pre = b@.subrange(first as int, i as int);
        let ghost post = b@.subrange(first as int, i + 1);
        assert(post.drop_last() =~= pre);
        if c < 48 || c > 57 {
            digits = false;
            assert(post[post.len() - 1] == c);
            assert(!all_digits(post));
        } else if digits {
            assert(all_digits(post));
            let dv = (c - 48) as u64;
            if !overflow {
                if acc <= (u64::MAX - dv) / 10 {
                    acc = acc * 10 + dv;
                } else {
                    overflow = true;
                }
            }
        } else {
            assert(!all_digits(post)) by {
                let k = choose|k: int| 0 <= k < pre.len() && !(48 <= #[trigger] pre[k] <= 57);
                assert(post[k] == pre[k]);
            }
        }
        i = i + 1;
    }
    if first < end && digits && !overflow {
        Some(acc)
    } else {
        None
    }
}

/// Whether `b[start..end]` is exactly the word `kw`.
pub fn word_is(b: &[u8], start: usize, end: usize, kw: &[u8]) -> (r: bool)
    requires
        start <= end <= b@.len(),
    ensures
        r == (b@.subrange(start as int, end as int) == kw@),
{
    if end - start != kw.len() {
        assert(b@.subrange(start as int, end as int).len() != kw@.len());
        return false;
    }
    let mut k: usize = 0;
    while k < kw.len()
        invariant
            end - start == kw@.len(),
            start <= end <= b@.len(),
            k <= kw@.len(),
            forall|j: int| 0 <= j < k ==> b@[start + j] == kw@[j],
        decreases kw@.len() - k,
    {
        if b[start + k] != kw[k] {
            assert(b@.subrange(start as int, end as int)[k as int] != kw@[k as int]);
            return false;
        }
        k = k + 1;
    }
    assert(b@.subrange(start as int, end as int) =~= kw@);
    true
}

} // verus!
