//! The normal form in which names and queries are compared.

use vstd::prelude::*;

verus! {

/// The code point of `c` after ASCII case folding: `A` to `Z` become `a` to `z`.
pub open spec fn fold_code(c: char) -> u32 {
    let u = c as u32;
    if 65 <= u && u <= 90 {
        (u + 32) as u32
    } else {
        u
    }
}

/// The code points of `s`, case-folded.
pub open spec fn folded(s: Seq<char>) -> Seq<u32> {
    s.map_values(|c: char| fold_code(c))
}

/// Code points that play no part in a comparison: `.`, `_`, `-`, ASCII
/// whitespace and, where digits are stripped, `0` to `9`.
pub open spec fn is_ignored(u: u32, strip_digits: bool) -> bool {
    ||| u == 46
    ||| u == 95
    ||| u == 45
    ||| u == 32
    ||| (9 <= u && u <= 13)
    ||| (strip_digits && 48 <= u && u <= 57)
}

/// `s` without its ignored code points, in order.
pub open spec fn squeezed(s: Seq<u32>, strip_digits: bool) -> Seq<u32>
    decreases s.len(),
{
    if s.len() == 0 {
        seq![]
    } else {
        let rest = squeezed(s.drop_last(), strip_digits);
        if is_ignored(s.last(), strip_digits) {
            rest
        } else {
            rest.push(s.last())
        }
    }
}

/// The normal form of a name or a query.
pub open spec fn normalized(s: Seq<char>, strip_digits: bool) -> Seq<u32> {
    squeezed(folded(s), strip_digits)
}

/// `needle` occurs in `hay` as a contiguous run.
pub open spec fn is_infix(needle: Seq<u32>, hay: Seq<u32>) -> bool {
    exists|k: int|
        0 <= k && k + needle.len() <= hay.len() && #[trigger] hay.subrange(k, k + needle.len())
            == needle
}

pub proof fn lemma_squeezed_concat(a: Seq<u32>, b: Seq<u32>, strip_digits: bool)
    ensures
        squeezed(a + b, strip_digits) == squeezed(a, strip_digits) + squeezed(b, strip_digits),
    decreases b.len(),
{
    if b.len() == 0 {
        assert(a + b =~= a);
        assert(squeezed(a, strip_digits) + squeezed(b, strip_digits) =~= squeezed(a, strip_digits));
    } else {
        assert((a + b).drop_last() =~= a + b.drop_last());
        lemma_squeezed_concat(a, b.drop_last(), strip_digits);
        let sa = squeezed(a, strip_digits);
        let sb = squeezed(b.drop_last(), strip_digits);
        if !is_ignored(b.last(), strip_digits) {
            assert(sa + sb.push(b.last()) =~= (sa + sb).push(b.last()));
        }
    }
}

/// An occurrence survives normalization: where `folded(q)` occurs in
/// `folded(s)`, `normalized(q)` occurs in `normalized(s)`.
pub proof fn lemma_infix_survives(q: Seq<char>, s: Seq<char>, strip_digits: bool)
    requires
        is_infix(folded(q), folded(s)),
    ensures
        is_infix(normalized(q, strip_digits), normalized(s, strip_digits)),
{
    let fq = folded(q);
    let fs = folded(s);
    let k = choose|k: int|
        0 <= k && k + fq.len() <= fs.len() && #[trigger] fs.subrange(k, k + fq.len()) == fq;
    let x = fs.subrange(0, k);
    let y = fs.subrange(k + fq.len(), fs.len() as int);
    assert(fs =~= x + fq + y);
    lemma_squeezed_concat(x + fq, y, strip_digits);
    lemma_squeezed_concat(x, fq, strip_digits);
    let sx = squeezed(x, strip_digits);
    let sq = squeezed(fq, strip_digits);
    let sy = squeezed(y, strip_digits);
    let whole = sx + sq + sy;
    assert(whole.subrange(sx.len() as int, (sx.len() + sq.len()) as int) =~= sq);
}

/// The case-folded code points of `s`.
pub fn fold(s: &str) -> (r: Vec<u32>)
    ensures
        r@ == folded(s@),
{
    let n = s.unicode_len();
    let mut r: Vec<u32> = Vec::new();
    let mut i: usize = 0;
    while i < n
        invariant
            n == s@.len(),
            i <= n,
            r@ == folded(s@.subrange(0, i as int)),
        decreases n - i,
    {
        let c = s.get_char(i);
        let u = c as u32;
        let f: u32 = if 65 <= u && u <= 90 {
            u + 32
        } else {
            u
        };
        r.push(f);
        i += 1;
        assert(r@ =~= folded(s@.subrange(0, i as int)));
    }
    assert(s@.subrange(0, n as int) =~= s@);
    r
}

/// Whether the code point `u` is ignored in comparisons.
pub fn ignored(u: u32, strip_digits: bool) -> (r: bool)
    ensures
        r == is_ignored(u, strip_digits),
{
    u == 46 || u == 95 || u == 45 || u == 32 || (9 <= u && u <= 13) || (strip_digits && 48 <= u
        && u <= 57)
}

/// `s` without the code points that play no part in a comparison.
pub fn squeeze(s: &Vec<u32>, strip_digits: bool) -> (r: Vec<u32>)
    ensures
        r@ == squeezed(s@, strip_digits),
{
    let mut r: Vec<u32> = Vec::new();
    let mut i: usize = 0;
    while i < s.len()
        invariant
            i <= s@.len(),
            r@ == squeezed(s@.subrange(0, i as int), strip_digits),
        decreases s@.len() - i,
    {
        let u = s[i];
        if !ignored(u, strip_digits) {
            r.push(u);
        }
        assert(s@.subrange(0, i + 1).drop_last() =~= s@.subrange(0, i as int));
        i += 1;
    }
    assert(s@.subrange(0, s@.len() as int) =~= s@);
    r
}

/// The normal form of `s`.
pub fn normalize(s: &str, strip_digits: bool) -> (r: Vec<u32>)
    ensures
        r@ == normalized(s@, strip_digits),
{
    let f = fold(s);
    squeeze(&f, strip_digits)
}

/// Whether `needle` occurs in `hay` as a contiguous run.
pub fn contains_run(hay: &Vec<u32>, needle: &Vec<u32>) -> (r: bool)
    ensures
        r == is_infix(needle@, hay@),
{
    let n = needle.len();
    if n > hay.len() {
        return false;
    }
    let h = hay.len();
    let last = h - n;
    let mut k: usize = 0;
    loop
        invariant
            n == needle@.len(),
            last + n == hay@.len(),
            h == hay@.len(),
            last + n == h,
            k <= last,
            forall|j: int| 0 <= j < k ==> #[trigger] hay@.subrange(j, j + n) != needle@,
        ensures
            forall|j: int| 0 <= j <= last ==> #[trigger] hay@.subrange(j, j + n) != needle@,
        decreases last - k,
    {
        let mut t: usize = 0;
        let mut same = true;
        while same && t < n
            invariant
                n == needle@.len(),
                k <= last,
                last + n == h,
                h == hay@.len(),
                t <= n,
                forall|p: int| 0 <= p < t ==> hay@[k + p] == needle@[p],
                !same ==> t < n && hay@[k + t] != needle@[t as int],
            decreases n - t + (if same { 1int } else { 0int }),
        {
            if hay[k + t] != needle[t] {
                same = false;
            } else {
                t += 1;
            }
        }
        if same {
            assert(hay@.subrange(k as int, k + n) =~= needle@);
            return true;
        }
        assert(hay@.subrange(k as int, k + n)[t as int] != needle@[t as int]);
        if k == last {
            break;
        }
        k += 1;
    }
    proof {
        assert forall|j: int| 0 <= j && j + needle@.len() <= hay@.len() implies #[trigger] hay@.subrange(j, j + needle@.len()) != needle@ by {
            assert(j <= last);
        }
    }
    false
}

} // verus!
