//! Splitting request paths into their non-empty segments.
use vstd::prelude::*;

verus! {

/// The byte `/` that separates path segments.
pub const SEPARATOR: u8 = 47;

/// The byte `{` that opens a parameter segment.
pub const PARAM_OPEN: u8 = 123;

/// The byte `}` that closes a parameter segment.
pub const PARAM_CLOSE: u8 = 125;

/// Left-to-right scan state after reading `p`: the finished non-empty
/// segments and the segment still being read.
pub open spec fn scan(p: Seq<u8>) -> (Seq<Seq<u8>>, Seq<u8>)
    decreases p.len(),
{
    if p.len() == 0 {
        (Seq::empty(), Seq::empty())
    } else {
        let (done, cur) = scan(p.drop_last());
        if p.last() == SEPARATOR {
            if cur.len() == 0 {
                (done, Seq::empty())
            } else {
                (done.push(cur), Seq::empty())
            }
        } else {
            (done, cur.push(p.last()))
        }
    }
}

/// The non-empty `/`-separated segments of `p`, in order.
pub open spec fn segments(p: Seq<u8>) -> Seq<Seq<u8>> {
    let (done, cur) = scan(p);
    if cur.len() == 0 {
        done
    } else {
        done.push(cur)
    }
}

/// A segment written `{name}` stands for a parameter.
pub open spec fn is_param(s: Seq<u8>) -> bool {
    s.len() >= 2 && s[0] == PARAM_OPEN && s.last() == PARAM_CLOSE
}

/// The name inside the braces of a parameter segment.
pub open spec fn param_name(s: Seq<u8>) -> Seq<u8> {
    s.subrange(1, s.len() - 1)
}

/// Reading the same suffix from equal scan states gives equal states.
proof fn lemma_scan_extend(x: Seq<u8>, y: Seq<u8>, q: Seq<u8>)
    requires
        scan(x) == scan(y),
    ensures
        scan(x + q) == scan(y + q),
    decreases q.len(),
{
    if q.len() == 0 {
        assert(x + q =~= x);
        assert(y + q =~= y);
    } else {
        lemma_scan_extend(x, y, q.drop_last());
        assert((x + q).drop_last() =~= x + q.drop_last());
        assert((y + q).drop_last() =~= y + q.drop_last());
    }
}

/// A separator doubled anywhere in a path, or added at its end, leaves its
/// segments unchanged: `/a/b`, `/a//b` and `/a/b/` have the same segments.
pub proof fn lemma_segments_normalized(p: Seq<u8>, q: Seq<u8>)
    ensures
        segments(p + seq![SEPARATOR, SEPARATOR] + q) == segments(p + seq![SEPARATOR] + q),
        segments(p.push(SEPARATOR)) == segments(p),
{
    let one = p.push(SEPARATOR);
    let two = one.push(SEPARATOR);
    assert(two.drop_last() =~= one);
    assert(one.drop_last() =~= p);
    assert(scan(two) == scan(one));
    assert(p + seq![SEPARATOR, SEPARATOR] =~= two);
    assert(p + seq![SEPARATOR] =~= one);
    lemma_scan_extend(two, one, q);
}

/// The non-empty segments of `path`.
pub fn split_segments(path: &[u8]) -> (r: Vec<Vec<u8>>)
    ensures
        r@.map_values(|v: Vec<u8>| v@) == segments(path@),
{
    let mut done: Vec<Vec<u8>> = Vec::new();
    let mut cur: Vec<u8> = Vec::new();
    let mut i: usize = 0;
    while i < path.len()
        invariant
            i <= path@.len(),
            scan(path@.subrange(0, i as int)) == (done@.map_values(|v: Vec<u8>| v@), cur@),
        decreases path@.len() - i,
    {
        let b = path[i];
        proof {
            let p = path@.subrange(0, i as int + 1);
            assert(p.drop_last() =~= path@.subrange(0, i as int));
        }
        if b == SEPARATOR {
            if cur.len() > 0 {
                let seg = cur;
                done.push(seg);
                cur = Vec::new();
                assert(done@.map_values(|v: Vec<u8>| v@) =~= scan(path@.subrange(0, i as int)).0.push(seg@));
            }
        } else {
            cur.push(b);
        }
        i = i + 1;
    }
    assert(path@.subrange(0, i as int) =~= path@);
    if cur.len() > 0 {
        let seg = cur;
        done.push(seg);
        assert(done@.map_values(|v: Vec<u8>| v@) =~= scan(path@).0.push(seg@));
    }
    done
}

} // verus!

verus! {

/// Whether two byte strings are equal.
pub fn bytes_eq(a: &[u8], b: &[u8]) -> (r: bool)
    ensures
        r == (a@ == b@),
{
    if a.len() != b.len() {
        return false;
    }
    let mut i: usize = 0;
    while i < a.len()
        invariant
            a@.len() == b@.len(),
            i <= a@.len(),
            forall|j: int| 0 <= j < i ==> a@[j] == b@[j],
        decreases a@.len() - i,
    {
        if a[i] != b[i] {
            return false;
        }
        i = i + 1;
    }
    assert(a@ =~= b@);
    true
}

/// Whether `s` is written `{name}`.
pub fn segment_is_param(s: &[u8]) -> (r: bool)
    ensures
        r == is_param(s@),
{
    s.len() >= 2 && s[0] == PARAM_OPEN && s[s.len() - 1] == PARAM_CLOSE
}

/// The name inside the braces of a parameter segment.
pub fn segment_param_name(s: &[u8]) -> (r: Vec<u8>)
    requires
        is_param(s@),
    ensures
        r@ == param_name(s@),
{
    let mut r: Vec<u8> = Vec::new();
    let mut i: usize = 1;
    while i < s.len() - 1
        invariant
            1 <= i <= s@.len() - 1,
            s@.len() >= 2,
            r@ == s@.subrange(1, i as int),
        decreases s@.len() - i,
    {
        r.push(s[i]);
        i = i + 1;
        assert(r@ =~= s@.subrange(1, i as int));
    }
    r
}

} // verus!
