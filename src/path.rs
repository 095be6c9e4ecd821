//! A byte-string model of Unix paths: absoluteness, joining, ancestors,
//! and the containment relation that every deletion must respect.
use vstd::prelude::*;

verus! {

/// The path separator, `/`.
pub const SLASH: u8 = 0x2f;

pub open spec fn is_absolute(p: Seq<u8>) -> bool {
    p.len() > 0 && p[0] == SLASH
}

/// `p` with its trailing separators removed, keeping at least one byte.
pub open spec fn trimmed(p: Seq<u8>) -> Seq<u8>
    decreases p.len(),
{
    if p.len() > 1 && p.last() == SLASH {
        trimmed(p.drop_last())
    } else {
        p
    }
}

/// `c` is `root` itself or lies below it, compared component by component.
pub open spec fn lies_within(root: Seq<u8>, c: Seq<u8>) -> bool {
    let r = trimmed(root);
    c == r || (r.len() < c.len() && c.subrange(0, r.len() as int) == r && c[r.len() as int] == SLASH)
}

/// `root` joined with the relative path `p`, with one separator between them.
pub open spec fn joined(root: Seq<u8>, p: Seq<u8>) -> Seq<u8> {
    if root.len() > 0 && root.last() == SLASH {
        root + p
    } else {
        root + seq![SLASH] + p
    }
}

/// Position `i` of `p` ends a proper ancestor directory: a separator that
/// follows a non-separator and is followed by more of the path.
pub open spec fn is_cut(p: Seq<u8>, i: int) -> bool {
    0 < i && i + 1 < p.len() && p[i] == SLASH && p[i - 1] != SLASH
}

/// `d` is a proper, non-empty ancestor of the relative path `p`.
pub open spec fn is_ancestor(d: Seq<u8>, p: Seq<u8>) -> bool {
    exists|i: int| is_cut(p, i) && d == p.take(i)
}

/// `f` names the same entry as `root`: byte for byte, a whole trailing run of
/// its components. Separators are not normalised, so `a//b` does not name
/// `/x/a/b`: a manifest spelled otherwise than the root is refused.
pub open spec fn names_root(root: Seq<u8>, f: Seq<u8>) -> bool {
    let r = trimmed(root);
    let g = trimmed(f);
    !is_absolute(f) && g.len() > 0 && g.len() < r.len() && r.subrange(r.len() - g.len(), r.len() as int) == g
        && r[r.len() - g.len() - 1] == SLASH
}

proof fn lemma_trimmed_take(p: Seq<u8>, n: int)
    requires
        1 <= n <= p.len(),
        forall|k: int| n <= k < p.len() ==> p[k] == SLASH,
    ensures
        trimmed(p) == trimmed(p.take(n)),
    decreases p.len() - n,
{
    if n < p.len() {
        assert(p.drop_last() == p.take(p.len() - 1));
        lemma_trimmed_take(p.drop_last(), n);
        assert(p.drop_last().take(n) == p.take(n));
    } else {
        assert(p.take(n) == p);
    }
}

pub fn bytes_eq(a: &[u8], b: &[u8]) -> (r: bool)
    ensures
        r == (a@ == b@),
{
    if a.len() != b.len() {
        return false;
    }
    let mut i: usize = 0;
    while i < a.len()
        invariant
            a@.len() == b@.len(),
            i <= a@.len(),
            forall|k: int| 0 <= k < i ==> a@[k] == b@[k],
        decreases a@.len() - i,
    {
        if a[i] != b[i] {
            return false;
        }
        i = i + 1;
    }
    assert(a@ == b@);
    true
}

/// Copies the bytes `p[from..to]`.
pub fn copy_range(p: &[u8], from: usize, to: usize) -> (r: Vec<u8>)
    requires
        from <= to <= p@.len(),
    ensures
        r@ == p@.subrange(from as int, to as int),
{
    let mut r: Vec<u8> = Vec::new();
    let mut i: usize = from;
    while i < to
        invariant
            from <= i <= to <= p@.len(),
            r@ == p@.subrange(from as int, i as int),
        decreases to - i,
    {
        r.push(p[i]);
        i = i + 1;
    }
    r
}

/// The path without its trailing separators.
pub fn trim(p: &[u8]) -> (r: Vec<u8>)
    ensures
        r@ == trimmed(p@),
{
    if p.len() == 0 {
        return Vec::new();
    }
    let mut n: usize = p.len();
    while n > 1 && p[n - 1] == SLASH
        invariant
            1 <= n <= p@.len(),
            forall|k: int| n <= k < p@.len() ==> p@[k] == SLASH,
        decreases n,
    {
        n = n - 1;
    }
    proof {
        lemma_trimmed_take(p@, n as int);
    }
    copy_range(p, 0, n)
}

/// Whether `c` is `root` or lies below it.
pub fn is_within(root: &[u8], c: &[u8]) -> (r: bool)
    ensures
        r == lies_within(root@, c@),
{
    let t = trim(root);
    if bytes_eq(t.as_slice(), c) {
        return true;
    }
    if t.len() >= c.len() {
        return false;
    }
    let head = copy_range(c, 0, t.len());
    bytes_eq(t.as_slice(), head.as_slice()) && c[t.len()] == SLASH
}

/// `root` joined with `p`.
pub fn join(root: &[u8], p: &[u8]) -> (r: Vec<u8>)
    requires
        root@.len() + p@.len() + 1 <= usize::MAX,
    ensures
        r@ == joined(root@, p@),
{
    let mut r = copy_range(root, 0, root.len());
    assert(root@.subrange(0, root@.len() as int) == root@);
    if !(root.len() > 0 && root[root.len() - 1] == SLASH) {
        r.push(SLASH);
    }
    let ghost head = r@;
    let mut i: usize = 0;
    while i < p.len()
        invariant
            i <= p@.len(),
            r@ == head + p@.take(i as int),
        decreases p@.len() - i,
    {
        r.push(p[i]);
        i = i + 1;
        assert(p@.take(i as int) == p@.take(i - 1) + seq![p@[i - 1]]);
    }
    assert(p@.take(p@.len() as int) == p@);
    r
}

/// Whether `f` names the same entry as `root`.
pub fn is_name_of(root: &[u8], f: &[u8]) -> (r: bool)
    ensures
        r == names_root(root@, f@),
{
    if f.len() > 0 && f[0] == SLASH {
        return false;
    }
    let rt = trim(root);
    let g = trim(f);
    if g.len() == 0 || g.len() >= rt.len() {
        return false;
    }
    let start = rt.len() - g.len();
    let tail = copy_range(rt.as_slice(), start, rt.len());
    bytes_eq(tail.as_slice(), g.as_slice()) && rt[start - 1] == SLASH
}

} // verus!
