//! Absolute filesystem paths as plain data: a sequence of components, each a
//! sequence of raw bytes. The scanner compares, orders and extends such paths
//! without ever touching the filesystem itself.

use vstd::prelude::*;

verus! {

/// An absolute filesystem path, stored as the sequence of its components
/// below the filesystem root (an empty sequence is the root itself). Each
/// component holds the raw bytes of one path segment.
pub struct ScanPath {
    pub components: Vec<Vec<u8>>,
}

impl View for ScanPath {
    type V = Seq<Seq<u8>>;

    open spec fn view(&self) -> Seq<Seq<u8>> {
        self.components@.map_values(|c: Vec<u8>| c@)
    }
}

/// Strict lexicographic (shortlex-free, element-by-element) order on byte
/// sequences: a proper prefix comes before its extensions.
pub open spec fn bytes_lt(a: Seq<u8>, b: Seq<u8>) -> bool
    decreases b.len(),
{
    if b.len() == 0 {
        false
    } else if a.len() == 0 {
        true
    } else if a[0] < b[0] {
        true
    } else if b[0] < a[0] {
        false
    } else {
        bytes_lt(a.drop_first(), b.drop_first())
    }
}

/// Strict lexicographic order on paths: componentwise, with components
/// ordered by `bytes_lt`, and a proper prefix before its extensions.
pub open spec fn path_lt(a: Seq<Seq<u8>>, b: Seq<Seq<u8>>) -> bool
    decreases b.len(),
{
    if b.len() == 0 {
        false
    } else if a.len() == 0 {
        true
    } else if a[0] == b[0] {
        path_lt(a.drop_first(), b.drop_first())
    } else {
        bytes_lt(a[0], b[0])
    }
}

/// `a` names the same directory as `b` or an ancestor of it.
pub open spec fn is_prefix(a: Seq<Seq<u8>>, b: Seq<Seq<u8>>) -> bool {
    a.len() <= b.len() && a == b.subrange(0, a.len() as int)
}

/// `a` names a strict ancestor of `b`.
pub open spec fn is_strict_prefix(a: Seq<Seq<u8>>, b: Seq<Seq<u8>>) -> bool {
    is_prefix(a, b) && a.len() < b.len()
}

/// `bytes_lt` is a strict total order: exactly one of `a < b`, `b < a`,
/// `a == b` holds.
pub proof fn lemma_bytes_lt_trichotomy(a: Seq<u8>, b: Seq<u8>)
    ensures
        !(bytes_lt(a, b) && bytes_lt(b, a)),
        bytes_lt(a, b) || bytes_lt(b, a) || a == b,
        bytes_lt(a, b) ==> a != b,
    decreases a.len() + b.len(),
{
    if b.len() == 0 {
        if a.len() == 0 {
            assert(a =~= b);
        }
    } else if a.len() == 0 {
    } else if a[0] < b[0] {
    } else if b[0] < a[0] {
    } else {
        lemma_bytes_lt_trichotomy(a.drop_first(), b.drop_first());
        if !bytes_lt(a, b) && !bytes_lt(b, a) {
            assert(a.drop_first() == b.drop_first());
            assert(a =~= b) by {
                assert(forall|i: int|
                    1 <= i < a.len() ==> a[i] == a.drop_first()[i - 1] && b[i] == b.drop_first()[i
                        - 1]);
            }
        }
        if bytes_lt(a, b) && a == b {
            assert(bytes_lt(a.drop_first(), a.drop_first()));
        }
    }
}

/// `bytes_lt` is transitive.
pub proof fn lemma_bytes_lt_trans(a: Seq<u8>, b: Seq<u8>, c: Seq<u8>)
    requires
        bytes_lt(a, b),
        bytes_lt(b, c),
    ensures
        bytes_lt(a, c),
    decreases a.len() + b.len() + c.len(),
{
    if a.len() == 0 {
    } else {
        if a[0] == b[0] && b[0] == c[0] {
            lemma_bytes_lt_trans(a.drop_first(), b.drop_first(), c.drop_first());
        }
    }
}

/// `path_lt` is a strict total order on paths.
pub proof fn lemma_path_lt_trichotomy(a: Seq<Seq<u8>>, b: Seq<Seq<u8>>)
    ensures
        !(path_lt(a, b) && path_lt(b, a)),
        path_lt(a, b) || path_lt(b, a) || a == b,
        path_lt(a, b) ==> a != b,
    decreases a.len() + b.len(),
{
    if b.len() == 0 {
        if a.len() == 0 {
            assert(a =~= b);
        }
    } else if a.len() == 0 {
    } else if a[0] == b[0] {
        lemma_path_lt_trichotomy(a.drop_first(), b.drop_first());
        if !path_lt(a, b) && !path_lt(b, a) {
            assert(a.drop_first() == b.drop_first());
            assert(a =~= b) by {
                assert(forall|i: int|
                    1 <= i < a.len() ==> a[i] == a.drop_first()[i - 1] && b[i] == b.drop_first()[i
                        - 1]);
            }
        }
        if path_lt(a, b) && a == b {
            assert(path_lt(a.drop_first(), a.drop_first()));
        }
    } else {
        lemma_bytes_lt_trichotomy(a[0], b[0]);
    }
}

/// `path_lt` is transitive.
pub proof fn lemma_path_lt_trans(a: Seq<Seq<u8>>, b: Seq<Seq<u8>>, c: Seq<Seq<u8>>)
    requires
        path_lt(a, b),
        path_lt(b, c),
    ensures
        path_lt(a, c),
    decreases a.len() + b.len() + c.len(),
{
    if a.len() == 0 {
    } else {
        if a[0] == b[0] && b[0] == c[0] {
            lemma_path_lt_trans(a.drop_first(), b.drop_first(), c.drop_first());
        } else if a[0] == b[0] {
            // a[0] == b[0], bytes_lt(b[0], c[0])
        } else if b[0] == c[0] {
            // bytes_lt(a[0], b[0]) == bytes_lt(a[0], c[0])
        } else {
            lemma_bytes_lt_trans(a[0], b[0], c[0]);
            lemma_bytes_lt_trichotomy(a[0], c[0]);
        }
    }
}

/// Byte-for-byte copy of a byte vector.
pub fn clone_bytes(v: &Vec<u8>) -> (r: Vec<u8>)
    ensures
        r@ == v@,
{
    let mut r: Vec<u8> = Vec::new();
    let mut i: usize = 0;
    while i < v.len()
        invariant
            i <= v.len(),
            r@ =~= v@.subrange(0, i as int),
        decreases v.len() - i,
    {
        r.push(v[i]);
        i += 1;
    }
    proof {
        assert(r@ =~= v@);
    }
    r
}

impl Clone for ScanPath {
    /// The copy holds the same components.
    fn clone(&self) -> (r: Self)
        ensures
            r@ == self@,
    {
        let mut comps: Vec<Vec<u8>> = Vec::new();
        let mut i: usize = 0;
        while i < self.components.len()
            invariant
                i <= self.components.len(),
                comps@.len() == i as int,
                forall|k: int| 0 <= k < i ==> comps@[k]@ == self.components@[k]@,
            decreases self.components.len() - i,
        {
            comps.push(clone_bytes(&self.components[i]));
            i += 1;
        }
        let r = ScanPath { components: comps };
        proof {
            assert(r@ =~= self@);
        }
        r
    }
}

impl ScanPath {
    /// The path one component deeper, named `name`, below `self`.
    pub fn child(&self, name: Vec<u8>) -> (r: ScanPath)
        ensures
            r@ == self@.push(name@),
    {
        let mut r = self.clone();
        r.components.push(name);
        proof {
            assert(r@ =~= self@.push(name@));
        }
        r
    }

    /// Whether `prefix` names `self` or an ancestor of `self`.
    pub fn starts_with(&self, prefix: &ScanPath) -> (r: bool)
        ensures
            r == is_prefix(prefix@, self@),
    {
        let plen = prefix.components.len();
        if plen > self.components.len() {
            return false;
        }
        let mut i: usize = 0;
        while i < plen
            invariant
                i <= plen,
                plen == prefix.components.len(),
                plen <= self.components.len(),
                forall|k: int| 0 <= k < i ==> prefix@[k] == self@[k],
            decreases plen - i,
        {
            if !bytes_eq(&prefix.components[i], &self.components[i]) {
                proof {
                    if is_prefix(prefix@, self@) {
                        assert(prefix@[i as int] == self@.subrange(0, plen as int)[i as int]);
                    }
                }
                return false;
            }
            i += 1;
        }
        proof {
            assert(prefix@ =~= self@.subrange(0, plen as int));
        }
        true
    }

    /// Whether `self` lies strictly inside the directory `anc`.
    pub fn strictly_inside(&self, anc: &ScanPath) -> (r: bool)
        ensures
            r == is_strict_prefix(anc@, self@),
    {
        let sw = self.starts_with(anc);
        sw && anc.components.len() < self.components.len()
    }

    /// Strict lexicographic comparison, from component `i` on.
    fn lt_from(&self, other: &ScanPath, i: usize) -> (r: bool)
        requires
            i <= self.components.len(),
            i <= other.components.len(),
        ensures
            r == path_lt(self@.skip(i as int), other@.skip(i as int)),
        decreases self.components.len() - i,
    {
        proof {
            assert(self@.skip(i as int).len() == self@.len() - i);
            assert(other@.skip(i as int).len() == other@.len() - i);
        }
        if i == other.components.len() {
            false
        } else if i == self.components.len() {
            true
        } else {
            proof {
                assert(self@.skip(i as int)[0] == self@[i as int]);
                assert(other@.skip(i as int)[0] == other@[i as int]);
                assert(self@.skip(i as int).drop_first() =~= self@.skip(i as int + 1));
                assert(other@.skip(i as int).drop_first() =~= other@.skip(i as int + 1));
            }
            if bytes_eq(&self.components[i], &other.components[i]) {
                self.lt_from(other, i + 1)
            } else {
                bytes_lt_exec(&self.components[i], &other.components[i])
            }
        }
    }

    /// Whether `self` sorts strictly before `other`.
    pub fn lt(&self, other: &ScanPath) -> (r: bool)
        ensures
            r == path_lt(self@, other@),
    {
        proof {
            assert(self@.skip(0) =~= self@);
            assert(other@.skip(0) =~= other@);
        }
        self.lt_from(other, 0)
    }
}

/// Byte-for-byte equality of two byte vectors.
pub fn bytes_eq(a: &Vec<u8>, b: &Vec<u8>) -> (r: bool)
    ensures
        r == (a@ == b@),
{
    if a.len() != b.len() {
        return false;
    }
    let mut i: usize = 0;
    while i < a.len()
        invariant
            i <= a.len(),
            a.len() == b.len(),
            forall|k: int| 0 <= k < i ==> a@[k] == b@[k],
        decreases a.len() - i,
    {
        if a[i] != b[i] {
            return false;
        }
        i += 1;
    }
    proof {
        assert(a@ =~= b@);
    }
    true
}

/// Strict byte-sequence comparison, from byte `i` on.
fn bytes_lt_from(a: &Vec<u8>, b: &Vec<u8>, i: usize) -> (r: bool)
    requires
        i <= a.len(),
        i <= b.len(),
    ensures
        r == bytes_lt(a@.skip(i as int), b@.skip(i as int)),
    decreases a.len() - i,
{
    if i == b.len() {
        false
    } else if i == a.len() {
        true
    } else {
        proof {
            assert(a@.skip(i as int)[0] == a@[i as int]);
            assert(b@.skip(i as int)[0] == b@[i as int]);
            assert(a@.skip(i as int).drop_first() =~= a@.skip(i as int + 1));
            assert(b@.skip(i as int).drop_first() =~= b@.skip(i as int + 1));
        }
        if a[i] < b[i] {
            true
        } else if b[i] < a[i] {
            false
        } else {
            bytes_lt_from(a, b, i + 1)
        }
    }
}

/// Whether `a` sorts strictly before `b` as byte sequences.
pub fn bytes_lt_exec(a: &Vec<u8>, b: &Vec<u8>) -> (r: bool)
    ensures
        r == bytes_lt(a@, b@),
{
    proof {
        assert(a@.skip(0) =~= a@);
        assert(b@.skip(0) =~= b@);
    }
    bytes_lt_from(a, b, 0)
}

/// Whether two paths are equal.
pub fn path_eq(a: &ScanPath, b: &ScanPath) -> (r: bool)
    ensures
        r == (a@ == b@),
{
    let r = a.starts_with(b) && a.components.len() == b.components.len();
    proof {
        if r {
            assert(a@ =~= a@.subrange(0, a@.len() as int));
        } else if a@ == b@ {
            assert(b@ =~= a@.subrange(0, b@.len() as int));
        }
    }
    r
}

} // verus!
