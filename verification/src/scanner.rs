//! The repository-discovery traversal, as a verified work-list state machine.
//!
//! The caller owns the filesystem: it pops pending directories, gathers the
//! plain observations about each one (best-effort canonical form, whether it
//! is a directory, its listing), and feeds them in. Every decision — marker
//! detection, containment pruning, accumulation, the no-nested-roots
//! invariant and the final ordering — is made and proved here.

use vstd::prelude::*;

use crate::path::ScanPath;
use crate::path::bytes_eq;
use crate::path::clone_bytes;
use crate::path::is_prefix;
use crate::path::is_strict_prefix;
use crate::path::lemma_path_lt_trans;
use crate::path::lemma_path_lt_trichotomy;
use crate::path::path_lt;

verus! {

/// The reserved directory name whose presence marks its parent as a
/// repository root: ".git".
pub open spec fn marker_name() -> Seq<u8> {
    seq![46u8, 103u8, 105u8, 116u8]
}

/// The marker name as a byte vector.
pub fn marker_vec() -> (r: Vec<u8>)
    ensures
        r@ == marker_name(),
{
    let mut v: Vec<u8> = Vec::new();
    v.push(46u8);
    v.push(103u8);
    v.push(105u8);
    v.push(116u8);
    proof {
        assert(v@ =~= marker_name());
    }
    v
}

/// A directory named like the marker, and confirmed to be a directory,
/// claims its parent as a repository root.
pub open spec fn is_marker_dir(p: Seq<Seq<u8>>, is_dir: bool) -> bool {
    is_dir && p.len() > 0 && p.last() == marker_name()
}

/// One immediate entry of a directory, as the traversal needs it: its name
/// and whether it is a symbolic link or a directory.
pub struct EntryInfo {
    pub name: Vec<u8>,
    pub is_symlink: bool,
    pub is_dir: bool,
}

/// What listing a directory produced: its entries, or a permission denial
/// (which the scan absorbs as an empty subtree). Any other listing failure
/// aborts the scan and is never fed in.
pub enum DirListing {
    Entries(Vec<EntryInfo>),
    PermissionDenied,
}

/// What the scanner asks of the caller for the directory just visited.
#[derive(Clone, Copy, PartialEq, Eq, Structural, Debug)]
pub enum VisitDecision {
    /// List the directory and feed the listing to `offer_listing`.
    Descend,
    /// The branch is finished: do not read the directory's contents.
    Skip,
}

/// Whether some recorded root path equals `q`.
pub open spec fn has_root(repos: Seq<ScanPath>, q: Seq<Seq<u8>>) -> bool {
    exists|i: int| 0 <= i < repos.len() && repos[i]@ == q
}

/// Whether `p` lies strictly inside some recorded root.
pub open spec fn inside_claimed(repos: Seq<ScanPath>, p: Seq<Seq<u8>>) -> bool {
    exists|i: int| 0 <= i < repos.len() && is_strict_prefix(repos[i]@, p)
}

/// Whether some recorded root equals `p` or is an ancestor of it.
pub open spec fn covered(repos: Seq<ScanPath>, p: Seq<Seq<u8>>) -> bool {
    exists|i: int| 0 <= i < repos.len() && is_prefix(repos[i]@, p)
}

/// How recording the repository root `p` changes the accumulated roots: if
/// `p` is already covered by a recorded root (equal to it or inside it),
/// nothing changes; otherwise `p` enters and every recorded root strictly
/// inside `p` leaves, so that no root ever lies inside another.
pub open spec fn record_post(
    old_repos: Seq<ScanPath>,
    new_repos: Seq<ScanPath>,
    p: Seq<Seq<u8>>,
) -> bool {
    if covered(old_repos, p) {
        new_repos == old_repos
    } else {
        forall|q: Seq<Seq<u8>>|
            #![trigger has_root(new_repos, q)]
            #![trigger has_root(old_repos, q)]
            has_root(new_repos, q) <==> ((has_root(old_repos, q) && !is_strict_prefix(p, q)) || q
                == p)
    }
}

/// In a walk that records exactly one repository root, the result is exact:
/// when the accumulator is still empty and one root `p` (a marker's
/// canonicalized parent) is recorded, the accumulator holds `p` and nothing
/// else.
pub proof fn lemma_sole_record_is_exact(
    old_repos: Seq<ScanPath>,
    new_repos: Seq<ScanPath>,
    p: Seq<Seq<u8>>,
)
    requires
        old_repos.len() == 0,
        record_post(old_repos, new_repos, p),
    ensures
        forall|q: Seq<Seq<u8>>| #![trigger has_root(new_repos, q)] has_root(new_repos, q) <==> q
            == p,
{
    assert(!covered(old_repos, p));
    assert forall|q: Seq<Seq<u8>>| #![trigger has_root(new_repos, q)] has_root(new_repos, q) <==> q
        == p by {
        assert(!has_root(old_repos, q));
        assert(has_root(new_repos, q) <==> ((has_root(old_repos, q) && !is_strict_prefix(p, q))
            || q == p));
    }
}

/// The membership of `has_root` after a push.
pub proof fn lemma_has_root_push(s: Seq<ScanPath>, x: ScanPath, q: Seq<Seq<u8>>)
    ensures
        has_root(s.push(x), q) <==> (has_root(s, q) || x@ == q),
{
    if has_root(s.push(x), q) {
        let i = choose|i: int| 0 <= i < s.push(x).len() && s.push(x)[i]@ == q;
        if i < s.len() {
            assert(s.push(x)[i] == s[i]);
            assert(has_root(s, q));
        } else {
            assert(s.push(x)[i] == x);
        }
    }
    if has_root(s, q) {
        let i = choose|i: int| 0 <= i < s.len() && s[i]@ == q;
        assert(s.push(x)[i] == s[i]);
        assert(has_root(s.push(x), q));
    }
    if x@ == q {
        assert(s.push(x)[s.len() as int] == x);
        assert(has_root(s.push(x), q));
    }
}

/// The view of each path in a sequence of paths.
pub open spec fn paths_view(s: Seq<ScanPath>) -> Seq<Seq<Seq<u8>>> {
    s.map_values(|p: ScanPath| p@)
}

/// The subdirectory paths that a listing contributes to the work list: one
/// child path per entry that is a directory and not a symbolic link, in
/// listing order. Symbolic links and non-directories contribute nothing.
pub open spec fn children_of(cur: Seq<Seq<u8>>, es: Seq<EntryInfo>) -> Seq<Seq<Seq<u8>>>
    decreases es.len(),
{
    if es.len() == 0 {
        Seq::empty()
    } else {
        let rest = children_of(cur, es.drop_last());
        if es.last().is_dir && !es.last().is_symlink {
            rest.push(cur.push(es.last().name@))
        } else {
            rest
        }
    }
}

/// Every path the listing contributes is the child, by one of the listed
/// entries, of the listed directory — and only entries that are directories
/// and not symbolic links contribute.
pub proof fn lemma_children_are_nonlink_dirs(cur: Seq<Seq<u8>>, es: Seq<EntryInfo>, j: int)
    requires
        0 <= j < children_of(cur, es).len(),
    ensures
        exists|k: int|
            0 <= k < es.len() && es[k].is_dir && !es[k].is_symlink && children_of(cur, es)[j]
                == cur.push(es[k].name@),
    decreases es.len(),
{
    let cs = children_of(cur, es);
    if es.len() > 0 {
        let rest = children_of(cur, es.drop_last());
        if es.last().is_dir && !es.last().is_symlink {
            if j < rest.len() {
                lemma_children_are_nonlink_dirs(cur, es.drop_last(), j);
                let k = choose|k: int|
                    0 <= k < es.drop_last().len() && es.drop_last()[k].is_dir
                        && !es.drop_last()[k].is_symlink && children_of(cur, es.drop_last())[j]
                        == cur.push(es.drop_last()[k].name@);
                assert(es[k] == es.drop_last()[k]);
                assert(cs[j] == rest[j]);
            } else {
                assert(cs[j] == cur.push(es[es.len() - 1].name@));
            }
        } else {
            lemma_children_are_nonlink_dirs(cur, es.drop_last(), j);
            let k = choose|k: int|
                0 <= k < es.drop_last().len() && es.drop_last()[k].is_dir
                    && !es.drop_last()[k].is_symlink && children_of(cur, es.drop_last())[j]
                    == cur.push(es.drop_last()[k].name@);
            assert(es[k] == es.drop_last()[k]);
        }
    }
}

/// One repository scan in flight: the directories still to visit and the
/// repository roots recorded so far.
pub struct Scanner {
    /// Repository roots discovered so far, kept sorted and free of any pair
    /// where one root lies inside the other.
    pub repos: Vec<ScanPath>,
    /// Directories not yet visited, last to be visited first.
    pub stack: Vec<ScanPath>,
}

impl Scanner {
    /// The accumulator invariant: roots are strictly sorted, and no root is
    /// equal to or an ancestor of another.
    pub open spec fn repos_wf(self) -> bool {
        &&& forall|a: int, b: int|
            0 <= a < b < self.repos@.len() ==> path_lt(self.repos@[a]@, self.repos@[b]@)
        &&& forall|a: int, b: int|
            0 <= a < self.repos@.len() && 0 <= b < self.repos@.len() && a != b ==> !is_prefix(
                self.repos@[a]@,
                self.repos@[b]@,
            )
    }

    /// Whether `p` equals some recorded root or lies inside one.
    fn covered_by(&self, p: &ScanPath) -> (r: bool)
        ensures
            r == covered(self.repos@, p@),
    {
        let mut i: usize = 0;
        while i < self.repos.len()
            invariant
                i <= self.repos@.len(),
                forall|k: int| 0 <= k < i ==> !is_prefix(self.repos@[k]@, p@),
            decreases self.repos@.len() - i,
        {
            if p.starts_with(&self.repos[i]) {
                return true;
            }
            i += 1;
        }
        false
    }

    /// Whether `p` lies strictly inside some recorded root.
    fn inside_any(&self, p: &ScanPath) -> (r: bool)
        ensures
            r == inside_claimed(self.repos@, p@),
    {
        let mut i: usize = 0;
        while i < self.repos.len()
            invariant
                i <= self.repos@.len(),
                forall|k: int| 0 <= k < i ==> !is_strict_prefix(self.repos@[k]@, p@),
            decreases self.repos@.len() - i,
        {
            if p.strictly_inside(&self.repos[i]) {
                return true;
            }
            i += 1;
        }
        false
    }

    /// Drop every recorded root that lies strictly inside `p`, keeping the
    /// rest in order.
    fn prune_descendants(&mut self, p: &ScanPath)
        requires
            old(self).repos_wf(),
        ensures
            final(self).repos_wf(),
            final(self).stack == old(self).stack,
            forall|q: Seq<Seq<u8>>|
                #![trigger has_root(final(self).repos@, q)]
                #![trigger has_root(old(self).repos@, q)]
                has_root(final(self).repos@, q) <==> (has_root(old(self).repos@, q)
                    && !is_strict_prefix(p@, q)),
    {
        let ghost orig = self.repos@;
        let n = self.repos.len();
        let mut out: Vec<ScanPath> = Vec::new();
        let mut i: usize = 0;
        while i < n
            invariant
                i <= n,
                n == self.repos@.len(),
                self.repos@ == orig,
                self.stack == old(self).stack,
                old(self).repos_wf(),
                self.repos == old(self).repos,
                forall|a: int, b: int| 0 <= a < b < out@.len() ==> path_lt(out@[a]@, out@[b]@),
                forall|a: int|
                    #![trigger out@[a]]
                    0 <= a < out@.len() ==> exists|k: int| 0 <= k < i && out@[a]@ == orig[k]@,
                forall|q: Seq<Seq<u8>>|
                    #![trigger has_root(out@, q)]
                    has_root(out@, q) <==> exists|k: int|
                        0 <= k < i && orig[k]@ == q && !is_strict_prefix(p@, q),
            decreases n - i,
        {
            let keep = !self.repos[i].strictly_inside(p);
            let ghost pre = out@;
            if keep {
                let x = self.repos[i].clone();
                proof {
                    assert forall|a: int| 0 <= a < pre.len() implies path_lt(pre[a]@, x@) by {
                        let k = choose|k: int| 0 <= k < i && pre[a]@ == orig[k]@;
                        assert(path_lt(orig[k]@, orig[i as int]@));
                    }
                }
                out.push(x);
                proof {
                    assert(out@ == pre.push(x));
                    assert forall|a: int, b: int| 0 <= a < b < out@.len() implies path_lt(
                        out@[a]@,
                        out@[b]@,
                    ) by {
                        if b < pre.len() {
                            assert(out@[a] == pre[a] && out@[b] == pre[b]);
                        } else {
                            assert(out@[b] == x);
                            assert(out@[a] == pre[a]);
                        }
                    }
                    assert forall|a: int|
                        #![trigger out@[a]]
                        0 <= a < out@.len() implies exists|k: int|
                        0 <= k < i + 1 && out@[a]@ == orig[k]@ by {
                        if a < pre.len() {
                            assert(out@[a] == pre[a]);
                            let k = choose|k: int| 0 <= k < i && pre[a]@ == orig[k]@;
                            assert(0 <= k < i + 1 && out@[a]@ == orig[k]@);
                        } else {
                            assert(out@[a] == x);
                            assert(out@[a]@ == orig[i as int]@);
                        }
                    }
                    assert forall|q: Seq<Seq<u8>>|
                        #![trigger has_root(out@, q)]
                        has_root(out@, q) <==> exists|k: int|
                            0 <= k < i + 1 && orig[k]@ == q && !is_strict_prefix(p@, q) by {
                        lemma_has_root_push(pre, x, q);
                        if has_root(out@, q) {
                            if has_root(pre, q) {
                                let k = choose|k: int|
                                    0 <= k < i && orig[k]@ == q && !is_strict_prefix(p@, q);
                                assert(0 <= k < i + 1 && orig[k]@ == q && !is_strict_prefix(p@, q));
                            } else {
                                assert(q == x@);
                                assert(orig[i as int]@ == q && !is_strict_prefix(p@, q));
                            }
                        }
                        if exists|k: int| 0 <= k < i + 1 && orig[k]@ == q && !is_strict_prefix(p@, q) {
                            let k = choose|k: int|
                                0 <= k < i + 1 && orig[k]@ == q && !is_strict_prefix(p@, q);
                            if k < i {
                                assert(has_root(pre, q));
                            } else {
                                assert(x@ == q);
                            }
                            assert(has_root(out@, q));
                        }
                    }
                }
            } else {
                proof {
                    assert forall|q: Seq<Seq<u8>>|
                        #![trigger has_root(out@, q)]
                        has_root(out@, q) <==> exists|k: int|
                            0 <= k < i + 1 && orig[k]@ == q && !is_strict_prefix(p@, q) by {
                        if exists|k: int| 0 <= k < i + 1 && orig[k]@ == q && !is_strict_prefix(p@, q) {
                            let k = choose|k: int|
                                0 <= k < i + 1 && orig[k]@ == q && !is_strict_prefix(p@, q);
                            assert(k < i);
                            assert(has_root(out@, q));
                        }
                    }
                }
            }
            i += 1;
        }
        self.repos = out;
        proof {
            assert forall|a: int, b: int|
                0 <= a < self.repos@.len() && 0 <= b < self.repos@.len() && a != b implies !is_prefix(
                self.repos@[a]@,
                self.repos@[b]@,
            ) by {
                let s = self.repos@;
                if a < b {
                    lemma_path_lt_trichotomy(s[a]@, s[b]@);
                } else {
                    lemma_path_lt_trichotomy(s[b]@, s[a]@);
                }
                let ka = choose|k: int| 0 <= k < n && s[a]@ == orig[k]@;
                let kb = choose|k: int| 0 <= k < n && s[b]@ == orig[k]@;
                assert(s[a]@ != s[b]@);
                assert(ka != kb);
                assert(!is_prefix(orig[ka]@, orig[kb]@));
            }
            assert forall|q: Seq<Seq<u8>>|
                #![trigger has_root(self.repos@, q)]
                #![trigger has_root(orig, q)]
                has_root(self.repos@, q) <==> (has_root(orig, q) && !is_strict_prefix(
                    p@,
                    q,
                )) by {
                if has_root(orig, q) && !is_strict_prefix(p@, q) {
                    let k = choose|k: int| 0 <= k < orig.len() && orig[k]@ == q;
                    assert(0 <= k < n && orig[k]@ == q && !is_strict_prefix(p@, q));
                    assert(has_root(self.repos@, q));
                }
                if has_root(self.repos@, q) {
                    let k = choose|k: int| 0 <= k < n && orig[k]@ == q && !is_strict_prefix(p@, q);
                    assert(has_root(orig, q));
                }
            }
        }
    }

    /// Insert a root that is unrelated (neither ancestor, descendant nor
    /// equal) to every recorded root, at its sorted position.
    fn insert_sorted(&mut self, p: ScanPath)
        requires
            old(self).repos_wf(),
            forall|k: int| 0 <= k < old(self).repos@.len() ==> !is_prefix(old(self).repos@[k]@, p@),
            forall|k: int|
                0 <= k < old(self).repos@.len() ==> !is_strict_prefix(p@, old(self).repos@[k]@),
        ensures
            final(self).repos_wf(),
            final(self).stack == old(self).stack,
            forall|q: Seq<Seq<u8>>|
                #![trigger has_root(final(self).repos@, q)]
                #![trigger has_root(old(self).repos@, q)]
                has_root(final(self).repos@, q) <==> (has_root(old(self).repos@, q) || q == p@),
    {
        let ghost orig = self.repos@;
        let n = self.repos.len();
        let mut i: usize = 0;
        while i < n
            invariant_except_break
                i <= n,
                n == self.repos@.len(),
                self.repos == old(self).repos,
                self.stack == old(self).stack,
                forall|k: int| 0 <= k < i ==> path_lt(self.repos@[k]@, p@),
            ensures
                i <= n,
                n == self.repos@.len(),
                self.repos == old(self).repos,
                self.stack == old(self).stack,
                forall|k: int| 0 <= k < i ==> path_lt(self.repos@[k]@, p@),
                i < n ==> !path_lt(self.repos@[i as int]@, p@),
            decreases n - i,
        {
            if !self.repos[i].lt(&p) {
                break ;
            }
            i += 1;
        }
        proof {
            if i < n {
                lemma_path_lt_trichotomy(orig[i as int]@, p@);
                if orig[i as int]@ == p@ {
                    assert(p@ =~= p@.subrange(0, p@.len() as int));
                    assert(is_prefix(orig[i as int]@, p@));
                }
                assert(path_lt(p@, orig[i as int]@));
                assert forall|k: int| i < k < n implies path_lt(p@, orig[k]@) by {
                    assert(path_lt(orig[i as int]@, orig[k]@));
                    lemma_path_lt_trans(p@, orig[i as int]@, orig[k]@);
                }
            }
        }
        let ghost pv = p@;
        self.repos.insert(i, p);
        proof {
            orig.insert_ensures(i as int, p);
            let s = self.repos@;
            assert(s == orig.insert(i as int, p));
            assert forall|a: int, b: int| 0 <= a < b < s.len() implies path_lt(s[a]@, s[b]@) by {
                if b < i {
                    assert(s[a] == orig[a] && s[b] == orig[b]);
                } else if b == i {
                    assert(s[b]@ == pv);
                    assert(s[a] == orig[a]);
                } else {
                    assert(s[b] == orig[b - 1]);
                    if a < i {
                        assert(s[a] == orig[a]);
                        assert(path_lt(orig[a]@, orig[b - 1]@));
                    } else if a == i {
                        assert(s[a]@ == pv);
                    } else {
                        assert(s[a] == orig[a - 1]);
                        assert(path_lt(orig[a - 1]@, orig[b - 1]@));
                    }
                }
            }
            assert forall|a: int, b: int|
                0 <= a < s.len() && 0 <= b < s.len() && a != b implies !is_prefix(
                s[a]@,
                s[b]@,
            ) by {
                if a == i {
                    assert(s[a]@ == pv);
                    let ob = if b < i { b } else { b - 1 };
                    assert(s[b] == orig[ob]);
                    if is_prefix(pv, orig[ob]@) {
                        if pv.len() < orig[ob]@.len() {
                            assert(is_strict_prefix(pv, orig[ob]@));
                        } else {
                            assert(pv =~= orig[ob]@);
                            assert(orig[ob]@ =~= pv.subrange(0, orig[ob]@.len() as int));
                            assert(is_prefix(orig[ob]@, pv));
                        }
                    }
                } else if b == i {
                    assert(s[b]@ == pv);
                    let oa = if a < i { a } else { a - 1 };
                    assert(s[a] == orig[oa]);
                    assert(!is_prefix(orig[oa]@, pv));
                } else {
                    let oa = if a < i { a } else { a - 1 };
                    let ob = if b < i { b } else { b - 1 };
                    assert(s[a] == orig[oa] && s[b] == orig[ob]);
                    assert(oa != ob);
                    assert(!is_prefix(orig[oa]@, orig[ob]@));
                }
            }
            assert forall|q: Seq<Seq<u8>>|
                #![trigger has_root(s, q)]
                #![trigger has_root(orig, q)]
                has_root(s, q) <==> (has_root(orig, q) || q == pv) by {
                if has_root(s, q) {
                    let j = choose|j: int| 0 <= j < s.len() && s[j]@ == q;
                    if j < i {
                        assert(s[j] == orig[j]);
                        assert(has_root(orig, q));
                    } else if j == i {
                        assert(q == pv);
                    } else {
                        assert(s[j] == orig[j - 1]);
                        assert(has_root(orig, q));
                    }
                }
                if has_root(orig, q) {
                    let k = choose|k: int| 0 <= k < orig.len() && orig[k]@ == q;
                    if k < i {
                        assert(s[k] == orig[k]);
                    } else {
                        assert(s[k + 1] == orig[k]);
                    }
                    assert(has_root(s, q));
                }
                if q == pv {
                    assert(s[i as int]@ == q);
                    assert(has_root(s, q));
                }
            }
        }
    }

    /// Record a newly discovered repository root.
    fn record(&mut self, p: ScanPath)
        requires
            old(self).repos_wf(),
        ensures
            final(self).repos_wf(),
            final(self).stack == old(self).stack,
            record_post(old(self).repos@, final(self).repos@, p@),
    {
        let ghost orig = self.repos@;
        if self.covered_by(&p) {
            return ;
        }
        self.prune_descendants(&p);
        let ghost mid = self.repos@;
        proof {
            assert forall|k: int| 0 <= k < mid.len() implies !is_prefix(mid[k]@, p@)
                && !is_strict_prefix(p@, mid[k]@) by {
                assert(has_root(mid, mid[k]@));
                if is_prefix(mid[k]@, p@) {
                    let j = choose|j: int| 0 <= j < orig.len() && orig[j]@ == mid[k]@;
                    assert(is_prefix(orig[j]@, p@));
                    assert(covered(orig, p@));
                }
            }
        }
        self.insert_sorted(p);
        proof {
            assert forall|q: Seq<Seq<u8>>|
                #![trigger has_root(self.repos@, q)]
                #![trigger has_root(orig, q)]
                has_root(self.repos@, q) <==> ((has_root(orig, q) && !is_strict_prefix(p@, q)) || q
                    == p@) by {
                assert(has_root(self.repos@, q) <==> (has_root(mid, q) || q == p@));
                assert(has_root(mid, q) <==> (has_root(orig, q) && !is_strict_prefix(p@, q)));
            }
        }
    }

    /// Take the next directory to visit, if any remains.
    pub fn take_pending(&mut self) -> (r: Option<ScanPath>)
        ensures
            final(self).repos == old(self).repos,
            old(self).stack@.len() == 0 ==> r is None && final(self).stack@ == old(self).stack@,
            old(self).stack@.len() > 0 ==> r == Some(old(self).stack@.last())
                && final(self).stack@ == old(self).stack@.drop_last(),
    {
        self.stack.pop()
    }

    /// Decide what to do with the directory `current`, just taken from the
    /// work list. `current_canonical` is the caller's best-effort canonical
    /// form of `current` (`current` itself where canonicalization failed),
    /// `current_is_dir` says whether `current` is a directory, and
    /// `parent_canonical` is the best-effort canonical form of `current`'s
    /// parent (unused unless `current` is a marker directory).
    ///
    /// A marker directory claims `parent_canonical` as a repository root and
    /// ends the branch; a directory strictly inside an already-claimed root
    /// ends the branch unread; anything else is descended into.
    pub fn visit(
        &mut self,
        current: &ScanPath,
        current_canonical: &ScanPath,
        current_is_dir: bool,
        parent_canonical: &ScanPath,
    ) -> (d: VisitDecision)
        requires
            old(self).repos_wf(),
        ensures
            final(self).repos_wf(),
            final(self).stack == old(self).stack,
            is_marker_dir(current@, current_is_dir) ==> d == VisitDecision::Skip && record_post(
                old(self).repos@,
                final(self).repos@,
                parent_canonical@,
            ),
            !is_marker_dir(current@, current_is_dir) && inside_claimed(
                old(self).repos@,
                current_canonical@,
            ) ==> d == VisitDecision::Skip && final(self).repos == old(self).repos,
            !is_marker_dir(current@, current_is_dir) && !inside_claimed(
                old(self).repos@,
                current_canonical@,
            ) ==> d == VisitDecision::Descend && final(self).repos == old(self).repos,
    {
        let n = current.components.len();
        let marker = current_is_dir && n > 0 && bytes_eq(
            &current.components[n - 1],
            &marker_vec(),
        );
        proof {
            if n > 0 {
                assert(current@.last() == current@[n - 1]);
            }
            assert(marker == is_marker_dir(current@, current_is_dir));
        }
        if marker {
            let rp = parent_canonical.clone();
            self.record(rp);
            VisitDecision::Skip
        } else if self.inside_any(current_canonical) {
            VisitDecision::Skip
        } else {
            VisitDecision::Descend
        }
    }

    /// Feed in what listing `current` produced. A permission denial leaves
    /// the scan exactly as it was — the subtree counts as empty and
    /// contributes nothing. A listing extends the work list with one child
    /// path per entry that is a directory and not a symbolic link; symbolic
    /// links are never followed, and plain files are ignored. The recorded
    /// roots never change here.
    pub fn offer_listing(&mut self, current: &ScanPath, listing: DirListing)
        ensures
            final(self).repos == old(self).repos,
            listing is PermissionDenied ==> final(self).stack == old(self).stack,
            (listing matches DirListing::Entries(es) ==> paths_view(final(self).stack@)
                == paths_view(old(self).stack@) + children_of(current@, es@)),
    {
        match listing {
            DirListing::PermissionDenied => {},
            DirListing::Entries(es) => {
                let ghost stack0 = self.stack@;
                let mut i: usize = 0;
                while i < es.len()
                    invariant
                        i <= es@.len(),
                        self.repos == old(self).repos,
                        paths_view(self.stack@) == paths_view(stack0) + children_of(
                            current@,
                            es@.take(i as int),
                        ),
                    decreases es@.len() - i,
                {
                    let ghost pre = self.stack@;
                    proof {
                        assert(es@.take(i + 1).drop_last() =~= es@.take(i as int));
                        assert(es@.take(i + 1).last() == es@[i as int]);
                    }
                    if es[i].is_dir && !es[i].is_symlink {
                        let name = clone_bytes(&es[i].name);
                        let c = current.child(name);
                        self.stack.push(c);
                        proof {
                            assert(paths_view(self.stack@) =~= paths_view(pre).push(
                                current@.push(es@[i as int].name@),
                            ));
                            assert(children_of(current@, es@.take(i + 1)) == children_of(
                                current@,
                                es@.take(i as int),
                            ).push(current@.push(es@[i as int].name@)));
                            assert(paths_view(self.stack@) =~= paths_view(stack0) + children_of(
                                current@,
                                es@.take(i + 1),
                            ));
                        }
                    } else {
                        proof {
                            assert(children_of(current@, es@.take(i + 1)) == children_of(
                                current@,
                                es@.take(i as int),
                            ));
                        }
                    }
                    i += 1;
                }
                proof {
                    assert(es@.take(es@.len() as int) =~= es@);
                }
            },
        }
    }

    /// End the scan: the repository roots discovered, as a strictly sorted,
    /// duplicate-free sequence in which no root lies inside another.
    pub fn finish(self) -> (r: Vec<ScanPath>)
        requires
            self.repos_wf(),
        ensures
            r == self.repos,
            forall|a: int, b: int| 0 <= a < b < r@.len() ==> path_lt(r@[a]@, r@[b]@),
            forall|a: int, b: int| 0 <= a < b < r@.len() ==> r@[a]@ != r@[b]@,
            forall|a: int, b: int|
                0 <= a < r@.len() && 0 <= b < r@.len() && a != b ==> !is_prefix(r@[a]@, r@[b]@),
            forall|q: Seq<Seq<u8>>|
                #![trigger has_root(r@, q)]
                has_root(r@, q) <==> has_root(self.repos@, q),
    {
        proof {
            assert forall|a: int, b: int| 0 <= a < b < self.repos@.len() implies self.repos@[a]@
                != self.repos@[b]@ by {
                lemma_path_lt_trichotomy(self.repos@[a]@, self.repos@[b]@);
            }
        }
        self.repos
    }
}

/// Begin a scan of the tree below `root_canonical`, the canonicalized root
/// the caller resolved. No roots are recorded yet and only the root itself
/// is pending.
pub fn scan_git_repositories(root_canonical: ScanPath) -> (s: Scanner)
    ensures
        s.repos_wf(),
        s.repos@.len() == 0,
        s.stack@.len() == 1,
        s.stack@[0] == root_canonical,
{
    let mut stack: Vec<ScanPath> = Vec::new();
    stack.push(root_canonical);
    Scanner { repos: Vec::new(), stack }
}

} // verus!
