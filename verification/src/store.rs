//! The list of known projects: the record type, the fixed location of the
//! persisted list below the configuration directory, and the access-time
//! updater. Reading and writing the file itself is the caller's concern;
//! everything here works on plain values.

use vstd::prelude::*;
use vstd::pervasive::VecAdditionalExecFns;

use crate::path::ScanPath;
use crate::path::path_eq;

verus! {

/// One known project: its path, an optional display name, and the time it
/// was last accessed, in seconds since the epoch, present only once set.
pub struct Project {
    pub path: ScanPath,
    pub name: Option<String>,
    pub last_accessed: Option<u64>,
}

/// The file name under which the project list is persisted:
/// "projects.toml".
pub open spec fn projects_file_name() -> Seq<u8> {
    seq![
        112u8,
        114u8,
        111u8,
        106u8,
        101u8,
        99u8,
        116u8,
        115u8,
        46u8,
        116u8,
        111u8,
        109u8,
        108u8,
    ]
}

/// The path of the persisted project list: the file named
/// `projects_file_name` directly inside the configuration directory.
pub fn projects_file_path(config_dir: &ScanPath) -> (r: ScanPath)
    ensures
        r@ == config_dir@.push(projects_file_name()),
{
    let mut name: Vec<u8> = Vec::new();
    name.push(112u8);
    name.push(114u8);
    name.push(111u8);
    name.push(106u8);
    name.push(101u8);
    name.push(99u8);
    name.push(116u8);
    name.push(115u8);
    name.push(46u8);
    name.push(116u8);
    name.push(111u8);
    name.push(109u8);
    name.push(108u8);
    proof {
        assert(name@ =~= projects_file_name());
    }
    config_dir.child(name)
}

/// No entry of `canonical` before index `i` equals `target`.
pub open spec fn no_match_before(canonical: Seq<ScanPath>, target: Seq<Seq<u8>>, i: int) -> bool {
    forall|k: int| 0 <= k < i ==> canonical[k]@ != target
}

/// Set the last-accessed time of the first project whose canonical path
/// equals `path` to `now`; a no-op when none matches, and every other record
/// is left exactly as it was. `canonical` holds, entry for entry, the
/// caller's best-effort canonical form of each project's stored path, and
/// `path` the canonical form of the path looked up.
pub fn update_project_last_accessed(
    projects: &mut Vec<Project>,
    canonical: &Vec<ScanPath>,
    path: &ScanPath,
    now: u64,
)
    requires
        old(projects)@.len() == canonical@.len(),
    ensures
        final(projects)@.len() == old(projects)@.len(),
        no_match_before(canonical@, path@, canonical@.len() as int) ==> final(projects)@ == old(
            projects,
        )@,
        forall|i: int|
            #![trigger canonical@[i]]
            0 <= i < canonical@.len() && canonical@[i]@ == path@ && no_match_before(
                canonical@,
                path@,
                i,
            ) ==> final(projects)@ == old(projects)@.update(
                i,
                (Project {
                    path: old(projects)@[i].path,
                    name: old(projects)@[i].name,
                    last_accessed: Some(now),
                }),
            ),
{
    let n = canonical.len();
    let mut i: usize = 0;
    while i < n
        invariant_except_break
            i <= n,
            n == canonical@.len(),
            projects@ == old(projects)@,
            old(projects)@.len() == canonical@.len(),
            no_match_before(canonical@, path@, i as int),
        ensures
            i <= n,
            n == canonical@.len(),
            projects@ == old(projects)@,
            old(projects)@.len() == canonical@.len(),
            no_match_before(canonical@, path@, i as int),
            i < n ==> canonical@[i as int]@ == path@,
        decreases n - i,
    {
        if path_eq(&canonical[i], path) {
            break ;
        }
        i += 1;
    }
    if i < n {
        let mut tmp = Project {
            path: ScanPath { components: Vec::new() },
            name: None,
            last_accessed: None,
        };
        projects.set_and_swap(i, &mut tmp);
        tmp.last_accessed = Some(now);
        projects.set_and_swap(i, &mut tmp);
        proof {
            let fi = i as int;
            assert(projects@ =~= old(projects)@.update(
                fi,
                (Project {
                    path: old(projects)@[fi].path,
                    name: old(projects)@[fi].name,
                    last_accessed: Some(now),
                }),
            ));
            assert forall|j: int|
                0 <= j < canonical@.len() && canonical@[j]@ == path@ && no_match_before(
                    canonical@,
                    path@,
                    j,
                ) implies j == fi by {
                if j < fi {
                    assert(canonical@[j]@ != path@);
                } else if j > fi {
                    assert(canonical@[fi]@ != path@);
                }
            }
        }
    }
}

} // verus!
