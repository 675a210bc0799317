//! Discovery of the Steam installation that hosts the external editor, as
//! policy data plus verified selection logic. The unverified shell probes
//! the filesystem; the functions here say which candidate wins.

use vstd::prelude::*;

verus! {

/// The three roots the editor integration works with, all below one Steam
/// installation.
#[derive(Debug)]
pub struct SteamappsPaths {
    pub wallpaper_engine_path: String,
    pub projects_path: String,
    pub myprojects_path: String,
}

/// The fixed candidate roots probed for a Steam installation, in order.
pub open spec fn spec_steam_candidates() -> Seq<Seq<char>> {
    seq![
        "C:\\Program Files (x86)\\Steam"@,
        "C:\\Program Files\\Steam"@,
        "D:\\Steam"@,
        "E:\\Steam"@,
    ]
}

/// Produce the candidate roots as data, so the shell can probe them.
pub fn steam_root_candidates() -> (r: Vec<String>)
    ensures
        r.deep_view() == spec_steam_candidates(),
{
    let mut v: Vec<String> = Vec::new();
    v.push("C:\\Program Files (x86)\\Steam".to_owned());
    v.push("C:\\Program Files\\Steam".to_owned());
    v.push("D:\\Steam".to_owned());
    v.push("E:\\Steam".to_owned());
    proof {
        assert(v.deep_view() =~= spec_steam_candidates());
    }
    v
}

/// The subtree whose presence marks a usable candidate root.
pub open spec fn spec_wallpaper_engine_subpath() -> Seq<Seq<char>> {
    seq!["steamapps"@, "common"@, "wallpaper_engine"@]
}

/// Produce the marker subtree as path components.
pub fn wallpaper_engine_subpath() -> (r: Vec<String>)
    ensures
        r.deep_view() == spec_wallpaper_engine_subpath(),
{
    let mut v: Vec<String> = Vec::new();
    v.push("steamapps".to_owned());
    v.push("common".to_owned());
    v.push("wallpaper_engine".to_owned());
    proof {
        assert(v.deep_view() =~= spec_wallpaper_engine_subpath());
    }
    v
}

/// Pick the first candidate whose probe succeeded.
pub fn pick_existing(exists: &Vec<bool>) -> (r: Option<usize>)
    ensures
        match r {
            Some(i) => i < exists@.len() && exists@[i as int] && forall|j: int|
                0 <= j < i ==> !exists@[j],
            None => forall|j: int| 0 <= j < exists@.len() ==> !exists@[j],
        },
{
    let n = exists.len();
    let mut i: usize = 0;
    while i < n
        invariant
            n == exists@.len(),
            0 <= i <= n,
            forall|j: int| 0 <= j < i ==> !exists@[j],
        decreases n - i,
    {
        if exists[i] {
            return Some(i);
        }
        i += 1;
    }
    None
}

/// Find the enclosing `steamapps` directory of an extraction path, given as
/// components: the longest proper prefix whose last component is
/// `steamapps`, as the prefix's length. The walk starts at the innermost
/// parent, matching a climb from the path upward.
pub fn find_workshop_prefix(components: &Vec<String>) -> (r: Option<usize>)
    ensures
        match r {
            Some(i) => 1 <= i < components@.len() && components@[i - 1]@ == "steamapps"@
                && forall|j: int|
                i < j < components@.len() ==> (#[trigger] components@[j - 1])@ != "steamapps"@,
            None => forall|j: int|
                1 <= j < components@.len() ==> (#[trigger] components@[j - 1])@ != "steamapps"@,
        },
{
    let key: String = "steamapps".to_owned();
    let n = components.len();
    if n == 0 {
        return None;
    }
    let mut i: usize = n - 1;
    while i >= 1
        invariant
            n == components@.len(),
            0 <= i <= n - 1,
            key@ == "steamapps"@,
            forall|j: int| i < j < n ==> (#[trigger] components@[j - 1])@ != "steamapps"@,
        decreases i,
    {
        if components[i - 1] == key {
            proof {
                assert(components@[i - 1]@ == "steamapps"@);
            }
            return Some(i);
        }
        proof {
            assert((components@[i - 1])@ != "steamapps"@);
        }
        i -= 1;
    }
    None
}

} // verus!
