//! Path text: file names and extensions, prefix stripping by components, and the
//! recent-vault list entries shown to the user.

use vstd::prelude::*;
use crate::models::VaultInfo;
use crate::repository::path_components;
use crate::text::{chars_of, join_chars, join_seq, string_of, sub_chars, views};

verus! {

/// The last component of a path when it is a name (not `/`, `.` or `..`), as
/// `Path::file_name` gives it.
pub open spec fn file_name_of(p: Seq<char>) -> Option<Seq<char>> {
    let cs = path_components(p);
    if cs.len() == 0 {
        None
    } else {
        let c = cs.last();
        if c == seq!['/'] || c == seq!['.'] || c == seq!['.', '.'] {
            None
        } else {
            Some(c)
        }
    }
}

fn eq_chars(a: &Vec<char>, b: &Vec<char>) -> (r: bool)
    ensures
        r == (a@ == b@),
{
    if a.len() != b.len() {
        return false;
    }
    assert(a@.take(b@.len() as int) =~= a@);
    crate::text::starts_with(a, b)
}

pub fn file_name(p: &str) -> (r: Option<String>)
    ensures
        match file_name_of(p@) {
            Some(n) => r matches Some(s) && s@ == n,
            None => r is None,
        },
{
    let cs = crate::repository::components_of_str(p);
    if cs.len() == 0 {
        return None;
    }
    let c = sub_chars(&cs[cs.len() - 1], 0, cs[cs.len() - 1].len());
    assert(c@ == views(cs@).last());
    let root = vec!['/'];
    let dot = vec!['.'];
    let dotdot = vec!['.', '.'];
    assert(root@ == seq!['/'] && dot@ == seq!['.'] && dotdot@ == seq!['.', '.']);
    if eq_chars(&c, &root) || eq_chars(&c, &dot) || eq_chars(&c, &dotdot) {
        None
    } else {
        Some(string_of(&c))
    }
}

/// Index of the last `'.'` of `n`.
pub open spec fn last_dot(n: Seq<char>) -> Option<int>
    decreases n.len(),
{
    if n.len() == 0 {
        None
    } else if n.last() == '.' {
        Some(n.len() - 1)
    } else {
        last_dot(n.drop_last())
    }
}

/// The extension of a path as `Path::extension` gives it: the text after the last `'.'`
/// of the file name, unless that `'.'` starts the name.
pub open spec fn extension_of(p: Seq<char>) -> Option<Seq<char>> {
    match file_name_of(p) {
        None => None,
        Some(n) => match last_dot(n) {
            Some(i) => if i > 0 {
                Some(n.skip(i + 1))
            } else {
                None
            },
            None => None,
        },
    }
}

/// Whether a watched path is vault data: its extension is `yaml`, `yml` or `md`.
pub open spec fn relevant_path(p: Seq<char>) -> bool {
    match extension_of(p) {
        Some(e) => e == "yaml"@ || e == "yml"@ || e == "md"@,
        None => false,
    }
}

pub fn is_relevant(path: &str) -> (b: bool)
    ensures
        b == relevant_path(path@),
{
    let n = match file_name(path) {
        None => return false,
        Some(n) => chars_of(n.as_str()),
    };
    let mut k: usize = n.len();
    assert(n@.take(k as int) == n@);
    while k > 0 && n[k - 1] != '.'
        invariant
            k <= n.len(),
            last_dot(n@) == last_dot(n@.take(k as int)),
        decreases k,
    {
        assert(n@.take(k as int).drop_last() == n@.take(k - 1));
        k = k - 1;
    }
    if k == 0 {
        assert(last_dot(n@.take(0)) is None);
        return false;
    }
    assert(n@.take(k as int).last() == '.');
    if k - 1 == 0 {
        return false;
    }
    let ext = sub_chars(&n, k, n.len());
    assert(ext@ == n@.skip(k as int));
    eq_chars(&ext, &chars_of("yaml")) || eq_chars(&ext, &chars_of("yml")) || eq_chars(
        &ext,
        &chars_of("md"),
    )
}

/// The name shown for a recent vault: its file name, else its whole path.
pub open spec fn vault_name(p: Seq<char>) -> Seq<char> {
    match file_name_of(p) {
        Some(n) => n,
        None => p,
    }
}

/// The recent vaults with their display names.
pub fn recent_vault_infos(paths: &Vec<String>) -> (r: Vec<VaultInfo>)
    ensures
        r.len() == paths.len(),
        forall|i: int|
            0 <= i < paths.len() ==> (#[trigger] r@[i]).path@ == paths@[i]@ && r@[i].name@
                == vault_name(paths@[i]@),
{
    let mut r: Vec<VaultInfo> = Vec::new();
    let mut i: usize = 0;
    while i < paths.len()
        invariant
            i <= paths.len(),
            r.len() == i,
            forall|k: int|
                0 <= k < i ==> (#[trigger] r@[k]).path@ == paths@[k]@ && r@[k].name@ == vault_name(
                    paths@[k]@,
                ),
        decreases paths.len() - i,
    {
        let name = match file_name(paths[i].as_str()) {
            Some(n) => n,
            None => paths[i].clone(),
        };
        r.push(VaultInfo { path: paths[i].clone(), name });
        i = i + 1;
    }
    r
}

/// `p` relative to `root` when `root`'s components begin `p`'s, as `Path::strip_prefix`
/// gives it: the remaining components joined by `'/'`.
pub open spec fn stripped_path(p: Seq<char>, root: Seq<char>) -> Option<Seq<char>> {
    let pc = path_components(p);
    let rc = path_components(root);
    if rc.len() <= pc.len() && pc.take(rc.len() as int) == rc {
        Some(join_seq(pc.skip(rc.len() as int), seq!['/']))
    } else {
        None
    }
}

pub fn strip_root(p: &str, root: &str) -> (r: Option<String>)
    ensures
        match stripped_path(p@, root@) {
            Some(s) => r matches Some(x) && x@ == s,
            None => r is None,
        },
{
    let pc = crate::repository::components_of_str(p);
    let rc = crate::repository::components_of_str(root);
    assert(views(pc@).len() == pc@.len() && views(rc@).len() == rc@.len());
    if rc.len() > pc.len() {
        return None;
    }
    let mut k: usize = 0;
    while k < rc.len()
        invariant
            rc.len() <= pc.len(),
            views(pc@) == path_components(p@),
            views(rc@) == path_components(root@),
            k <= rc.len(),
            forall|j: int| 0 <= j < k ==> views(pc@)[j] == views(rc@)[j],
        decreases rc.len() - k,
    {
        if !eq_chars(&pc[k], &rc[k]) {
            assert(views(pc@).take(rc.len() as int)[k as int] != views(rc@)[k as int]);
            return None;
        }
        k = k + 1;
    }
    assert(views(pc@).take(rc.len() as int) =~= views(rc@));
    let mut rest: Vec<Vec<char>> = Vec::new();
    let mut i: usize = rc.len();
    while i < pc.len()
        invariant
            rc.len() <= i <= pc.len(),
            views(rest@) == views(pc@).subrange(rc.len() as int, i as int),
        decreases pc.len() - i,
    {
        let x = sub_chars(&pc[i], 0, pc[i].len());
        assert(x@ == pc@[i as int]@);
        let ghost old = rest@;
        rest.push(x);
        assert(views(rest@) =~= views(old).push(x@));
        assert(views(pc@).subrange(rc.len() as int, i + 1) =~= views(pc@).subrange(
            rc.len() as int,
            i as int,
        ).push(views(pc@)[i as int]));
        i = i + 1;
    }
    assert(views(pc@).subrange(rc.len() as int, pc.len() as int) == views(pc@).skip(rc.len() as int));
    let slash = vec!['/'];
    assert(slash@ == seq!['/']);
    Some(string_of(&join_chars(&rest, &slash)))
}

} // verus!

verus! {

/// The file name without its extension, as `Path::file_stem` gives it.
pub open spec fn file_stem_of(p: Seq<char>) -> Option<Seq<char>> {
    match file_name_of(p) {
        None => None,
        Some(n) => match last_dot(n) {
            Some(i) => if i > 0 {
                Some(n.take(i))
            } else {
                Some(n)
            },
            None => Some(n),
        },
    }
}

pub fn file_stem(path: &str) -> (r: Option<String>)
    ensures
        match file_stem_of(path@) {
            Some(s) => r matches Some(x) && x@ == s,
            None => r is None,
        },
{
    let n = match file_name(path) {
        None => return None,
        Some(n) => chars_of(n.as_str()),
    };
    let mut k: usize = n.len();
    assert(n@.take(k as int) == n@);
    while k > 0 && n[k - 1] != '.'
        invariant
            k <= n.len(),
            last_dot(n@) == last_dot(n@.take(k as int)),
        decreases k,
    {
        assert(n@.take(k as int).drop_last() == n@.take(k - 1));
        k = k - 1;
    }
    if k == 0 {
        assert(last_dot(n@.take(0)) is None);
        return Some(string_of(&n));
    }
    assert(n@.take(k as int).last() == '.');
    if k - 1 == 0 {
        return Some(string_of(&n));
    }
    Some(string_of(&sub_chars(&n, 0, k - 1)))
}

} // verus!
