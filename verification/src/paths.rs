//! Directory layout of a project checkout.

use vstd::prelude::*;
use vstd::string::StringExecFns;

verus! {

/// `root` joined with the relative name `name`, as `Path::join` does on Unix:
/// a separator is put between them unless `root` is empty or already ends
/// with one.
pub open spec fn path_join(root: Seq<char>, name: Seq<char>) -> Seq<char> {
    if root.len() == 0 || root.last() == '/' {
        root + name
    } else {
        root + seq!['/'] + name
    }
}

fn join(root: &str, name: &str) -> (res: String)
    ensures
        res@ == path_join(root@, name@),
{
    let mut res = root.to_owned();
    let n = root.unicode_len();
    if n != 0 && root.get_char(n - 1) != '/' {
        proof {
            reveal_strlit("/");
        }
        res.append("/");
    }
    res.append(name);
    res
}

/// The `target` directory under the project root.
pub fn target_dir(project_root: &str) -> (res: String)
    ensures
        res@ == path_join(project_root@, seq!['t', 'a', 'r', 'g', 'e', 't']),
{
    proof {
        reveal_strlit("target");
    }
    join(project_root, "target")
}

/// The `assets` directory under the project root.
pub fn asset_dir(project_root: &str) -> (res: String)
    ensures
        res@ == path_join(project_root@, seq!['a', 's', 's', 'e', 't', 's']),
{
    proof {
        reveal_strlit("assets");
    }
    join(project_root, "assets")
}

/// The `dist` directory under the project root.
pub fn dist_dir(project_root: &str) -> (res: String)
    ensures
        res@ == path_join(project_root@, seq!['d', 'i', 's', 't']),
{
    proof {
        reveal_strlit("dist");
    }
    join(project_root, "dist")
}

} // verus!
