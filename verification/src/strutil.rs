use vstd::prelude::*;

use vstd::string::StringExecFns;

verus! {

/// Equality of two string slices, decided at the level of their views.
pub fn str_eq(a: &str, b: &str) -> (r: bool)
    ensures
        r == (a@ == b@),
{
    let sa: String = a.to_owned();
    let sb: String = b.to_owned();
    sa == sb
}

/// `<base>-<suffix>` appended under `<base>`'s parent: the full path of a
/// fresh instance subdirectory, `<rpath>/<rname>-<suffix>`.
pub open spec fn instance_prefix(rpath: Seq<char>, rname: Seq<char>) -> Seq<char> {
    rpath + "/"@ + rname + "-"@
}

/// The path of the instance subdirectory a resource and a suffix name.
pub open spec fn instance_path(rpath: Seq<char>, rname: Seq<char>, suffix: Seq<char>) -> Seq<
    char,
> {
    instance_prefix(rpath, rname) + suffix
}

/// The destination of a nested link: `<dir>/<dst>/<name>`.
pub open spec fn nested_dest(dir: Seq<char>, dst: Seq<char>, name: Seq<char>) -> Seq<char> {
    dir + "/"@ + dst + "/"@ + name
}

/// Build `<rpath>/<rname>-<suffix>`.
pub fn make_instance_path(rpath: &str, rname: &str, suffix: &str) -> (r: String)
    ensures
        r@ == instance_path(rpath@, rname@, suffix@),
{
    let mut s = rpath.to_owned();
    s.append("/");
    s.append(rname);
    s.append("-");
    s.append(suffix);
    proof {
        assert(s@ =~= instance_path(rpath@, rname@, suffix@));
    }
    s
}

/// Build `<dir>/<dst>/<name>`.
pub fn make_nested_dest(dir: &str, dst: &str, name: &str) -> (r: String)
    ensures
        r@ == nested_dest(dir@, dst@, name@),
{
    let mut s = dir.to_owned();
    s.append("/");
    s.append(dst);
    s.append("/");
    s.append(name);
    proof {
        assert(s@ =~= nested_dest(dir@, dst@, name@));
    }
    s
}

} // verus!
