//! The directory names whose subtrees the walk never enters.

use vstd::prelude::*;
use vstd::string::StringSliceAdditionalSpecFns;
use vstd::utf8::encode_utf8_decode_utf8;

verus! {

/// Dependency, version-control, build-output, cache and virtual-environment
/// directories, matched by exact, case-sensitive name.
pub open spec fn denylist_spec() -> Seq<Seq<char>> {
    seq![
        "node_modules"@,
        ".git"@,
        "vendor"@,
        ".pnpm"@,
        "dist"@,
        "build"@,
        ".cache"@,
        "__pycache__"@,
        ".venv"@,
        "venv"@,
        ".tox"@,
    ]
}

/// The denylisted names, as data.
pub fn denylist() -> (r: Vec<&'static str>)
    ensures
        r@.map_values(|s: &str| s@) == denylist_spec(),
{
    let r = vec![
        "node_modules",
        ".git",
        "vendor",
        ".pnpm",
        "dist",
        "build",
        ".cache",
        "__pycache__",
        ".venv",
        "venv",
        ".tox",
    ];
    assert(r@.map_values(|s: &str| s@) =~= denylist_spec());
    r
}

/// Whether two strings hold the same characters, compared byte by byte.
fn same_text(a: &str, b: &str) -> (r: bool)
    ensures
        r == (a@ == b@),
{
    let x = a.as_bytes();
    let y = b.as_bytes();
    proof {
        encode_utf8_decode_utf8(a@);
        encode_utf8_decode_utf8(b@);
    }
    if x.len() != y.len() {
        return false;
    }
    let mut i: usize = 0;
    while i < x.len()
        invariant
            x.len() == y.len(),
            x@ == a.spec_bytes(),
            y@ == b.spec_bytes(),
            0 <= i <= x.len(),
            forall|j: int| 0 <= j < i ==> x@[j] == y@[j],
        decreases x.len() - i,
    {
        if x[i] != y[i] {
            return false;
        }
        i = i + 1;
    }
    assert(x@ =~= y@);
    true
}

/// Whether the walk skips a directory entry with this base name.
pub fn is_excluded_dir_name(name: &str) -> (r: bool)
    ensures
        r == denylist_spec().contains(name@),
{
    let names = denylist();
    let mut i: usize = 0;
    while i < names.len()
        invariant
            names@.map_values(|s: &str| s@) == denylist_spec(),
            0 <= i <= names.len(),
            forall|j: int| 0 <= j < i ==> denylist_spec()[j] != name@,
        decreases names.len() - i,
    {
        if same_text(names[i], name) {
            assert(denylist_spec()[i as int] == name@);
            return true;
        }
        assert(denylist_spec()[i as int] == names@[i as int]@);
        i = i + 1;
    }
    false
}

} // verus!
