use vstd::prelude::*;

verus! {

use crate::paths::ScanPath;

/// How a project ecosystem is recognized from a single filesystem entry.
pub enum Identifier {
    /// Matches an entry whose final component equals the given name exactly.
    File(String),
    /// `FileExtensionInDirectory(dir, ext)` matches an entry whose extension
    /// equals `ext` and whose parent directory's final component equals `dir`.
    FileExtensionInDirectory(String, String),
}

/// One detection rule: a matcher together with the artifact directories to
/// probe, each a single component relative to the matched entry's directory.
/// An empty component stands for that directory itself.
pub struct Configuration {
    pub identifier: Identifier,
    pub relative_targets: Vec<String>,
}

/// A project ecosystem: its display name and its detection rules, tested in
/// order against every visited entry.
pub struct Project {
    pub name: String,
    pub configurations: Vec<Configuration>,
}

/// The character at position `i` is the last dot of `name`, and it is not the
/// first character (a name that starts with its only dot has no extension).
pub open spec fn is_ext_dot(name: Seq<char>, i: int) -> bool {
    &&& 1 <= i < name.len()
    &&& name[i] == '.'
    &&& forall|j: int| i < j < name.len() ==> name[j] != '.'
}

/// `name` has the extension `ext`: the text after the last dot of `name`
/// equals `ext`, and that dot is neither the first character nor absent.
pub open spec fn has_extension(name: Seq<char>, ext: Seq<char>) -> bool {
    exists|i: int| is_ext_dot(name, i) && name.subrange(i + 1, name.len() as int) == ext
}

/// What a matcher recognizes, over the component-sequence model of a path.
/// A path with no components has no file name and no parent, so neither
/// matcher accepts it; a one-component path has no parent directory
/// component, so the extension matcher rejects it.
pub open spec fn spec_matches(id: Identifier, path: Seq<Seq<char>>) -> bool {
    match id {
        Identifier::File(name) => path.len() >= 1 && path.last() == name@,
        Identifier::FileExtensionInDirectory(dir, ext) => {
            &&& path.len() >= 2
            &&& has_extension(path.last(), ext@)
            &&& path[path.len() - 2] == dir@
        },
    }
}

/// Whether `name`'s extension equals `ext`, scanning for the last dot.
fn extension_matches(name: &String, ext: &String) -> (r: bool)
    ensures
        r == has_extension(name@, ext@),
{
    let n: usize = name.as_str().unicode_len();
    let m: usize = ext.as_str().unicode_len();
    // Find the position of the last dot, if any.
    let mut i: usize = n;
    while i > 0
        invariant
            i <= n,
            n == name@.len(),
            m == ext@.len(),
            forall|j: int| i <= j < n ==> name@[j] != '.',
        decreases i,
    {
        if name.as_str().get_char(i - 1) == '.' {
            // The last dot sits at i - 1.
            let d: usize = i - 1;
            if d == 0 {
                // The only dot left is the first character: no extension.
                proof {
                    assert(!has_extension(name@, ext@)) by {
                        assert forall|p: int| !(is_ext_dot(name@, p) && name@.subrange(
                            p + 1,
                            name@.len() as int,
                        ) == ext@) by {
                            if is_ext_dot(name@, p) {
                                assert(i <= p < n);
                                assert(name@[p] != '.');
                            }
                        }
                    }
                }
                return false;
            }
            // The extension is name[d + 1 .. n]; compare it with ext.
            if n - d - 1 != m {
                proof {
                    assert(!has_extension(name@, ext@)) by {
                        assert forall|p: int| !(is_ext_dot(name@, p) && name@.subrange(
                            p + 1,
                            name@.len() as int,
                        ) == ext@) by {
                            if is_ext_dot(name@, p) && name@.subrange(p + 1, name@.len() as int)
                                == ext@ {
                                if p > d {
                                    assert(i <= p < n);
                                    assert(name@[p] != '.');
                                } else if p < d {
                                    assert(p < d < name@.len());
                                    assert(name@[d as int] != '.');
                                } else {
                                    assert(name@.subrange(p + 1, name@.len() as int).len()
                                        == ext@.len());
                                }
                            }
                        }
                    }
                }
                return false;
            }
            let mut k: usize = 0;
            while k < m
                invariant
                    k <= m,
                    n == name@.len(),
                    m == ext@.len(),
                    1 <= d < n,
                    i == d + 1,
                    n - d - 1 == m,
                    name@[d as int] == '.',
                    forall|j: int| d < j < n ==> name@[j] != '.',
                    forall|j: int| 0 <= j < k ==> name@[d + 1 + j] == ext@[j],
                decreases m - k,
            {
                if name.as_str().get_char(d + 1 + k) != ext.as_str().get_char(k) {
                    proof {
                        let bad = k as int;
                        assert(!has_extension(name@, ext@)) by {
                            assert forall|p: int| !(is_ext_dot(name@, p) && name@.subrange(
                                p + 1,
                                name@.len() as int,
                            ) == ext@) by {
                                if is_ext_dot(name@, p) && name@.subrange(p + 1, name@.len() as int)
                                    == ext@ {
                                    if p > d {
                                        assert(d < p < n);
                                        assert(name@[p] != '.');
                                    } else if p < d {
                                        assert(p < d < name@.len());
                                        assert(name@[d as int] != '.');
                                    } else {
                                        assert(name@.subrange(p + 1, name@.len() as int)[bad]
                                            == name@[d + 1 + bad]);
                                    }
                                }
                            }
                        }
                    }
                    return false;
                }
                k += 1;
            }
            proof {
                assert(name@.subrange(d + 1, name@.len() as int) =~= ext@);
                assert(is_ext_dot(name@, d as int));
            }
            return true;
        }
        i -= 1;
    }
    // No dot anywhere in the name.
    proof {
        assert(!has_extension(name@, ext@)) by {
            assert forall|p: int| !(is_ext_dot(name@, p) && name@.subrange(
                p + 1,
                name@.len() as int,
            ) == ext@) by {
                if is_ext_dot(name@, p) {
                    assert(0 <= p < n);
                    assert(name@[p] != '.');
                }
            }
        }
    }
    false
}

impl Configuration {
    pub fn new(identifier: Identifier, relative_targets: Vec<String>) -> (r: Configuration)
        ensures
            r.identifier == identifier,
            r.relative_targets == relative_targets,
    {
        Configuration { identifier, relative_targets }
    }

    /// Whether this rule's matcher recognizes the given entry. The result is
    /// a function of the matcher and the path alone: no entry is rejected or
    /// accepted for any other reason, and no state is consulted.
    pub fn matches(&self, path: &ScanPath) -> (r: bool)
        ensures
            r == spec_matches(self.identifier, path@),
    {
        match &self.identifier {
            Identifier::File(name) => {
                if path.segments.len() >= 1 {
                    let last = &path.segments[path.segments.len() - 1];
                    let r = *last == *name;
                    proof {
                        assert(path@.last() == path.segments@[path.segments@.len() - 1]@);
                    }
                    r
                } else {
                    false
                }
            },
            Identifier::FileExtensionInDirectory(dir, ext) => {
                if path.segments.len() >= 2 {
                    let last = &path.segments[path.segments.len() - 1];
                    let par = &path.segments[path.segments.len() - 2];
                    proof {
                        assert(path@.last() == path.segments@[path.segments@.len() - 1]@);
                        assert(path@[path@.len() - 2] == path.segments@[path.segments@.len() - 2]@);
                    }
                    extension_matches(last, ext) && *par == *dir
                } else {
                    false
                }
            },
        }
    }
}

impl Project {
    pub fn new(name: String, configurations: Vec<Configuration>) -> (r: Project)
        ensures
            r.name == name,
            r.configurations == configurations,
    {
        Project { name, configurations }
    }
}

/// Matching is pure: it depends on the matcher and the path alone, so any two
/// evaluations of the same matcher against the same path yield the same
/// boolean. The `ensures` of `Configuration::matches` pins each result to
/// `spec_matches`, so this carries over to the executable matcher.
pub proof fn lemma_matches_deterministic(id: Identifier, path: Seq<Seq<char>>, r1: bool, r2: bool)
    requires
        r1 == spec_matches(id, path),
        r2 == spec_matches(id, path),
    ensures
        r1 == r2,
{
}

/// An exact-name matcher accepts precisely the entries whose final component
/// equals its name, and rejects every other entry.
pub proof fn lemma_exact_file_name(name: String, path: Seq<Seq<char>>)
    ensures
        spec_matches(Identifier::File(name), path) <==> (path.len() >= 1 && path.last() == name@),
{
}

/// An extension-in-directory matcher accepts precisely the entries whose
/// extension equals `ext` and whose parent directory's final component equals
/// `dir`; changing either makes it reject.
pub proof fn lemma_extension_in_directory(dir: String, ext: String, path: Seq<Seq<char>>)
    ensures
        spec_matches(Identifier::FileExtensionInDirectory(dir, ext), path) <==> (path.len() >= 2
            && has_extension(path.last(), ext@) && path[path.len() - 2] == dir@),
{
}

} // verus!
