use vstd::prelude::*;

verus! {

use crate::project::Configuration;
use crate::project::Identifier;
use crate::project::Project;

/// `cfg` recognizes entries named exactly `name` and probes the single
/// relative target `target`.
pub open spec fn is_file_rule(cfg: Configuration, name: Seq<char>, target: Seq<char>) -> bool {
    &&& (cfg.identifier matches Identifier::File(n) && n@ == name)
    &&& cfg.relative_targets.deep_view() == seq![target]
}

/// `cfg` recognizes entries with extension `ext` inside a directory whose
/// final component is `dir`, and probes the single relative target `target`.
pub open spec fn is_extension_rule(
    cfg: Configuration,
    dir: Seq<char>,
    ext: Seq<char>,
    target: Seq<char>,
) -> bool {
    &&& (cfg.identifier matches Identifier::FileExtensionInDirectory(d, e) && d@ == dir && e@
        == ext)
    &&& cfg.relative_targets.deep_view() == seq![target]
}

/// The fixed set of recognized ecosystems, in the order they are tested
/// against every visited entry.
pub open spec fn is_default_catalog(ps: Seq<Project>) -> bool {
    &&& ps.len() == 5
    &&& ps[0].name@ == "Javascript"@
    &&& ps[0].configurations@.len() == 1
    &&& is_file_rule(ps[0].configurations@[0], "package.json"@, "node_modules"@)
    &&& ps[1].name@ == "PHP"@
    &&& ps[1].configurations@.len() == 1
    &&& is_file_rule(ps[1].configurations@[0], "composer.json"@, "vendor"@)
    &&& ps[2].name@ == "Python"@
    &&& ps[2].configurations@.len() == 2
    &&& is_extension_rule(ps[2].configurations@[0], "__pycache__"@, "pyc"@, "__pycache__"@)
    &&& is_file_rule(ps[2].configurations@[1], "pyvenv.cfg"@, ""@)
    &&& ps[3].name@ == "Rust"@
    &&& ps[3].configurations@.len() == 1
    &&& is_file_rule(ps[3].configurations@[0], "Cargo.toml"@, "target"@)
    &&& ps[4].name@ == "Swift"@
    &&& ps[4].configurations@.len() == 1
    &&& is_file_rule(ps[4].configurations@[0], "Package.swift"@, ".build"@)
}

fn file_project(name: &str, manifest: &str, target: &str) -> (r: Project)
    ensures
        r.name@ == name@,
        r.configurations@.len() == 1,
        is_file_rule(r.configurations@[0], manifest@, target@),
{
    let mut targets: Vec<String> = Vec::new();
    targets.push(target.to_owned());
    proof {
        assert(targets.deep_view() =~= seq![target@]);
    }
    let mut cfgs: Vec<Configuration> = Vec::new();
    cfgs.push(Configuration::new(Identifier::File(manifest.to_owned()), targets));
    Project::new(name.to_owned(), cfgs)
}

/// The ecosystems this tool recognizes: Javascript, PHP, Python, Rust and
/// Swift, each with the manifest entries that identify it and the artifact
/// directory probed next to each matched manifest.
pub fn default_catalog() -> (r: Vec<Project>)
    ensures
        is_default_catalog(r@),
{
    let js = file_project("Javascript", "package.json", "node_modules");
    let php = file_project("PHP", "composer.json", "vendor");

    let mut py_targets: Vec<String> = Vec::new();
    py_targets.push("__pycache__".to_owned());
    proof {
        assert(py_targets.deep_view() =~= seq!["__pycache__"@]);
    }
    let mut py_cfgs: Vec<Configuration> = Vec::new();
    py_cfgs.push(
        Configuration::new(
            Identifier::FileExtensionInDirectory("__pycache__".to_owned(), "pyc".to_owned()),
            py_targets,
        ),
    );
    let mut venv_targets: Vec<String> = Vec::new();
    venv_targets.push("".to_owned());
    proof {
        assert(venv_targets.deep_view() =~= seq![""@]);
    }
    py_cfgs.push(Configuration::new(Identifier::File("pyvenv.cfg".to_owned()), venv_targets));
    let py = Project::new("Python".to_owned(), py_cfgs);

    let rust = file_project("Rust", "Cargo.toml", "target");
    let swift = file_project("Swift", "Package.swift", ".build");

    let mut projects: Vec<Project> = Vec::new();
    projects.push(js);
    projects.push(php);
    projects.push(py);
    projects.push(rust);
    projects.push(swift);
    projects
}

} // verus!
