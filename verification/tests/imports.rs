use std::collections::HashMap;

use caelum::diagnostics::{CaelumError, Result};
use caelum::loader::imports::check_extension;
use caelum::loader::{load_spec_with, ModuleId, ModuleResolver};

/// In-memory resolver: import strings are treated as module ids directly.
struct MapResolver {
    files: HashMap<String, String>,
}

impl ModuleResolver for MapResolver {
    fn resolve(&self, _importer: &ModuleId, import: &str) -> Result<ModuleId> {
        Ok(import.to_string())
    }

    fn read(&self, id: &ModuleId) -> Result<String> {
        self.files.get(id).cloned().ok_or_else(|| CaelumError::ReadFile {
            path: id.clone(),
            message: "not found".into(),
        })
    }
}

#[test]
fn imports_loads_imported_items_before_root_items() {
    let files = HashMap::from([
        ("common.lum".to_string(), "const max = 3\n".to_string()),
        ("main.lum".to_string(), "import \"common.lum\"\nlet x: 0..max\n".to_string()),
    ]);
    let resolver = MapResolver { files };

    let spec = load_spec_with(&"main.lum".to_string(), &resolver).expect("load spec");

    assert_eq!(spec.source.items.len(), 2);
    assert_eq!(spec.files.len(), 2);
}

#[test]
fn imports_detects_import_cycles() {
    let files = HashMap::from([
        ("a.lum".to_string(), "import \"b.lum\"\n".to_string()),
        ("b.lum".to_string(), "import \"a.lum\"\n".to_string()),
    ]);
    let resolver = MapResolver { files };

    let err = load_spec_with(&"a.lum".to_string(), &resolver).expect_err("cycle should fail");

    assert!(err.to_string().contains("import cycle detected"));
}

fn resolver(files: &[(&str, &str)]) -> MapResolver {
    MapResolver { files: files.iter().map(|(k, v)| (k.to_string(), v.to_string())).collect() }
}

#[test]
fn cycle_message_names_the_whole_chain() {
    let r = resolver(&[
        ("a.lum", "import \"b.lum\"\n"),
        ("b.lum", "import \"c.lum\"\n"),
        ("c.lum", "import \"b.lum\"\n"),
    ]);
    let err = load_spec_with(&"a.lum".to_string(), &r).expect_err("cycle should fail");
    assert_eq!(err.to_string(), "import error: import cycle detected: b.lum -> c.lum -> b.lum");
    assert_eq!(err.exit_code(), 4);
}

#[test]
fn shared_import_is_loaded_once() {
    let r = resolver(&[
        ("common.lum", "const max = 3\n"),
        ("left.lum", "import \"common.lum\"\nconst l = 1\n"),
        ("right.lum", "import \"common.lum\"\nconst r = 2\n"),
        ("main.lum", "import \"left.lum\"\nimport \"right.lum\"\nlet x: 0..max\n"),
    ]);
    let spec = load_spec_with(&"main.lum".to_string(), &r).expect("load spec");
    assert_eq!(spec.files, vec!["common.lum", "left.lum", "right.lum", "main.lum"]);
    assert_eq!(spec.source.items.len(), 4);
    assert_eq!(spec.root, "main.lum");
}

#[test]
fn missing_module_reports_the_resolver_error() {
    let r = resolver(&[("main.lum", "import \"gone.lum\"\n")]);
    let err = load_spec_with(&"main.lum".to_string(), &r).expect_err("missing import");
    assert!(matches!(err, CaelumError::ReadFile { ref path, .. } if path == "gone.lum"));
}

#[test]
fn parse_errors_name_the_module() {
    let r = resolver(&[("main.lum", "property p { x = }\n")]);
    let err = load_spec_with(&"main.lum".to_string(), &r).expect_err("parse error");
    assert!(matches!(err, CaelumError::Parse { ref path, .. } if path == "main.lum"));
    assert_eq!(err.exit_code(), 2);
}

#[test]
fn extension_check_accepts_only_lum_files() {
    assert!(check_extension("main.lum").is_ok());
    assert!(check_extension("dir/sub/main.lum").is_ok());
    assert!(check_extension("main.lum/").is_ok());
    assert!(check_extension("main.txt").is_err());
    assert!(check_extension(".lum").is_err());
    assert!(check_extension("dir/.lum").is_err());
    assert!(check_extension("main.lum.bak").is_err());
    let err = check_extension("notes.md").expect_err("wrong extension");
    assert!(matches!(err, CaelumError::InvalidExtension { ref path } if path == "notes.md"));
    assert_eq!(err.to_string(), "expected a .lum file, got notes.md");
}
