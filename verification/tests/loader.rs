use wgsl_modules::cache::ModuleCache;
use wgsl_modules::error::Error;
use wgsl_modules::module::Module;
use wgsl_modules::storage::SourceFiles;
use wgsl_modules::validate::validate;

const HELPER: &str = "fn helper() -> f32 { return 1.0; }\n";
const COMMON: &str = "const SCALE: f32 = 2.0;\n";

fn files(entries: &[(&str, &str)]) -> SourceFiles {
    let mut files = SourceFiles::new();
    for (path, text) in entries {
        files.insert(path, text);
    }
    files
}

fn sorted(deps: &Vec<String>) -> Vec<String> {
    let mut out = deps.clone();
    out.sort();
    out
}

fn splice(source: &str, dir: &str, path: &str, files: &SourceFiles) -> Result<Module, Error> {
    let mut cache = ModuleCache::new();
    let mut trace = vec![path.to_string()];
    Module::load_source(source).resolve_includes(&mut cache, files, &mut trace, dir)
}

#[test]
fn code_is_source_without_includes() {
    let source = "fn main_fn() -> f32 { return 1.0; }\n";
    let module = Module::load("main.wgsl", source, &SourceFiles::new()).unwrap();
    assert_eq!(module.code(), source);
    assert_eq!(module.source(), source);
    assert!(module.dependencies().is_empty());
    assert!(module.includes().is_empty());
}

#[test]
fn splicing_is_byte_exact() {
    let module = splice("x\n& include \"b.inc\"\ny\n", "", "a", &files(&[("b.inc", "Z")])).unwrap();
    assert_eq!(module.code(), "x\nZ\ny\n");
    assert_eq!(module.source(), "x\n& include \"b.inc\"\ny\n");
}

#[test]
fn splicing_replaces_every_directive() {
    let store = files(&[("one", "1"), ("two", "22"), ("three", "333")]);
    let source = "a\n& include \"one\"\nb;/* & include \"two\" */c\n& include \"three\";\nd";
    let module = splice(source, "", "root", &store).unwrap();
    assert_eq!(module.code(), "a\n1\nb;22c\n333\nd");
}

#[test]
fn splicing_keeps_text_beyond_ascii() {
    let store = files(&[("é.inc", "ßß")]);
    let module = splice("// größe\n& include \"é.inc\"\n// ende ü\n", "", "root", &store).unwrap();
    assert_eq!(module.code(), "// größe\nßß\n// ende ü\n");
}

#[test]
fn both_forms_give_the_same_code() {
    let store = files(&[("b", "Z")]);
    let line = splice("a\n& include \"b\";\nc", "", "root", &store).unwrap();
    let block = splice("a\n/* & include \"b\" */\nc", "", "root", &store).unwrap();
    assert_eq!(line.code(), "a\nZ\nc");
    assert_eq!(block.code(), line.code());
    assert_eq!(block.dependencies(), line.dependencies());
}

#[test]
fn load_flattens_and_validates() {
    let store = files(&[("lib.wgsl", HELPER)]);
    let source = "& include \"lib.wgsl\"\nfn twice() -> f32 { return helper() + helper(); }\n";
    let module = Module::load("main.wgsl", source, &store).unwrap();
    assert_eq!(module.code(), format!("{}\nfn twice() -> f32 {{ return helper() + helper(); }}\n", HELPER));
    assert_eq!(module.dependencies(), &vec!["lib.wgsl".to_string()]);
}

#[test]
fn dependencies_are_transitive() {
    let store = files(&[
        ("b.wgsl", "& include \"c.wgsl\"\nfn b() -> f32 { return SCALE; }\n"),
        ("c.wgsl", COMMON),
    ]);
    let mut cache = ModuleCache::new();
    let module = cache.load("a.wgsl", "& include \"b.wgsl\"\nfn a() -> f32 { return b(); }\n", &store).unwrap();
    assert_eq!(sorted(module.dependencies()), vec!["b.wgsl".to_string(), "c.wgsl".to_string()]);
    assert_eq!(
        module.code(),
        format!("{}\nfn b() -> f32 {{ return SCALE; }}\n\nfn a() -> f32 {{ return b(); }}\n", COMMON)
    );
    assert_eq!(cache.module("b.wgsl").unwrap().dependencies(), &vec!["c.wgsl".to_string()]);
    assert!(cache.module("c.wgsl").unwrap().dependencies().is_empty());
}

#[test]
fn includes_resolve_against_the_directory_of_the_includer() {
    let store = files(&[
        ("shaders/lib/b.wgsl", "& include \"../common/c.wgsl\"\nfn b() -> f32 { return SCALE; }\n"),
        ("shaders/common/c.wgsl", COMMON),
    ]);
    let module = Module::load("shaders/./a.wgsl", "& include \"lib/b.wgsl\"\n", &store).unwrap();
    let deps = sorted(module.dependencies());
    assert!(deps.contains(&"shaders/lib/b.wgsl".to_string()));
    assert!(deps.contains(&"shaders/common/c.wgsl".to_string()));
    assert_eq!(
        deps,
        vec![
            "shaders/common/c.wgsl".to_string(),
            "shaders/lib/b.wgsl".to_string(),
            "shaders/lib/shaders/common/c.wgsl".to_string(),
        ]
    );
}

#[test]
fn absolute_dependencies_are_listed_once() {
    let store = files(&[
        ("/s/b.wgsl", "& include \"c.wgsl\"\nfn b() -> f32 { return SCALE; }\n"),
        ("/s/c.wgsl", COMMON),
    ]);
    let module = Module::load("/s/a.wgsl", "& include \"b.wgsl\"\n", &store).unwrap();
    assert_eq!(sorted(module.dependencies()), vec!["/s/b.wgsl".to_string(), "/s/c.wgsl".to_string()]);
}

#[test]
fn load_from_path_reads_the_storage() {
    let store = files(&[("dir/main.wgsl", "& include \"lib.wgsl\"\n"), ("dir/lib.wgsl", HELPER)]);
    let module = Module::load_from_path("dir/../dir/main.wgsl", &store).unwrap();
    assert_eq!(module.code(), format!("{}\n", HELPER));
    assert_eq!(module.dependencies(), &vec!["dir/lib.wgsl".to_string()]);
}

#[test]
fn direct_cycle_is_an_error() {
    let store = files(&[
        ("a.wgsl", "& include \"b.wgsl\"\n"),
        ("b.wgsl", "& include \"a.wgsl\"\n"),
    ]);
    let error = Module::load_from_path("a.wgsl", &store).unwrap_err();
    assert_eq!(
        error,
        Error::CircularDependency { path: "a.wgsl".to_string(), from: "b.wgsl".to_string() }
    );
    assert_eq!(error.message(), "circular dependency a.wgsl from b.wgsl");
}

#[test]
fn cycle_through_given_source_is_an_error() {
    let store = files(&[("b.wgsl", "& include \"a.wgsl\"\n")]);
    let error = Module::load("a.wgsl", "& include \"b.wgsl\"\n", &store).unwrap_err();
    assert_eq!(
        error,
        Error::CircularDependency { path: "a.wgsl".to_string(), from: "b.wgsl".to_string() }
    );
}

#[test]
fn indirect_cycle_is_an_error() {
    let store = files(&[
        ("a.wgsl", "& include \"b.wgsl\"\n"),
        ("b.wgsl", "& include \"c.wgsl\"\n"),
        ("c.wgsl", "& include \"a.wgsl\"\n"),
    ]);
    let error = Module::load_from_path("a.wgsl", &store).unwrap_err();
    assert_eq!(
        error,
        Error::CircularDependency { path: "a.wgsl".to_string(), from: "c.wgsl".to_string() }
    );
}

#[test]
fn self_include_is_an_error() {
    let error = Module::load("a.wgsl", "& include \"a.wgsl\"\n", &SourceFiles::new()).unwrap_err();
    assert_eq!(
        error,
        Error::CircularDependency { path: "a.wgsl".to_string(), from: "a.wgsl".to_string() }
    );
}

#[test]
fn diamond_is_no_cycle() {
    let store = files(&[
        ("b.wgsl", "& include \"d.wgsl\"\nfn b() -> f32 { return SCALE; }\n"),
        ("c.wgsl", "fn c() -> f32 { return 3.0; }\n"),
        ("d.wgsl", COMMON),
    ]);
    let mut cache = ModuleCache::new();
    let module = cache.load("a.wgsl", "& include \"b.wgsl\"\n& include \"c.wgsl\"\n", &store).unwrap();
    assert_eq!(
        sorted(module.dependencies()),
        vec!["b.wgsl".to_string(), "c.wgsl".to_string(), "d.wgsl".to_string()]
    );
}

#[test]
fn missing_file_is_an_io_error() {
    let error = Module::load("a.wgsl", "& include \"gone.wgsl\"\n", &SourceFiles::new()).unwrap_err();
    assert_eq!(
        error,
        Error::IoError { path: "gone.wgsl".to_string(), cause: "no such source".to_string() }
    );
    assert_eq!(error.message(), "no such source 'gone.wgsl'");
    let error = Module::load_from_path("dir/gone.wgsl", &SourceFiles::new()).unwrap_err();
    assert_eq!(
        error,
        Error::IoError { path: "dir/gone.wgsl".to_string(), cause: "no such source".to_string() }
    );
}

#[test]
fn path_without_directory_is_invalid() {
    let error = Module::load("", "fn f() {}\n", &SourceFiles::new()).unwrap_err();
    assert_eq!(error, Error::InvalidPath { path: String::new() });
    assert_eq!(error.message(), "invalid path ''");
    let error = Module::load_from_path("/", &SourceFiles::new()).unwrap_err();
    assert_eq!(error, Error::InvalidPath { path: "/".to_string() });
}

#[test]
fn included_path_without_directory_is_read_first() {
    let error = Module::load("a.wgsl", "& include \".\"\n", &SourceFiles::new()).unwrap_err();
    assert_eq!(
        error,
        Error::IoError { path: String::new(), cause: "no such source".to_string() }
    );
    let store = files(&[("", "fn f() {}\n")]);
    let error = Module::load("a.wgsl", "& include \".\"\n", &store).unwrap_err();
    assert_eq!(error, Error::InvalidPath { path: String::new() });
}

#[test]
fn invalid_code_is_a_validation_error() {
    let error = Module::load("a.wgsl", "fn broken( {\n", &SourceFiles::new()).unwrap_err();
    match &error {
        Error::ValidationError { diagnostic } => {
            assert!(!diagnostic.is_empty());
            assert_eq!(&error.message(), diagnostic);
        }
        other => panic!("unexpected error {:?}", other),
    }
}

#[test]
fn semantic_error_is_a_validation_error() {
    let error = Module::load("a.wgsl", "fn f() -> f32 { return missing(); }\n", &SourceFiles::new()).unwrap_err();
    assert!(matches!(error, Error::ValidationError { .. }));
}

#[test]
fn validate_accepts_valid_code_and_rejects_invalid() {
    assert_eq!(validate(HELPER), Ok(()));
    assert_eq!(validate(""), Ok(()));
    assert!(matches!(validate("fn broken( {"), Err(Error::ValidationError { .. })));
}

#[test]
fn validate_gives_the_same_diagnostic_each_time() {
    let first = validate("fn f() -> f32 { return missing(); }\n");
    let second = validate("fn f() -> f32 { return missing(); }\n");
    assert!(first.is_err());
    assert_eq!(first, second);
}

#[test]
fn intermediate_modules_are_not_validated() {
    let store = files(&[("part.wgsl", "return 1.0; }\n")]);
    let module = Module::load("a.wgsl", "fn f() -> f32 {\n& include \"part.wgsl\"\n", &store).unwrap();
    assert_eq!(module.code(), "fn f() -> f32 {\nreturn 1.0; }\n\n");
}

#[test]
fn second_load_is_served_from_the_cache() {
    let first = files(&[("main.wgsl", "& include \"lib.wgsl\"\n"), ("lib.wgsl", HELPER)]);
    let changed = files(&[
        ("main.wgsl", "fn other() {}\n"),
        ("lib.wgsl", "fn changed() -> f32 { return 2.0; }\n"),
    ]);
    let mut cache = ModuleCache::new();
    let code = cache.load_from_path("main.wgsl", &first).unwrap().code().to_string();
    assert_eq!(code, format!("{}\n", HELPER));
    let again = cache.load_from_path("main.wgsl", &changed).unwrap();
    assert_eq!(again.code(), code);
    let gone = cache.load_from_path("./main.wgsl", &SourceFiles::new()).unwrap();
    assert_eq!(gone.code(), code);
}

#[test]
fn cached_include_is_not_read_again() {
    let first = files(&[("lib.wgsl", HELPER)]);
    let mut cache = ModuleCache::new();
    cache.load("one.wgsl", "& include \"lib.wgsl\"\n", &first).unwrap();
    let changed = files(&[("lib.wgsl", "fn changed() -> f32 { return 2.0; }\n")]);
    let two = cache.load("two.wgsl", "& include \"lib.wgsl\"\nfn two() -> f32 { return helper(); }\n", &changed).unwrap();
    assert_eq!(two.code(), format!("{}\nfn two() -> f32 {{ return helper(); }}\n", HELPER));
    let three = cache.load("three.wgsl", "& include \"lib.wgsl\"\n", &SourceFiles::new()).unwrap();
    assert_eq!(three.code(), format!("{}\n", HELPER));
}

#[test]
fn load_with_source_replaces_the_cached_module() {
    let mut cache = ModuleCache::new();
    cache.load("a.wgsl", "fn one() {}\n", &SourceFiles::new()).unwrap();
    let second = cache.load("a.wgsl", "fn two() {}\n", &SourceFiles::new()).unwrap();
    assert_eq!(second.code(), "fn two() {}\n");
    assert_eq!(cache.modules().len(), 1);
    assert_eq!(cache.module("a.wgsl").unwrap().code(), "fn two() {}\n");
}

#[test]
fn validation_failure_keeps_children_cached() {
    let store = files(&[("lib.wgsl", HELPER)]);
    let mut cache = ModuleCache::new();
    let error = cache.load("bad.wgsl", "& include \"lib.wgsl\"\nfn broken( {\n", &store).unwrap_err();
    assert!(matches!(error, Error::ValidationError { .. }));
    assert!(cache.module("bad.wgsl").is_none());
    let lib = cache.module("lib.wgsl").unwrap();
    assert_eq!(lib.code(), HELPER);
    assert_eq!(cache.modules().len(), 1);
    let good = cache.load("good.wgsl", "& include \"lib.wgsl\"\n", &SourceFiles::new()).unwrap();
    assert_eq!(good.code(), format!("{}\n", HELPER));
}

#[test]
fn failure_keeps_what_was_resolved_before_it() {
    let store = files(&[("lib.wgsl", HELPER)]);
    let mut cache = ModuleCache::new();
    let error = cache
        .load("a.wgsl", "& include \"gone.wgsl\"\n& include \"lib.wgsl\"\n", &store)
        .unwrap_err();
    assert!(matches!(error, Error::IoError { .. }));
    assert!(cache.module("lib.wgsl").is_some());
    assert!(cache.module("a.wgsl").is_none());
    assert!(cache.module("gone.wgsl").is_none());
}

#[test]
fn last_include_is_resolved_first() {
    let error = Module::load(
        "a.wgsl",
        "& include \"first.wgsl\"\n& include \"last.wgsl\"\n",
        &SourceFiles::new(),
    )
    .unwrap_err();
    assert_eq!(
        error,
        Error::IoError { path: "last.wgsl".to_string(), cause: "no such source".to_string() }
    );
}

#[test]
fn new_cache_is_empty() {
    let cache = ModuleCache::new();
    assert!(cache.modules().is_empty());
    assert!(cache.module("a.wgsl").is_none());
}

#[test]
fn modules_lists_every_cached_module_once() {
    let store = files(&[("b.wgsl", "& include \"c.wgsl\"\n"), ("c.wgsl", COMMON)]);
    let mut cache = ModuleCache::new();
    cache.load("a.wgsl", "& include \"b.wgsl\"\n", &store).unwrap();
    cache.load("z.wgsl", "& include \"c.wgsl\"\n", &store).unwrap();
    let mut paths: Vec<String> = cache.modules().iter().map(|(p, _)| p.to_string()).collect();
    paths.sort();
    assert_eq!(paths, vec!["a.wgsl", "b.wgsl", "c.wgsl", "z.wgsl"]);
    for (path, module) in cache.modules() {
        assert_eq!(cache.module(path).unwrap().code(), module.code());
    }
}

#[test]
fn module_is_found_by_canonical_path_only() {
    let mut cache = ModuleCache::new();
    cache.load("dir/../a.wgsl", "fn f() {}\n", &SourceFiles::new()).unwrap();
    assert!(cache.module("a.wgsl").is_some());
    assert!(cache.module("dir/../a.wgsl").is_none());
}

#[test]
fn storage_hands_out_the_last_text_stored() {
    let mut store = SourceFiles::new();
    assert!(!store.contains("a"));
    assert_eq!(store.read("a"), None);
    store.insert("a", "one");
    store.insert("b", "two");
    store.insert("a", "three");
    assert!(store.contains("a"));
    assert_eq!(store.read("a"), Some("three"));
    assert_eq!(store.read("b"), Some("two"));
    assert_eq!(store.read("c"), None);
}

#[test]
fn verdict_follows_the_diagnostic() {
    assert_eq!(wgsl_modules::validate::verdict(None), Ok(()));
    assert_eq!(
        wgsl_modules::validate::verdict(Some("bad".to_string())),
        Err(Error::ValidationError { diagnostic: "bad".to_string() })
    );
}

#[test]
fn error_messages() {
    let io = Error::IoError { path: "a/b.wgsl".to_string(), cause: "denied".to_string() };
    assert_eq!(io.message(), "denied 'a/b.wgsl'");
    let cycle = Error::CircularDependency { path: "a".to_string(), from: "b".to_string() };
    assert_eq!(cycle.message(), "circular dependency a from b");
    let invalid = Error::InvalidPath { path: "/".to_string() };
    assert_eq!(invalid.message(), "invalid path '/'");
    let validation = Error::ValidationError { diagnostic: "error: x".to_string() };
    assert_eq!(validation.message(), "error: x");
}

#[test]
fn resolve_includes_leaves_the_trace_as_it_was() {
    let store = files(&[("b", "& include \"c\"\n"), ("c", "C")]);
    let mut cache = ModuleCache::new();
    let mut trace = vec!["root".to_string()];
    let module = Module::load_source("& include \"b\"\n")
        .resolve_includes(&mut cache, &store, &mut trace, "")
        .unwrap();
    assert_eq!(trace, vec!["root".to_string()]);
    assert_eq!(module.code(), "C\n\n");
    let failed = Module::load_source("& include \"gone\"\n").resolve_includes(&mut cache, &store, &mut trace, "");
    assert!(failed.is_err());
    assert_eq!(trace, vec!["root".to_string()]);
}

#[test]
fn include_that_fails_before_the_cycle_is_reported_first() {
    let store = files(&[("b.wgsl", "& include \"a.wgsl\"\n& include \"gone.wgsl\"\n")]);
    let error = Module::load("a.wgsl", "& include \"b.wgsl\"\n", &store).unwrap_err();
    assert_eq!(
        error,
        Error::IoError { path: "gone.wgsl".to_string(), cause: "no such source".to_string() }
    );
}

#[test]
fn failed_module_is_not_cached() {
    let store = files(&[
        ("b.wgsl", "& include \"c.wgsl\"\n& include \"lib.wgsl\"\n"),
        ("lib.wgsl", HELPER),
    ]);
    let mut cache = ModuleCache::new();
    let error = cache.load("a.wgsl", "& include \"b.wgsl\"\n", &store).unwrap_err();
    assert_eq!(
        error,
        Error::IoError { path: "c.wgsl".to_string(), cause: "no such source".to_string() }
    );
    assert!(cache.module("b.wgsl").is_none());
    assert!(cache.module("a.wgsl").is_none());
    assert!(cache.module("lib.wgsl").is_some());
    let mut completed = files(&[("c.wgsl", COMMON)]);
    completed.insert("b.wgsl", "& include \"c.wgsl\"\n& include \"lib.wgsl\"\n");
    let module = cache.load("a.wgsl", "& include \"b.wgsl\"\n", &completed).unwrap();
    assert_eq!(module.code(), format!("{}\n{}\n\n", COMMON, HELPER));
}
