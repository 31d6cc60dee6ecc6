use std::collections::HashMap;

use cddlc::args::{Alloc, Cli, Lang};
use cddlc::generate::{check_target, parse_interop_langs, Format, InteropLangs};
use cddlc::loader::{
    import_candidates, resolve_import, LoadError, LoadStep, LoadedModule, Loader, ParsedFile, Pragma, Probe,
};
use cddlc::merge::merge_loaded;
use cddlc::report::{dry_run_message, error_line, loading_banner, loading_line, types_resolved_banner, warning_line, wrote_line};
use cddlc::text::{decimal_string, join_strings, same_text, trim_str, white_space};
use cddlc::validate::{decode_document, plan_validation, report_file, CheckOutcome, DataKind, Document};

// ── An in-memory tree of schema files ───────────────────────────────────────

struct SourceFile {
    imports: Vec<&'static str>,
    rules: Vec<&'static str>,
    warnings: Vec<&'static str>,
    parse_error: Option<&'static str>,
}

fn file(imports: &[&'static str], rules: &[&'static str]) -> SourceFile {
    SourceFile { imports: imports.to_vec(), rules: rules.to_vec(), warnings: vec![], parse_error: None }
}

struct Tree {
    files: HashMap<String, SourceFile>,
}

impl Tree {
    fn new() -> Tree {
        Tree { files: HashMap::new() }
    }

    fn add(&mut self, path: &str, f: SourceFile) {
        self.files.insert(path.to_string(), f);
    }

    fn parse(&self, path: &str) -> Result<ParsedFile<(), String>, LoadError> {
        match self.files.get(path) {
            None => Err(LoadError::Io { path: path.to_string(), source: "No such file or directory (os error 2)".to_string() }),
            Some(f) => {
                if let Some(e) = f.parse_error {
                    return Err(LoadError::Parse(e.to_string()));
                }
                let mut file_pragmas = vec![Pragma { keyword: "title".to_string(), import: None, value: () }];
                for i in &f.imports {
                    file_pragmas.push(Pragma { keyword: "import".to_string(), import: Some(i.to_string()), value: () });
                }
                Ok(ParsedFile {
                    file_pragmas,
                    rules: f.rules.iter().map(|r| r.to_string()).collect(),
                    warnings: f.warnings.iter().map(|w| w.to_string()).collect(),
                })
            }
        }
    }

    /// Probes the candidates in order, stopping at the first that exists.
    fn probes(&self, candidates: &[String]) -> Vec<Probe> {
        let mut probes = Vec::new();
        for c in candidates {
            if self.files.contains_key(c) {
                probes.push(Probe::Found(c.clone()));
                break;
            }
            probes.push(Probe::Missing);
        }
        probes
    }

    /// Loads `entry` and its imports; also gives the files read, in order.
    fn load(&self, entry: &str, include_dirs: &[&str]) -> (Result<LoadedModule<(), String>, LoadError>, Vec<String>) {
        let mut read = Vec::new();
        let dirs: Vec<String> = include_dirs.iter().map(|d| d.to_string()).collect();
        let (mut loader, mut step) = Loader::start(entry.to_string(), dirs);
        loop {
            match step {
                LoadStep::Read(path) => {
                    read.push(path.clone());
                    step = loader.file_loaded(self.parse(&path));
                }
                LoadStep::Resolve { candidates, .. } => {
                    let probes = self.probes(&candidates);
                    step = loader.import_probed(&probes);
                }
                LoadStep::Done(r) => return (r, read),
            }
        }
    }

    /// Mirrors a `--dry-run`: loads every input, merges them, and reports.
    fn dry_run(&self, cli: &Cli) -> (bool, Vec<String>) {
        let mut stderr = Vec::new();
        if let Err(m) = check_target(cli) {
            stderr.push(error_line(&m));
            return (false, stderr);
        }
        if cli.verbose {
            stderr.push(loading_banner(cli.inputs.len()));
        }
        let dirs: Vec<&str> = cli.include_dir.iter().map(|s| s.as_str()).collect();
        let mut loaded = Vec::new();
        for input in &cli.inputs {
            let (r, read) = self.load(input, &dirs);
            if cli.verbose {
                for p in &read {
                    stderr.push(loading_line(p));
                }
            }
            match r {
                Ok(m) => loaded.push(m),
                Err(e) => {
                    stderr.push(error_line(&e.message()));
                    return (false, stderr);
                }
            }
        }
        let merged = merge_loaded(loaded);
        for w in &merged.warnings {
            stderr.push(warning_line(w));
        }
        stderr.push(dry_run_message(merged.module.rules.len()));
        (true, stderr)
    }
}

fn fixtures() -> Tree {
    let mut t = Tree::new();
    t.add("/fixtures/sensor.cddl", file(&[], &["sensor", "device-id", "readings", "status"]));
    t.add("/fixtures/primitives.cddl", file(&[], &["device-id", "timestamp"]));
    t.add("/fixtures/message.cddl", file(&["primitives.cddl"], &["sensor-message"]));
    t
}

fn cli(inputs: &[&str]) -> Cli {
    let mut c = Cli::with_defaults(inputs.iter().map(|s| s.to_string()).collect());
    c.dry_run = true;
    c
}

fn joined(lines: &[String]) -> String {
    lines.join("\n")
}

fn rules(m: &LoadedModule<(), String>) -> Vec<&str> {
    m.module.rules.iter().map(|r| r.as_str()).collect()
}

// ── Dry run ───────────────────────────────────────────────────────────────

#[test]
fn test_dry_run_succeeds() {
    let (ok, stderr) = fixtures().dry_run(&cli(&["/fixtures/sensor.cddl"]));
    let stderr = joined(&stderr);
    assert!(ok, "dry-run failed: {stderr}");
    assert!(stderr.contains("dry-run"));
}

#[test]
fn test_dry_run_reports_type_count() {
    let (ok, stderr) = fixtures().dry_run(&cli(&["/fixtures/sensor.cddl"]));
    let stderr = joined(&stderr);
    assert!(ok, "{stderr}");
    // sensor.cddl defines: sensor, device-id, readings, status
    assert!(stderr.contains("4 types") || stderr.contains("types"));
}

#[test]
fn test_dry_run_verbose() {
    let mut c = cli(&["/fixtures/sensor.cddl"]);
    c.verbose = true;
    let (ok, stderr) = fixtures().dry_run(&c);
    let stderr = joined(&stderr);
    assert!(ok, "{stderr}");
    assert!(stderr.contains("loading"));
    assert!(stderr.contains("sensor"));
}

// ── Import resolution ─────────────────────────────────────────────────────

#[test]
fn test_import_chain_dry_run() {
    // message.cddl imports primitives.cddl
    let (ok, stderr) = fixtures().dry_run(&cli(&["/fixtures/message.cddl"]));
    let stderr = joined(&stderr);
    assert!(ok, "import chain failed: {stderr}");
}

#[test]
fn test_import_chain_verbose_shows_both_files() {
    let mut c = cli(&["/fixtures/message.cddl"]);
    c.verbose = true;
    let (ok, stderr) = fixtures().dry_run(&c);
    let stderr = joined(&stderr);
    assert!(ok, "{stderr}");
    assert!(stderr.contains("primitives.cddl") || stderr.contains("primitives"),
        "expected primitives.cddl in verbose output, got: {stderr}");
}

#[test]
fn test_import_resolves_types_from_dep() {
    // message.cddl uses device-id and timestamp from primitives.cddl
    let (ok, stderr) = fixtures().dry_run(&cli(&["/fixtures/message.cddl"]));
    let stderr = joined(&stderr);
    assert!(ok, "types from imported file not resolved: {stderr}");
    let (r, _) = fixtures().load("/fixtures/message.cddl", &[]);
    let m = r.ok().unwrap();
    assert_eq!(rules(&m), vec!["device-id", "timestamp", "sensor-message"]);
}

#[test]
fn test_include_dir_flag() {
    // primitives.cddl lives in another directory, found through --include-dir
    let mut t = Tree::new();
    t.add("/tmp/inc/primitives.cddl", file(&[], &["device-id", "timestamp"]));
    t.add("/tmp/work/test.cddl", file(&["primitives.cddl"], &["msg"]));
    let mut c = cli(&["/tmp/work/test.cddl"]);
    c.include_dir = vec!["/tmp/inc".to_string()];
    let (ok, stderr) = t.dry_run(&c);
    let stderr = joined(&stderr);
    assert!(ok, "include-dir failed: {stderr}");
}

#[test]
fn test_nonexistent_input_fails() {
    let (ok, stderr) = fixtures().dry_run(&cli(&["nonexistent.cddl"]));
    let stderr = joined(&stderr);
    assert!(!ok);
    assert!(stderr.contains("error") || stderr.contains("nonexistent"));
}

#[test]
fn test_no_std_requires_rust() {
    let mut c = cli(&["/fixtures/sensor.cddl"]);
    c.lang = Lang::C;
    c.no_std = true;
    let (ok, stderr) = fixtures().dry_run(&c);
    let stderr = joined(&stderr);
    assert!(!ok);
    assert!(stderr.contains("no-std") || stderr.contains("rust"));
}

// ── The loader's laws on concrete trees ────────────────────────────────────

#[test]
fn loader_reports_cycle_from_entry() {
    let mut t = Tree::new();
    t.add("/s/a.cddl", file(&["b.cddl"], &["a"]));
    t.add("/s/b.cddl", file(&["c.cddl"], &["b"]));
    t.add("/s/c.cddl", file(&["a.cddl"], &["c"]));
    let (r, _) = t.load("/s/a.cddl", &[]);
    match r {
        Err(LoadError::Cycle { cycle }) => {
            assert_eq!(cycle, vec!["/s/a.cddl", "/s/b.cddl", "/s/c.cddl", "/s/a.cddl"]);
            let e = LoadError::Cycle { cycle };
            assert_eq!(e.message(), "import cycle: /s/a.cddl → /s/b.cddl → /s/c.cddl → /s/a.cddl");
        }
        _ => panic!("expected a cycle"),
    }
}

#[test]
fn loader_reports_self_import_as_cycle() {
    let mut t = Tree::new();
    t.add("/s/a.cddl", file(&["a.cddl"], &["a"]));
    match t.load("/s/a.cddl", &[]).0 {
        Err(LoadError::Cycle { cycle }) => assert_eq!(cycle, vec!["/s/a.cddl", "/s/a.cddl"]),
        _ => panic!("expected a cycle"),
    }
}

#[test]
fn loader_loads_shared_dependency_once() {
    // a imports b and c; both import d.
    let mut t = Tree::new();
    t.add("/s/a.cddl", file(&["b.cddl", "c.cddl"], &["a"]));
    t.add("/s/b.cddl", file(&["d.cddl"], &["b"]));
    t.add("/s/c.cddl", file(&["d.cddl"], &["c"]));
    t.add("/s/d.cddl", file(&[], &["d1", "d2"]));
    let (r, read) = t.load("/s/a.cddl", &[]);
    let m = r.ok().unwrap();
    assert_eq!(rules(&m), vec!["d1", "d2", "b", "c", "a"]);
    assert_eq!(read, vec!["/s/a.cddl", "/s/b.cddl", "/s/d.cddl", "/s/c.cddl"]);
    assert_eq!(m.module.source_path, "/s/a.cddl");
    // the entry file's pragmas are kept, those of imports are not
    assert_eq!(m.module.file_pragmas.len(), 3);
    assert_eq!(m.module.file_pragmas[1].import.as_deref(), Some("b.cddl"));
}

#[test]
fn loader_hands_out_all_warnings_in_read_order() {
    // a imports b and c; c imports b again (already loaded: not read twice).
    let mut t = Tree::new();
    let mut a = file(&["b.cddl", "c.cddl"], &["a"]);
    a.warnings = vec!["warning in a"];
    let mut b = file(&[], &["b"]);
    b.warnings = vec!["warning in b", "second in b"];
    let mut c = file(&["b.cddl"], &["c"]);
    c.warnings = vec!["warning in c"];
    t.add("/s/a.cddl", a);
    t.add("/s/b.cddl", b);
    t.add("/s/c.cddl", c);
    let m = t.load("/s/a.cddl", &[]).0.ok().unwrap();
    assert_eq!(m.warnings, vec!["warning in a", "warning in b", "second in b", "warning in c"]);

    let mut t = Tree::new();
    let mut solo = file(&[], &["x"]);
    solo.warnings = vec!["w1", "w2"];
    t.add("/s/solo.cddl", solo);
    let m = t.load("/s/solo.cddl", &[]).0.ok().unwrap();
    assert_eq!(m.warnings, vec!["w1", "w2"]);
}

#[test]
fn loader_reports_missing_import() {
    let mut t = Tree::new();
    t.add("/s/a.cddl", file(&["gone.cddl"], &["a"]));
    match t.load("/s/a.cddl", &[]).0 {
        Err(e @ LoadError::Io { .. }) => {
            assert_eq!(e.message(), "I/O error reading 'gone.cddl': cannot find imported file 'gone.cddl'");
        }
        _ => panic!("expected an I/O error"),
    }
}

#[test]
fn loader_reports_parse_error() {
    let mut t = Tree::new();
    t.add("/s/a.cddl", file(&["b.cddl"], &["a"]));
    let mut b = file(&[], &[]);
    b.parse_error = Some("unexpected token at 3:7");
    t.add("/s/b.cddl", b);
    match t.load("/s/a.cddl", &[]).0 {
        Err(e @ LoadError::Parse(_)) => assert_eq!(e.message(), "unexpected token at 3:7"),
        _ => panic!("expected a parse error"),
    }
}

#[test]
fn resolve_import_prefers_first_existing_candidate() {
    let candidates = vec!["/a/p.cddl".to_string(), "/inc1/p.cddl".to_string(), "/inc2/p.cddl".to_string()];
    let probes = vec![
        Probe::Missing,
        Probe::Found("/inc1/p.cddl".to_string()),
        Probe::Found("/inc2/p.cddl".to_string()),
    ];
    assert_eq!(resolve_import("p.cddl", &candidates, &probes).ok().unwrap(), "/inc1/p.cddl");
    let probes = vec![
        Probe::Failed { reason: "denied".to_string() },
        Probe::Found("/inc1/p.cddl".to_string()),
    ];
    match resolve_import("p.cddl", &candidates, &probes) {
        Err(LoadError::Io { path, source }) => {
            assert_eq!(path, "/a/p.cddl");
            assert_eq!(source, "denied");
        }
        _ => panic!("expected an I/O error"),
    }
    let probes = vec![Probe::Missing, Probe::Failed { reason: "loop".to_string() }];
    match resolve_import("p.cddl", &candidates, &probes) {
        Err(LoadError::Io { path, .. }) => assert_eq!(path, "/inc1/p.cddl"),
        _ => panic!("expected an I/O error"),
    }
    match resolve_import("p.cddl", &candidates, &vec![Probe::Missing]) {
        Err(LoadError::Io { path, source }) => {
            assert_eq!(path, "p.cddl");
            assert_eq!(source, "cannot find imported file 'p.cddl'");
        }
        _ => panic!("expected an I/O error"),
    }
}

#[test]
fn import_candidates_are_importing_dir_then_include_dirs() {
    let dirs = vec!["/inc1".to_string(), "/inc2".to_string()];
    assert_eq!(
        import_candidates("p.cddl", "/a/b/x.cddl", &dirs),
        vec!["/a/b/p.cddl".to_string(), "/inc1/p.cddl".to_string(), "/inc2/p.cddl".to_string()]
    );
    assert_eq!(import_candidates("sub/q.cddl", "/a/x.cddl", &vec![]), vec!["/a/sub/q.cddl".to_string()]);
    assert_eq!(import_candidates("p.cddl", "/", &dirs), vec!["/inc1/p.cddl".to_string(), "/inc2/p.cddl".to_string()]);
}

#[test]
fn loader_asks_for_candidates_in_search_order() {
    let mut t = Tree::new();
    t.add("/s/a.cddl", file(&["b.cddl"], &["a = 1"]));
    let (mut loader, step) = Loader::<(), String>::start("/s/a.cddl".to_string(), vec!["/inc".to_string()]);
    let step = match step {
        LoadStep::Read(path) => {
            assert_eq!(path, "/s/a.cddl");
            loader.file_loaded(t.parse(&path))
        }
        _ => panic!("expected a read"),
    };
    match step {
        LoadStep::Resolve { import, from, candidates } => {
            assert_eq!(import, "b.cddl");
            assert_eq!(from, "/s/a.cddl");
            assert_eq!(candidates, vec!["/s/b.cddl".to_string(), "/inc/b.cddl".to_string()]);
        }
        _ => panic!("expected a resolve step"),
    }
}

// ── Merging several entry files ─────────────────────────────────────────────

fn module(path: &str, pragmas: &[(&str, Option<&str>)], rules: &[&str], warnings: &[&str]) -> LoadedModule<(), String> {
    LoadedModule {
        module: cddlc::loader::CddlModule {
            source_path: path.to_string(),
            file_pragmas: pragmas
                .iter()
                .map(|(k, i)| Pragma { keyword: k.to_string(), import: i.map(|s| s.to_string()), value: () })
                .collect(),
            rules: rules.iter().map(|r| r.to_string()).collect(),
        },
        warnings: warnings.iter().map(|w| w.to_string()).collect(),
    }
}

#[test]
fn merge_keeps_first_module_and_import_pragmas_of_others() {
    let a = module("/a.cddl", &[("title", None), ("import", Some("x.cddl"))], &["r1"], &["wa"]);
    let b = module("/b.cddl", &[("capacity", None), ("import", Some("y.cddl"))], &["r2", "r3"], &["wb"]);
    let m = merge_loaded(vec![a, b]);
    assert_eq!(m.module.source_path, "/a.cddl");
    let kinds: Vec<&str> = m.module.file_pragmas.iter().map(|p| p.keyword.as_str()).collect();
    assert_eq!(kinds, vec!["title", "import", "import"]);
    assert_eq!(m.module.rules, vec!["r1", "r2", "r3"]);
    assert_eq!(m.warnings, vec!["wa", "wb"]);
}

#[test]
fn merge_of_nothing_is_module_cddl() {
    let m = merge_loaded::<(), String>(vec![]);
    assert_eq!(m.module.source_path, "module.cddl");
    assert!(m.module.rules.is_empty());
}

// ── Options ──────────────────────────────────────────────────────────────

#[test]
fn defaults_match_documentation() {
    let c = Cli::with_defaults(vec!["a.cddl".to_string()]);
    assert_eq!(c.lang, Lang::Rust);
    assert_eq!(c.output, "./generated");
    assert_eq!(c.runtime, "minicbor");
    assert_eq!(c.alloc, Alloc::Arena);
    assert_eq!((c.depth_limit, c.max_array, c.max_str), (16, 16, 64));
    assert!(!c.dry_run && !c.verbose && !c.no_std && !c.dcbor);
}

#[test]
fn no_std_accepted_for_rust_only() {
    let mut c = cli(&["a.cddl"]);
    c.no_std = true;
    assert!(check_target(&c).is_ok());
    for lang in [Lang::C, Lang::Cpp, Lang::Csharp, Lang::Python] {
        c.lang = lang;
        assert_eq!(check_target(&c).err().unwrap(), "--no-std is only valid with --lang rust");
    }
    c.no_std = false;
    assert!(check_target(&c).is_ok());
}

#[test]
fn codegen_options_follow_command_line() {
    let mut c = cli(&["a.cddl"]);
    c.max_array = 8;
    c.namespace = Some("ns".to_string());
    c.alloc = Alloc::Heap;
    let o = c.codegen_options();
    assert_eq!(o.max_array, 8);
    assert_eq!(o.namespace.as_deref(), Some("ns"));
    assert_eq!(o.alloc, Alloc::Heap);
    assert_eq!(o.format, Format::Cbor);
    assert_eq!(o.runtime, "minicbor");
}

#[test]
fn interop_languages_are_parsed() {
    let l = parse_interop_langs(" rust , c,python,cobol,");
    assert_eq!(l, InteropLangs { rust: true, c: true, cpp: false, csharp: false, nodejs: false, python: true });
    let l = parse_interop_langs("cpp\t,\u{3000}csharp,nodejs");
    assert_eq!(l, InteropLangs { rust: false, c: false, cpp: true, csharp: true, nodejs: true, python: false });
    let none = parse_interop_langs("");
    assert_eq!(none, InteropLangs { rust: false, c: false, cpp: false, csharp: false, nodejs: false, python: false });
    // a name must stand alone between commas
    assert!(!parse_interop_langs("rust c").rust);
}

#[test]
fn interop_lists_joined_by_comma_combine() {
    let x = parse_interop_langs("rust, python");
    let y = parse_interop_langs("c,rust");
    let xy = parse_interop_langs("rust, python,c,rust");
    assert_eq!(xy, InteropLangs {
        rust: x.rust || y.rust,
        c: x.c || y.c,
        cpp: x.cpp || y.cpp,
        csharp: x.csharp || y.csharp,
        nodejs: x.nodejs || y.nodejs,
        python: x.python || y.python,
    });
    assert_eq!(parse_interop_langs("c,rust, python"), xy);
}

// ── Text ───────────────────────────────────────────────────────────────────

#[test]
fn text_utilities() {
    assert_eq!(decimal_string(0), "0");
    assert_eq!(decimal_string(4), "4");
    assert_eq!(decimal_string(1234567), "1234567");
    assert_eq!(trim_str("  a b \t\n"), "a b");
    assert_eq!(trim_str("\u{a0}x\u{2003}"), "x");
    assert_eq!(trim_str("   "), "");
    assert!(white_space('\u{85}') && !white_space('x') && !white_space('\u{200b}'));
    assert!(same_text("abc", "abc") && !same_text("abc", "abd"));
    let parts = vec!["a".to_string(), "b".to_string(), "c".to_string()];
    assert_eq!(join_strings(&parts, ", "), "a, b, c");
    assert_eq!(join_strings(&vec![], ", "), "");
}

#[test]
fn report_lines() {
    assert_eq!(dry_run_message(4), "cddlc: dry-run complete (4 types)");
    assert_eq!(loading_line("/x/sensor.cddl"), "  loading: /x/sensor.cddl");
    assert_eq!(loading_banner(2), "cddlc: loading 2 input file(s)...");
    assert_eq!(types_resolved_banner(12), "cddlc: 12 type(s) resolved:");
    assert_eq!(warning_line("unused rule"), "warning: unused rule");
    assert_eq!(wrote_line("out/lib.rs"), "cddlc: wrote out/lib.rs");
    assert_eq!(error_line("boom"), "error: boom");
}

// ── Validation ─────────────────────────────────────────────────────────────

#[test]
fn validation_plan_checks() {
    assert_eq!(plan_validation(None, "sensor", 1, 0).ok().unwrap(), "sensor");
    assert_eq!(plan_validation(Some("reading"), "sensor", 0, 2).ok().unwrap(), "reading");
    assert_eq!(plan_validation(None, "", 1, 1).err().unwrap(), "schema defines no rules to validate against");
    assert_eq!(plan_validation(Some(""), "sensor", 1, 1).err().unwrap(), "schema defines no rules to validate against");
    assert_eq!(plan_validation(None, "sensor", 0, 0).err().unwrap(), "no data files given — pass --json FILE and/or --cbor FILE");
}

#[test]
fn documents_are_decoded_by_kind() {
    match decode_document(DataKind::Json, br#"{"id": 7, "ok": true}"#) {
        Ok(Document::Json(v)) => assert_eq!(v["id"], 7),
        _ => panic!("expected JSON"),
    }
    let e = decode_document(DataKind::Json, b"{\"id\": ").err().unwrap();
    assert!(e.contains("EOF"), "{e}");
    // CBOR map {1: 2}
    match decode_document(DataKind::Cbor, &[0xa1, 0x01, 0x02]) {
        Ok(Document::Cbor(v)) => assert!(v.is_map()),
        _ => panic!("expected CBOR"),
    }
    assert!(decode_document(DataKind::Cbor, &[0xa1, 0x01]).is_err());
    // bytes that are CBOR but not JSON
    assert!(decode_document(DataKind::Json, &[0xa1, 0x01, 0x02]).is_err());
}

#[test]
fn file_reports() {
    let r = report_file("d.json", "sensor", &CheckOutcome::Valid);
    assert!(r.ok);
    assert_eq!(r.stdout, vec!["d.json: OK (sensor)"]);
    let r = report_file("d.json", "sensor", &CheckOutcome::Invalid(vec!["missing id".to_string(), "bad ok".to_string()]));
    assert!(!r.ok);
    assert_eq!(r.stdout, vec!["d.json: FAIL (sensor, 2 error(s))", "  missing id", "  bad ok"]);
    let r = report_file("d.cbor", "sensor", &CheckOutcome::DecodeFailed("eof".to_string()));
    assert!(!r.ok && r.stdout.is_empty());
    assert_eq!(r.stderr, vec!["d.cbor: decode error: eof"]);
    let r = report_file("d.cbor", "sensor", &CheckOutcome::ReadFailed("gone".to_string()));
    assert_eq!(r.stderr, vec!["d.cbor: I/O error: gone"]);
}
