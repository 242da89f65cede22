use wasm_type_gen::compiler::{
    artifact_names, check_required_crates, compose_unit, content_hash, extern_arg, finish_build,
    first_stale, missing_crates, output_dir, plan_build, plan_units, select_deletions, unit_artifact,
    UnitsPlan, extern_step, ExternStep,
    BuildStep, Built, CompileError, CompileOutcome,
};

#[test]
fn compose_strips_parent_imports() {
    let src = "use super::*;\nfn main() {}\nuse super::*;";
    assert_eq!(compose_unit(src, Some("extra")), "\nfn main() {}\n\nextra");
    assert_eq!(compose_unit("a use super::*; b", None), "a  b");
}

#[test]
fn content_hash_is_adler32() {
    assert_eq!(content_hash("abc"), 0x024d_0127);
    assert_eq!(content_hash(""), 1);
}

#[test]
fn artifact_names_follow_unit_and_hash() {
    let named = artifact_names("/out", "mymod", 123);
    assert_eq!(named.artifact_path, "/out/mymod.123.wasm");
    assert_eq!(named.last_path, "/out/mymod.last.wasm");
    let single = artifact_names("/out", "", 7);
    assert_eq!(single.artifact_path, "/out/7.wasm");
    assert_eq!(single.last_path, "/out/last.wasm");
}

#[test]
fn output_dir_resolution() {
    assert_eq!(output_dir(Some("/abs"), "/m"), "/abs");
    assert_eq!(output_dir(Some("rel"), "/m"), "/m/rel");
    assert_eq!(output_dir(None, "/m"), "/m/wasmout");
}

#[test]
fn second_compile_of_same_text_is_cached() {
    let text = compose_unit("fn f() {}", None);
    let names = artifact_names("/out", "unit", content_hash(&text));
    let first = plan_build(&names, "unit", false, false, false);
    assert!(matches!(first, BuildStep::Compile));
    let built = finish_build(CompileOutcome::Built, &names, false);
    let path = match built {
        Ok(Built::Fresh(p)) => p,
        _ => panic!("expected a fresh build"),
    };
    assert_eq!(path, names.artifact_path);
    let again = artifact_names("/out", "unit", content_hash(&compose_unit("fn f() {}", None)));
    match plan_build(&again, "unit", true, true, false) {
        BuildStep::UseCached { path, promote } => {
            assert_eq!(path, names.artifact_path);
            assert!(!promote);
        }
        _ => panic!("expected a cache hit"),
    }
}

#[test]
fn single_file_cache_hit_promotes() {
    let names = artifact_names("/out", "", 9);
    match plan_build(&names, "", true, false, false) {
        BuildStep::UseCached { promote, .. } => assert!(promote),
        _ => panic!("expected a cache hit"),
    }
}

#[test]
fn interactive_build_uses_last_good() {
    let names = artifact_names("/out", "u", 9);
    match plan_build(&names, "u", false, true, true) {
        BuildStep::UseLast { path } => assert_eq!(path, "/out/u.last.wasm"),
        _ => panic!("expected the last good module"),
    }
    assert!(matches!(plan_build(&names, "u", false, false, true), BuildStep::Compile));
    assert!(matches!(plan_build(&names, "u", false, true, false), BuildStep::Compile));
}

#[test]
fn failed_compile_falls_back_to_last_good() {
    let names = artifact_names("/out", "u", 1);
    match finish_build(CompileOutcome::Failed("error[E0425]".to_string()), &names, true) {
        Ok(Built::Fallback(p)) => assert_eq!(p, "/out/u.last.wasm"),
        _ => panic!("expected the fallback"),
    }
    match finish_build(CompileOutcome::WaitFailed("x".to_string()), &names, true) {
        Ok(Built::Fallback(p)) => assert_eq!(p, "/out/u.last.wasm"),
        _ => panic!("expected the fallback"),
    }
}

#[test]
fn spawn_failure_without_artifact_is_reported() {
    let names = artifact_names("/out", "u", 1);
    let diag = "No such file or directory (os error 2)";
    match finish_build(CompileOutcome::InvokeFailed(diag.to_string()), &names, false) {
        Err(CompileError::InvokeFailed(d)) => assert!(d.contains(diag)),
        _ => panic!("expected an invoke failure"),
    }
    match finish_build(CompileOutcome::Failed("bad".to_string()), &names, false) {
        Err(CompileError::CompileFailed(d)) => assert_eq!(d, "bad"),
        _ => panic!("expected a compile failure"),
    }
    match finish_build(CompileOutcome::WriteInputFailed("pipe".to_string()), &names, false) {
        Err(CompileError::WriteInputFailed(d)) => assert_eq!(d, "pipe"),
        _ => panic!("expected a write failure"),
    }
}

#[test]
fn unit_artifacts() {
    let lib = unit_artifact("/o", "apple", 42, false);
    assert_eq!(lib.output_name, "libapple.rlib");
    assert_eq!(lib.output_path, "/o/libapple.rlib");
    assert_eq!(lib.stamp_path, "/o/libapple.rlib.42.txt");
    assert_eq!(lib.delete_prefix, "libapple");
    let fin = unit_artifact("/o", "orange", 5, true);
    assert_eq!(fin.output_path, "/o/orange.wasm");
    assert_eq!(fin.stamp_path, "/o/orange.wasm.5.txt");
    assert_eq!(fin.delete_prefix, "orange");
}

#[test]
fn first_stale_unit() {
    assert_eq!(first_stale(&vec![true, false, true]), Some(1));
    assert_eq!(first_stale(&vec![true, true]), None);
    assert_eq!(first_stale(&vec![]), None);
}

#[test]
fn stale_artifacts_are_selected() {
    let files = vec![
        ("orange.1.wasm".to_string(), "/o/orange.1.wasm".to_string()),
        ("orange.wasm".to_string(), "/o/orange.wasm".to_string()),
        ("apple.wasm".to_string(), "/o/apple.wasm".to_string()),
        ("orange.wasm.2.txt".to_string(), "/o/orange.wasm.2.txt".to_string()),
    ];
    let prefixes = vec!["orange".to_string()];
    let keep = vec!["/o/orange.wasm".to_string(), "/o/orange.wasm.2.txt".to_string()];
    assert_eq!(select_deletions(&files, &prefixes, &keep), vec!["/o/orange.1.wasm".to_string()]);
    assert!(select_deletions(&files, &prefixes, &vec![]).is_empty());
}

#[test]
fn missing_dependencies_are_listed() {
    let required = vec!["serde".to_string(), "rand".to_string(), "log".to_string()];
    let declared = vec!["serde".to_string()];
    assert_eq!(missing_crates(&required, &declared), vec!["rand".to_string(), "log".to_string()]);
    let manifest = "[package]\nname = \"x\"\n\n[dependencies]\nserde = \"1\"\n";
    match check_required_crates(&required, Some(manifest)) {
        Err(CompileError::MissingExternCrate(m)) => assert_eq!(m, vec!["rand".to_string(), "log".to_string()]),
        _ => panic!("expected missing crates"),
    }
    assert!(check_required_crates(&vec!["serde".to_string()], Some(manifest)).is_ok());
    assert!(check_required_crates(&vec![], None).is_ok());
    assert!(matches!(
        check_required_crates(&required, None),
        Err(CompileError::ManifestReadFailed(_))
    ));
    assert!(matches!(
        check_required_crates(&required, Some("[[[")),
        Err(CompileError::ManifestReadFailed(_))
    ));
}

#[test]
fn extern_args() {
    assert_eq!(extern_arg("my-crate", "/d/libmy_crate-1.rlib"), "my_crate=/d/libmy_crate-1.rlib");
    assert_eq!(extern_arg("serde", "/d/libserde-1.rlib"), "serde=/d/libserde-1.rlib");
}

#[test]
fn extern_dependency_files() {
    assert_eq!(wasm_type_gen::compiler::extern_cache_file("/o", "serde"), "/o/externloc_serde.txt");
    assert_eq!(
        wasm_type_gen::compiler::extern_location("/t/deps", "  libserde-abc.rlib\n"),
        "/t/deps/libserde-abc.rlib"
    );
    assert_eq!(wasm_type_gen::compiler::extern_location("/t", " \n"), "/t/");
}

#[test]
fn multi_unit_plan() {
    let units = vec![unit_artifact("/o", "apple", 1, false), unit_artifact("/o", "orange", 2, true)];
    match plan_units(&units, &vec![true, true], false, false) {
        Ok(UnitsPlan::Current(p)) => assert_eq!(p, "/o/orange.wasm"),
        _ => panic!("expected current"),
    }
    match plan_units(&units, &vec![false, true], false, false) {
        Ok(UnitsPlan::Rebuild { from, delete_prefixes, keep }) => {
            assert_eq!(from, 0);
            assert_eq!(delete_prefixes, vec!["libapple".to_string(), "orange".to_string()]);
            assert_eq!(
                keep,
                vec![
                    "/o/libapple.rlib".to_string(),
                    "/o/orange.wasm".to_string(),
                    "/o/libapple.rlib.1.txt".to_string(),
                    "/o/orange.wasm.2.txt".to_string(),
                ]
            );
        }
        _ => panic!("expected a rebuild"),
    }
    assert!(matches!(plan_units(&vec![], &vec![], true, true), Err(CompileError::NoUnits)));
}

#[test]
fn interactive_multi_unit_uses_existing_module() {
    let units = vec![unit_artifact("/o", "apple", 1, false), unit_artifact("/o", "orange", 2, true)];
    match plan_units(&units, &vec![false, false], true, true) {
        Ok(UnitsPlan::Current(p)) => assert_eq!(p, "/o/orange.wasm"),
        _ => panic!("expected the existing module"),
    }
    assert!(matches!(plan_units(&units, &vec![false, false], true, false), Ok(UnitsPlan::Rebuild { .. })));
}

#[test]
fn extern_reuse_decision() {
    assert!(matches!(extern_step(None, false), ExternStep::Compile { drop_record: false }));
    assert!(matches!(extern_step(Some("/l".to_string()), true), ExternStep::Compile { drop_record: true }));
    match extern_step(Some("/l".to_string()), false) {
        ExternStep::Reuse(p) => assert_eq!(p, "/l"),
        _ => panic!("expected reuse"),
    }
}

#[test]
fn unicode_white_space_is_trimmed() {
    assert_eq!(
        wasm_type_gen::compiler::extern_location("/t", "\u{3000}lib.rlib\u{a0}\n"),
        "/t/lib.rlib"
    );
}
