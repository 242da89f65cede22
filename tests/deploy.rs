use wasm_type_gen::deploy::{render_script, CommandError, Contribution, Section};

fn contrib(module: &str, item: &str, section: Section, lines: &[&str]) -> Contribution {
    Contribution {
        module: module.to_string(),
        item: item.to_string(),
        section,
        lines: lines.iter().map(|l| l.to_string()).collect(),
    }
}

#[test]
fn sections_in_order_with_markers() {
    let cs = vec![
        contrib("m2", "B", Section::Deploy, &["./deploy.sh"]),
        contrib("m1", "A", Section::Build, &["cargo build", "cargo test"]),
        contrib("m3", "C", Section::Build, &["make"]),
    ];
    let script = render_script(&cs).unwrap_or_else(|_| panic!("refused"));
    assert_eq!(
        script,
        "# pre-build\n# build\n#>>> m1::A\ncargo build\ncargo test\n#<<< m1::A\n#>>> m3::C\nmake\n#<<< m3::C\n# package\n# deploy\n#>>> m2::B\n./deploy.sh\n#<<< m2::B\n# post-deploy\n"
    );
}

#[test]
fn bad_lines_are_refused() {
    let marker = vec![contrib("m", "I", Section::Build, &["echo #>>> x"])];
    assert!(matches!(render_script(&marker), Err(CommandError::ReservedMarker { .. })));
    let newline = vec![contrib("m", "I", Section::Build, &["a\nb"])];
    match render_script(&newline) {
        Err(CommandError::Newline { module, item, line }) => {
            assert_eq!(module, "m");
            assert_eq!(item, "I");
            assert_eq!(line, "a\nb");
        }
        _ => panic!("expected a newline refusal"),
    }
    let blank = vec![contrib("m", "I", Section::Package, &["   \t"])];
    assert!(matches!(render_script(&blank), Err(CommandError::Blank { .. })));
}

#[test]
fn empty_session_has_all_headers() {
    let script = render_script(&vec![]).unwrap_or_else(|_| panic!("refused"));
    assert_eq!(script, "# pre-build\n# build\n# package\n# deploy\n# post-deploy\n");
}
