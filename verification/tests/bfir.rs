use bf::bfir::{compile, optimize, BfIR};
use bf::errors::CompileErrorKind;

#[test]
fn test_compile() {
    assert_eq!(
        compile("+[,.]").unwrap(),
        vec![
            BfIR::AddVal(1),
            BfIR::Jz,
            BfIR::GetByte,
            BfIR::PutByte,
            BfIR::Jnz,
        ]
    );

    match compile("[").unwrap_err().kind {
        CompileErrorKind::UnclosedLeftBracket => {}
        _ => panic!(),
    };

    match compile("]").unwrap_err().kind {
        CompileErrorKind::UnexpectedRightBracket => {}
        _ => panic!(),
    };

    let mut code = compile("[+++++]").unwrap();
    optimize(&mut code);
    assert_eq!(code, vec![BfIR::Jz, BfIR::AddVal(5), BfIR::Jnz]);
}

#[test]
fn compile_maps_every_op() {
    assert_eq!(
        compile("+-><,.").unwrap(),
        vec![
            BfIR::AddVal(1),
            BfIR::SubVal(1),
            BfIR::AddPtr(1),
            BfIR::SubPtr(1),
            BfIR::GetByte,
            BfIR::PutByte,
        ]
    );
}

#[test]
fn compile_ignores_comments() {
    assert_eq!(
        compile("a + b - c!").unwrap(),
        vec![BfIR::AddVal(1), BfIR::SubVal(1)]
    );
}

#[test]
fn balanced_source_compiles() {
    assert!(compile("[[+][-]][,.]").is_ok());
    assert!(compile("").is_ok());
}

#[test]
fn unclosed_bracket_reports_innermost() {
    // Two consecutive unmatched opening brackets: the error carries the
    // position of the second, more recently opened one.
    let e = compile("[[").unwrap_err();
    match e.kind {
        CompileErrorKind::UnclosedLeftBracket => {}
        _ => panic!(),
    }
    assert_eq!(e.line, 1);
    assert_eq!(e.col, 3);
}

#[test]
fn error_positions_track_lines() {
    // Column counting restarts at a newline, so the first character of a
    // new line is reported at column 1.
    let e = compile("\n]").unwrap_err();
    match e.kind {
        CompileErrorKind::UnexpectedRightBracket => {}
        _ => panic!(),
    }
    assert_eq!(e.line, 2);
    assert_eq!(e.col, 1);
}

#[test]
fn optimize_folds_runs() {
    let mut code = compile("+++>>---<<").unwrap();
    optimize(&mut code);
    assert_eq!(
        code,
        vec![
            BfIR::AddVal(3),
            BfIR::AddPtr(2),
            BfIR::SubVal(3),
            BfIR::SubPtr(2),
        ]
    );
}

#[test]
fn optimize_wraps_modulo_256() {
    // 300 consecutive increments fold to a single delta of 300 mod 256.
    let mut code = vec![BfIR::AddVal(1); 300];
    optimize(&mut code);
    assert_eq!(code, vec![BfIR::AddVal(44)]);
}

#[test]
fn optimize_keeps_zero_delta() {
    // A run whose deltas sum to a multiple of 256 becomes a single no-op
    // instruction; it is retained, not elided.
    let mut code = vec![BfIR::AddVal(1); 256];
    optimize(&mut code);
    assert_eq!(code, vec![BfIR::AddVal(0)]);
}

#[test]
fn optimize_does_not_merge_across_kinds() {
    let mut code = compile("+,+.+").unwrap();
    optimize(&mut code);
    assert_eq!(
        code,
        vec![
            BfIR::AddVal(1),
            BfIR::GetByte,
            BfIR::AddVal(1),
            BfIR::PutByte,
            BfIR::AddVal(1),
        ]
    );
}

#[test]
fn optimize_leaves_folded_code_alone() {
    let mut code = vec![
        BfIR::AddVal(2),
        BfIR::Jz,
        BfIR::SubVal(1),
        BfIR::AddPtr(3),
        BfIR::Jnz,
        BfIR::GetByte,
    ];
    let before = code.clone();
    optimize(&mut code);
    assert_eq!(code, before);
}

#[test]
fn optimize_twice_equals_once() {
    let mut once = compile("++[-->>+++<<]..,,<<>>").unwrap();
    optimize(&mut once);
    let mut twice = once.clone();
    optimize(&mut twice);
    assert_eq!(once, twice);
}
