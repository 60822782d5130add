use bf::bfvm::BfVM;
use bf::errors::{vm_error, CompileErrorKind, RuntimeError, VMError};

#[test]
fn run_copies_input_byte() {
    // `,.` reads one byte and writes it back out.
    let mut vm = BfVM::new(",.", vec![0x41], vec![], false).unwrap();
    assert!(vm.run().is_ok());
    assert_eq!(vm.output, vec![0x41]);
}

#[test]
fn read_at_end_of_stream_is_not_an_error() {
    // `,` against an empty input succeeds and leaves the cell at its prior
    // value: zero on a fresh buffer.
    let mut vm = BfVM::new(",", vec![], vec![], false).unwrap();
    assert!(vm.run().is_ok());
    assert_eq!(vm.memory[0], 0);

    // The same with a non-zero prior value.
    let mut vm = BfVM::new("+++,.", vec![], vec![], false).unwrap();
    assert!(vm.run().is_ok());
    assert_eq!(vm.memory[0], 3);
    assert_eq!(vm.output, vec![3]);
}

#[test]
fn cursor_underflow_fails_and_stops() {
    // Moving to index -1 fails; the `.` after the violating move never runs.
    let mut vm = BfVM::new("<.", vec![], vec![], false).unwrap();
    match vm.run().unwrap_err() {
        VMError::Runtime(RuntimeError::PointerOverflow) => {}
        _ => panic!(),
    }
    assert!(vm.output.is_empty());
}

#[test]
fn cursor_overflow_fails_and_stops() {
    // 30,000 moves right step from the last valid cell to index 30,000.
    let src: String = ">".repeat(30000) + ".";
    let mut vm = BfVM::new(&src, vec![], vec![], false).unwrap();
    match vm.run().unwrap_err() {
        VMError::Runtime(RuntimeError::PointerOverflow) => {}
        _ => panic!(),
    }
    assert!(vm.output.is_empty());

    // 29,999 moves right stay inside the buffer.
    let src: String = ">".repeat(29999);
    let mut vm = BfVM::new(&src, vec![], vec![], false).unwrap();
    assert!(vm.run().is_ok());
}

#[test]
fn cell_arithmetic_wraps() {
    let mut vm = BfVM::new("-.", vec![], vec![], false).unwrap();
    assert!(vm.run().is_ok());
    assert_eq!(vm.output, vec![255]);
}

#[test]
fn loops_run_until_cell_is_zero() {
    // Move two times three into the next cell, then print it.
    let mut vm = BfVM::new("++[->+++<]>.", vec![], vec![], false).unwrap();
    assert!(vm.run().is_ok());
    assert_eq!(vm.output, vec![6]);
}

#[test]
fn skipped_loop_body_does_not_run() {
    let mut vm = BfVM::new("[.]", vec![], vec![], false).unwrap();
    assert!(vm.run().is_ok());
    assert!(vm.output.is_empty());
}

#[test]
fn optimized_run_matches_unoptimized() {
    // The same program, compiled with and without optimization, produces
    // byte-identical output.
    let src = "++[->+++<]>+.,[->+<]>.";
    let input = vec![7u8];
    let mut plain = BfVM::new(src, input.clone(), vec![], false).unwrap();
    assert!(plain.run().is_ok());
    let mut opt = BfVM::new(src, input, vec![], true).unwrap();
    assert!(opt.run().is_ok());
    assert_eq!(plain.output, opt.output);
}

#[test]
fn optimized_straightline_run_matches_unoptimized() {
    let src = "+++>++<,.>.>,.";
    let input = vec![0x10u8, 0x20];
    let mut plain = BfVM::new(src, input.clone(), vec![], false).unwrap();
    assert!(plain.run().is_ok());
    let mut opt = BfVM::new(src, input, vec![], true).unwrap();
    assert!(opt.run().is_ok());
    assert_eq!(plain.output, opt.output);
    assert_eq!(plain.output, vec![0x10, 2, 0x20]);
}

#[test]
fn construction_reports_compile_errors() {
    match BfVM::new("]", vec![], vec![], true).unwrap_err() {
        VMError::Compile(e) => match e.kind {
            CompileErrorKind::UnexpectedRightBracket => {}
            _ => panic!(),
        },
        _ => panic!(),
    }
}

#[test]
fn vm_error_wraps_runtime_errors() {
    match vm_error(RuntimeError::PointerOverflow) {
        VMError::Runtime(RuntimeError::PointerOverflow) => {}
        _ => panic!(),
    }
    match vm_error(RuntimeError::IO(String::from("broken stream"))) {
        VMError::Runtime(RuntimeError::IO(m)) => assert_eq!(m, "broken stream"),
        _ => panic!(),
    }
}
