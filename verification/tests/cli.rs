use vex::cli::{parse_args, CliError};

fn run(args: &[&str]) -> Result<Option<vex::cli::CliArgs>, CliError> {
    let args: Vec<String> = args.iter().map(|s| s.to_string()).collect();
    let numeric: Vec<bool> = args.iter().map(|a| a.parse::<f32>().is_ok()).collect();
    parse_args(&args, &numeric)
}

#[test]
fn input_output_and_crease() {
    let parsed = run(&["model.gltf", "-o", "out.vec", "--crease", "45"]).unwrap().unwrap();
    assert_eq!(parsed.input, "model.gltf");
    assert_eq!(parsed.output.as_deref(), Some("out.vec"));
    assert_eq!(parsed.crease.as_deref(), Some("45"));
}

#[test]
fn defaults_leave_output_and_crease_open() {
    let parsed = run(&["model.glb"]).unwrap().unwrap();
    assert_eq!(parsed.input, "model.glb");
    assert!(parsed.output.is_none());
    assert!(parsed.crease.is_none());
}

#[test]
fn help_or_no_input_asks_for_usage() {
    assert!(run(&[]).unwrap().is_none());
    assert!(run(&["-h"]).unwrap().is_none());
    assert!(run(&["model.gltf", "--help", "--bogus"]).unwrap().is_none());
    assert!(run(&["--output", "x.vec"]).unwrap().is_none());
}

#[test]
fn each_error_names_its_cause() {
    assert!(matches!(run(&["a.gltf", "-o"]), Err(CliError::MissingOutputPath)));
    assert!(matches!(run(&["a.gltf", "--crease"]), Err(CliError::MissingCreaseValue)));
    assert!(matches!(run(&["a.gltf", "--crease", "steep", "--bogus"]), Err(CliError::CreaseNotNumber(v)) if v == "steep"));
    assert!(matches!(run(&["a.gltf", "--bogus"]), Err(CliError::UnknownArgument(v)) if v == "--bogus"));
    assert!(matches!(run(&["a.gltf", "b.gltf"]), Err(CliError::UnknownArgument(v)) if v == "b.gltf"));
}

#[test]
fn output_takes_the_next_argument_whatever_it_is() {
    let parsed = run(&["-o", "-weird.vec", "in.gltf", "--crease", "10", "--crease", "20"]).unwrap().unwrap();
    assert_eq!(parsed.output.as_deref(), Some("-weird.vec"));
    assert_eq!(parsed.input, "in.gltf");
    assert_eq!(parsed.crease.as_deref(), Some("20"));
}
