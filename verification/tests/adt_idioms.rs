use rust_interview_lab::adt_idioms::{summarize, Command, CommandError, GpuCount};

#[test]
fn parses_each_command_variant() {
    assert_eq!(Command::parse("list"), Ok(Command::List));
    assert_eq!(Command::parse("get wl-7"), Ok(Command::Get { id: "wl-7".into() }));
    assert_eq!(
        Command::parse("create triton 4"),
        Ok(Command::Create { name: "triton".into(), gpus: GpuCount::new(4).expect("valid") })
    );
    assert_eq!(Command::parse("delete wl-7"), Ok(Command::Delete { id: "wl-7".into() }));
}

#[test]
fn rejects_bad_input_with_typed_errors() {
    assert_eq!(Command::parse(""), Err(CommandError::Empty));
    assert_eq!(Command::parse("frobnicate"), Err(CommandError::UnknownVerb("frobnicate".into())));
    assert_eq!(Command::parse("get"), Err(CommandError::MissingArgument("id")));
    assert_eq!(Command::parse("create triton 0"), Err(CommandError::InvalidGpuCount("0".into())));
    assert_eq!(Command::parse("create triton many"), Err(CommandError::InvalidGpuCount("many".into())));
}

#[test]
fn newtype_rejects_out_of_range_values() {
    assert!(GpuCount::new(1).is_ok());
    assert!(GpuCount::new(64).is_ok());
    assert!(GpuCount::new(0).is_err());
    assert!(GpuCount::new(65).is_err());
    assert_eq!(u32::from(GpuCount::try_from(8).expect("valid")), 8);
    assert!(GpuCount::try_from(0).is_err());
}

#[test]
fn summarize_reports_count_and_sum() {
    assert_eq!(summarize(&[]), (0, 0));
    assert_eq!(summarize(&[1, 2, 3]), (3, 6));
    assert_eq!(summarize(&[-5, 5]), (2, 0));
}

#[test]
fn errors_render_a_reason() {
    assert_eq!(Command::parse("create triton 0").unwrap_err().to_string(), "invalid gpu count: \"0\"");
    assert!(GpuCount::new(99).unwrap_err().to_string().contains("outside"));
}

#[test]
fn gpu_count_error_names_the_value_and_range() {
    assert_eq!(GpuCount::new(99).unwrap_err().to_string(), "gpu count 99 is outside 1..=64");
    assert_eq!(GpuCount::new(7).unwrap().get(), 7);
}

#[test]
fn command_errors_render_each_case() {
    assert_eq!(CommandError::Empty.to_string(), "empty command");
    assert_eq!(CommandError::MissingArgument("name").to_string(), "missing argument: name");
    assert_eq!(CommandError::UnknownVerb("x".into()).to_string(), "unknown verb \"x\"");
}

#[test]
fn extra_words_are_ignored_and_verbs_are_named() {
    let parsed = Command::parse("  get   wl-9  extra ").unwrap();
    assert_eq!(parsed, Command::Get { id: "wl-9".into() });
    assert_eq!(parsed.verb(), "get");
    assert_eq!(Command::parse("create triton").unwrap_err(), CommandError::MissingArgument("gpu count"));
}
