use mission_center::kwin_blur::{
    advance, clamp_percent, command_result, parse_kwin_blur_output, preset, preset_index,
    read_arguments, refresh_may_start, reload_arguments, reports_loaded, start_apply,
    write_arguments, BlurApply, BlurCommand, BlurOutcome, KwinBlurState,
};

fn explicit(value: i32) -> KwinBlurState {
    KwinBlurState { value, explicitly_set: true }
}

#[test]
fn the_default_is_kwins_unset_strength() {
    assert_eq!(KwinBlurState::default(), KwinBlurState { value: 15, explicitly_set: false });
}

#[test]
fn displayed_value_is_clamped() {
    assert_eq!(explicit(0).displayed_value(), 1);
    assert_eq!(explicit(7).displayed_value(), 7);
    assert_eq!(explicit(99).displayed_value(), 15);
}

#[test]
fn kreadconfig_output_is_parsed() {
    assert_eq!(
        parse_kwin_blur_output("mission-center-unset\n"),
        Ok(KwinBlurState::default())
    );
    assert_eq!(parse_kwin_blur_output(" 9\n"), Ok(explicit(9)));
    assert_eq!(parse_kwin_blur_output("-3"), Ok(explicit(-3)));
    let error = parse_kwin_blur_output("strong").unwrap_err();
    assert_eq!(
        error,
        "Invalid KWin blur strength \"strong\": invalid digit found in string"
    );
    assert_eq!(
        parse_kwin_blur_output("").unwrap_err(),
        "Invalid KWin blur strength \"\": cannot parse integer from empty string"
    );
}

#[test]
fn write_arguments_set_or_delete_the_key() {
    let base = [
        "kwriteconfig6", "--file", "kwinrc", "--group", "Effect-blur", "--key", "BlurStrength",
    ];
    let mut set: Vec<String> = base.iter().map(|s| s.to_string()).collect();
    set.push("12".to_string());
    assert_eq!(write_arguments(explicit(12)), set);
    let mut delete: Vec<String> = base.iter().map(|s| s.to_string()).collect();
    delete.push("--delete".to_string());
    delete.push(String::new());
    assert_eq!(write_arguments(KwinBlurState::default()), delete);
    assert_eq!(read_arguments().last().unwrap(), "mission-center-unset");
    assert_eq!(reload_arguments()[3], "org.kde.kwin.Effects.reconfigureEffect");
}

#[test]
fn kwin_reports_the_effect_loaded() {
    assert!(reports_loaded("true\n"));
    assert!(!reports_loaded("false\n"));
}

fn finish(command: BlurCommand) -> Result<KwinBlurState, (Option<KwinBlurState>, String)> {
    match command {
        BlurCommand::Finish(result) => result,
        other => panic!("expected the end, got {:?}", other),
    }
}

#[test]
fn a_successful_change_writes_the_clamped_strength() {
    let (step, command) = start_apply(40, explicit(3));
    assert!(matches!(command, BlurCommand::Read));
    let (step, command) = advance(step, BlurOutcome::Read(Ok(explicit(5))));
    assert!(matches!(command, BlurCommand::Write(s) if s == explicit(15)));
    let (step, command) = advance(step.unwrap(), BlurOutcome::Done(Ok(())));
    assert!(matches!(command, BlurCommand::Reload));
    let (step, command) = advance(step.unwrap(), BlurOutcome::Done(Ok(())));
    assert!(step.is_none());
    assert_eq!(finish(command), Ok(explicit(15)));
}

#[test]
fn an_unreadable_setting_keeps_the_fallback() {
    let (step, _) = start_apply(4, explicit(3));
    let (step, command) = advance(step, BlurOutcome::Read(Err("no kwin".to_string())));
    assert!(step.is_none());
    assert_eq!(finish(command), Err((Some(explicit(3)), "no kwin".to_string())));
}

#[test]
fn a_failed_write_reports_the_old_strength_only_when_unchanged() {
    let run = |after: Result<KwinBlurState, String>| {
        let step = BlurApply::Writing { previous: explicit(5), state: explicit(8) };
        let (step, command) = advance(step, BlurOutcome::Done(Err("denied".to_string())));
        assert!(matches!(command, BlurCommand::Read));
        let (_, command) = advance(step.unwrap(), BlurOutcome::Read(after));
        finish(command)
    };
    assert_eq!(run(Ok(explicit(5))), Err((Some(explicit(5)), "denied".to_string())));
    assert_eq!(run(Ok(explicit(8))), Err((None, "denied".to_string())));
    assert_eq!(run(Err("gone".to_string())), Err((None, "denied".to_string())));
}

#[test]
fn a_failed_reload_rolls_back() {
    let step = BlurApply::Reloading { previous: explicit(5), state: explicit(8) };
    let (step, command) = advance(step, BlurOutcome::Done(Err("no bus".to_string())));
    assert!(matches!(command, BlurCommand::Write(s) if s == explicit(5)));
    let (step, command) = advance(step.unwrap(), BlurOutcome::Done(Ok(())));
    assert!(matches!(command, BlurCommand::Reload));
    let (_, command) = advance(step.unwrap(), BlurOutcome::Done(Ok(())));
    assert_eq!(finish(command), Err((Some(explicit(5)), "no bus".to_string())));

    let step = BlurApply::RollingBack { previous: explicit(5), error: "no bus".to_string() };
    let (_, command) = advance(step, BlurOutcome::Done(Err("read-only".to_string())));
    assert_eq!(
        finish(command),
        Err((None, "no bus; rollback failed: read-only".to_string()))
    );
}

#[test]
fn presets_are_recognised() {
    assert_eq!(preset_index(preset(1)), 1);
    assert_eq!(preset_index([100, 0, 0, 0, 20]), 3);
    assert_eq!(preset_index([1, 2, 3, 4, 5]), 4);
}

#[test]
fn refresh_waits_for_other_work() {
    assert!(refresh_may_start(true, false, false, false));
    assert!(!refresh_may_start(true, true, false, false));
    assert!(!refresh_may_start(false, false, false, false));
}

#[test]
fn percentages_are_clamped() {
    assert_eq!(clamp_percent(-4), 0);
    assert_eq!(clamp_percent(42), 42);
    assert_eq!(clamp_percent(250), 100);
}

#[test]
fn helper_program_results() {
    assert_eq!(
        command_result("qdbus6", true, 9, false, false, 0, None, None),
        Err("qdbus6 terminated by signal 9".to_string())
    );
    assert_eq!(
        command_result("qdbus6", false, 0, false, false, 0, None, None),
        Err("qdbus6 did not exit normally".to_string())
    );
    assert_eq!(
        command_result("qdbus6", false, 0, true, false, 2, None, Some("  \n".to_string())),
        Err("qdbus6 exited with status 2".to_string())
    );
    assert_eq!(
        command_result("qdbus6", false, 0, true, false, 1, None, Some(" no such service\n".to_string())),
        Err("no such service".to_string())
    );
    assert_eq!(
        command_result("qdbus6", false, 0, true, true, 0, Some("true\n".to_string()), None),
        Ok("true\n".to_string())
    );
    assert_eq!(
        command_result("qdbus6", false, 0, true, true, 0, None, None),
        Ok(String::new())
    );
}

#[test]
fn a_written_strength_reads_back() {
    for value in [1, 7, 15, -3, i32::MAX, i32::MIN] {
        let args = write_arguments(explicit(value));
        let answer = format!("{}\n", args.last().unwrap());
        assert_eq!(parse_kwin_blur_output(&answer), Ok(explicit(value)));
    }
}
