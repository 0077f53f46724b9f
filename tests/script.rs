use cbms::script::{parse_bmscript_line, ScriptLine};

fn chars(s: &str) -> Vec<char> {
    s.chars().collect()
}

fn text(v: &[char]) -> String {
    v.iter().collect()
}

#[test]
fn channel_line() {
    let mut args = vec![7];
    let r = parse_bmscript_line(&chars("#00211:0A0B00 rest"), &mut args);
    match r {
        Ok(Some(ScriptLine::Channel(set))) => {
            assert_eq!(set.measure, 2);
            assert_eq!(set.channel, 11);
            assert_eq!(set.args_idx, (1, 4));
        }
        other => panic!("unexpected {:?}", other),
    }
    assert_eq!(args, vec![7, 10, 11, 0]);
}

#[test]
fn channel_line_found_after_leading_text() {
    let mut args = Vec::new();
    let r = parse_bmscript_line(&chars("x#99912:zz"), &mut args);
    match r {
        Ok(Some(ScriptLine::Channel(set))) => {
            assert_eq!((set.measure, set.channel, set.args_idx), (999, 12, (0, 1)));
        }
        other => panic!("unexpected {:?}", other),
    }
    assert_eq!(args, vec![1295]);
}

#[test]
fn empty_channel_line() {
    let mut args = Vec::new();
    match parse_bmscript_line(&chars("#00101:"), &mut args) {
        Ok(Some(ScriptLine::Channel(set))) => assert_eq!(set.args_idx, (0, 0)),
        other => panic!("unexpected {:?}", other),
    }
    assert!(args.is_empty());
}

#[test]
fn wav_title_and_bpm_lines() {
    let mut args = Vec::new();
    match parse_bmscript_line(&chars("#WAV0Z kick drum.wav"), &mut args) {
        Ok(Some(ScriptLine::WavResource(idx, path))) => {
            assert_eq!(idx, 35);
            assert_eq!(text(&path), "kick drum.wav");
        }
        other => panic!("unexpected {:?}", other),
    }
    match parse_bmscript_line(&chars("#TITLE Song2 extra"), &mut args) {
        Ok(Some(ScriptLine::Title(t))) => assert_eq!(text(&t), "Song2"),
        other => panic!("unexpected {:?}", other),
    }
    match parse_bmscript_line(&chars("#BPM 150"), &mut args) {
        Ok(Some(ScriptLine::Bpm(t))) => assert_eq!(text(&t), "150"),
        other => panic!("unexpected {:?}", other),
    }
    assert!(args.is_empty());
}

#[test]
fn other_lines_are_ignored() {
    let mut args = Vec::new();
    assert!(matches!(parse_bmscript_line(&chars("#PLAYER 1"), &mut args), Ok(None)));
    assert!(matches!(parse_bmscript_line(&chars("#0011:01"), &mut args), Ok(None)));
    assert!(matches!(parse_bmscript_line(&chars(""), &mut args), Ok(None)));
}

#[test]
fn channel_values_end_at_first_non_alphanumeric() {
    let mut args = Vec::new();
    match parse_bmscript_line(&chars("#00111:01@@02"), &mut args) {
        Ok(Some(ScriptLine::Channel(set))) => assert_eq!(set.args_idx, (0, 1)),
        other => panic!("unexpected {:?}", other),
    }
    assert_eq!(args, vec![1]);
}
