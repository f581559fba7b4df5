use shenava_asr_server::decode::{
    find_best, greedy, labels_from_tokens, load_labels, manifest_tokens, parse_hotwords, read_tokens,
    strip_special, LabelError, Labels,
};
use shenava_ctc_beam::{CtcBeamDecoder, Hotwords};

fn patterns(rows: &[Vec<f32>]) -> Vec<Vec<u32>> {
    rows.iter()
        .map(|row| row.iter().map(|x| x.to_bits()).collect())
        .collect()
}

fn strings(list: &[&str]) -> Vec<String> {
    list.iter().map(|s| s.to_string()).collect()
}

/// Scores that spell out a path of classes.
fn path_scores(path: &[usize], classes: usize) -> Vec<Vec<f32>> {
    path.iter()
        .map(|&best| {
            let mut row = vec![-20.0; classes];
            row[best] = 0.0;
            row
        })
        .collect()
}

#[test]
fn greedy_joins_bpe_pieces_and_resets_after_blank() {
    let labels = Labels::plain(strings(&["▁شن", "ا", ""]));
    let probs = vec![
        vec![0.0, -4.0, -4.0],
        vec![-4.0, 0.0, -4.0],
        vec![-4.0, -4.0, 0.0],
        vec![-4.0, 0.0, -4.0],
    ];
    assert_eq!(greedy(&patterns(&probs), &labels, 2), "شناا");
}

#[test]
fn greedy_and_hotbeam_do_not_space_every_persian_bpe_piece() {
    let names = strings(&[
        "▁فرو",
        "ش",
        "نده",
        "▁سی",
        "ب",
        "▁رو",
        "ست",
        "ای",
        "▁کوچ",
        "ک",
        "",
    ]);
    let path = [
        0, 10, 1, 10, 2, 10, 3, 10, 4, 10, 5, 10, 6, 10, 7, 10, 8, 10, 9,
    ];
    let probs = path_scores(&path, names.len());
    let beam = CtcBeamDecoder::new(names.clone());
    let labels = Labels::plain(names);
    let expected = "فروشنده سیب روستای کوچک";
    assert_eq!(greedy(&patterns(&probs), &labels, 10), expected);
    let text = beam.decode(&probs, &Hotwords::new(vec![], 2.5), 20, -5.0, -10.0);
    assert_eq!(strip_special(&text, &labels), expected);
}

#[test]
fn repetitions_are_spelled_once_until_a_blank() {
    let labels = Labels::plain(strings(&["▁a", "b", ""]));
    let text = |path: &[usize]| greedy(&patterns(&path_scores(path, 3)), &labels, 2);
    assert_eq!(text(&[0, 0, 0, 1, 1]), "ab");
    assert_eq!(text(&[0, 1, 2, 1]), "abb");
    assert_eq!(text(&[0, 2, 0]), "a a");
    assert_eq!(text(&[2, 2, 2]), "");
    assert_eq!(text(&[]), "");
}

#[test]
fn labels_without_text_are_passed_over_and_keep_a_repetition() {
    let labels = Labels::plain(strings(&["▁a", "", ""]));
    let text = |path: &[usize]| greedy(&patterns(&path_scores(path, 3)), &labels, 2);
    assert_eq!(text(&[0, 1, 0]), "a");
    assert_eq!(text(&[0, 2, 0]), "a a");
}

#[test]
fn word_marks_are_taken_off_both_ends() {
    let labels = Labels::plain(strings(&["▁▁a▁", "b", "▁", ""]));
    let text = |path: &[usize]| greedy(&patterns(&path_scores(path, 4)), &labels, 3);
    assert_eq!(text(&[0, 1]), "ab");
    assert_eq!(text(&[1, 0, 1]), "b ab");
    assert_eq!(text(&[1, 2, 1]), "b b");
}

#[test]
fn special_tokens_are_not_shown() {
    let mut tokens = vec!["a"; 300];
    tokens[0] = "<pad>";
    tokens[255] = "<y>";
    tokens[256] = "<x>";
    let (labels, blank) = load_labels(&tokens.join("\n")).unwrap();
    assert_eq!((blank, labels.names[256].as_str()), (299, "\u{E100}"));
    let text = |path: &[usize]| greedy(&patterns(&path_scores(path, 300)), &labels, blank);
    assert_eq!(text(&[256]), "");
    assert_eq!(text(&[0, 1, 255, 2, 256, 3]), "aaa");
    assert_eq!(strip_special("x\u{E000}y\u{E0FF}z\u{E100}", &labels), "xyz");
    assert_eq!(strip_special("سلام", &labels), "سلام");
}

#[test]
fn tokens_that_are_not_special_are_shown() {
    // The characters that special tokens of these numbers would get.
    let mut tokens = vec!["a"; 300];
    tokens[5] = "\u{E101}";
    tokens[256] = "\u{E100}";
    tokens[257] = "<x>";
    let (labels, blank) = load_labels(&tokens.join("\n")).unwrap();
    assert_eq!(labels.names[256], "\u{E100}");
    assert_eq!((labels.special[5], labels.special[256], labels.special[257]), (false, false, true));
    let text = |path: &[usize]| greedy(&patterns(&path_scores(path, 300)), &labels, blank);
    assert_eq!(text(&[256]), "\u{E100}");
    assert_eq!(text(&[257]), "");
    assert_eq!(text(&[1, 5, 257, 256]), "a\u{E101}\u{E100}");
    assert_eq!(strip_special("\u{E100}a\u{E101}\u{E001}\u{E102}", &labels), "\u{E100}a\u{E102}");
}

#[test]
fn plain_labels_hide_only_reserved_characters() {
    let labels = Labels::plain(strings(&["\u{E000}", "a", "\u{E0FF}", "\u{E100}", ""]));
    assert_eq!(labels.special, vec![false; 5]);
    assert_eq!(greedy(&patterns(&path_scores(&[0, 1, 2, 3], 5)), &labels, 4), "a\u{E100}");
    assert_eq!(strip_special("\u{E100}a\u{E0FF}", &labels), "\u{E100}a");
}

#[test]
fn the_first_of_the_best_classes_counts() {
    let best = |row: &[f32]| find_best(&row.iter().map(|x| x.to_bits()).collect());
    assert_eq!(best(&[0.5, 2.0, 2.0]), 1);
    assert_eq!(best(&[-3.0, -1.0, -2.0]), 1);
    assert_eq!(best(&[f32::NAN, -1.0]), 1);
    assert_eq!(best(&[-1.0, f32::NAN]), 0);
    assert_eq!(best(&[f32::NEG_INFINITY, f32::NEG_INFINITY]), 0);
    assert_eq!(best(&[-0.0, 0.0]), 0);
    assert_eq!(best(&[1.0, f32::INFINITY]), 1);
    assert_eq!(best(&[]), 0);
}

#[test]
fn hotword_parser_ignores_comments_and_blank_lines() {
    assert_eq!(
        parse_hotwords("# names\nشنوا\n\n  رضا  \n"),
        vec!["شنوا", "رضا"]
    );
}

#[test]
fn hotword_lists_add_up_and_are_read_back() {
    let texts = ["", "a", " a \r", "a\n", "# c\n b c \n\nd", "\n\n", "x\r\ny"];
    for a in texts {
        let words = parse_hotwords(a);
        assert_eq!(parse_hotwords(&words.join("\n")), words);
        for b in texts {
            let mut both = words.clone();
            both.extend(parse_hotwords(b));
            assert_eq!(parse_hotwords(&format!("{a}\n{b}")), both);
        }
    }
}

#[test]
fn hotwords_are_trimmed_lines() {
    assert_eq!(parse_hotwords(""), Vec::<String>::new());
    assert_eq!(parse_hotwords("  # no\r\n\tyes it is \r\nlast"), vec!["yes it is", "last"]);
    assert_eq!(parse_hotwords("a#b\n \u{3000} \n"), vec!["a#b"]);
}

#[test]
fn json_token_manifest_honors_declared_blank_id() {
    let (labels, blank) =
        load_labels(r#"{"blank_id":1,"tokens":["<pad>","<blk>","▁سلام"]}"#).unwrap();
    assert_eq!(blank, 1);
    assert!(labels.names[0].chars().next().unwrap() as u32 >= 0xE000);
    assert_eq!(labels.names[1], "");
    assert_eq!(labels.names[2], "▁سلام");
}

#[test]
fn text_tokens_put_the_blank_last() {
    let (labels, blank) = load_labels("<unk> 0\n▁a 1\n b 2\n\n<blk> 4\n").unwrap();
    assert_eq!(blank, 4);
    assert_eq!(labels.names, strings(&["\u{E000}", "▁a", "b", "", ""]));
}

#[test]
fn special_tokens_get_the_character_of_their_number() {
    let (labels, blank) = load_labels("a\nb\n<s>\n<\n>\n<blk>").unwrap();
    assert_eq!(blank, 5);
    assert_eq!(labels.names, strings(&["a", "b", "\u{E002}", "<", ">", ""]));
}

#[test]
fn manifests_without_a_blank_id_put_it_last() {
    let text = r#" {"tokens":["a","b"],"blank_id":"0"}"#;
    let (labels, blank) = load_labels(text).unwrap();
    assert_eq!(blank, 1);
    assert_eq!(labels.names, strings(&["a", ""]));
    let (_, blank) = load_labels(r#"{"tokens":["a","b"],"blank_id":-1}"#).unwrap();
    assert_eq!(blank, 1);
    let (_, blank) = load_labels(r#"{"tokens":["a","b"],"blank_id":0.0}"#).unwrap();
    assert_eq!(blank, 1);
    let (_, blank) = load_labels(r#"{"tokens":["a","b"],"blank_id":0}"#).unwrap();
    assert_eq!(blank, 0);
}

#[test]
fn token_files_that_cannot_be_used() {
    assert!(matches!(load_labels("{"), Err(LabelError::Json(_))));
    assert!(matches!(load_labels("{}"), Err(LabelError::NoTokenArray)));
    assert!(matches!(
        load_labels(r#"{"tokens":"a"}"#),
        Err(LabelError::NoTokenArray)
    ));
    assert!(matches!(
        load_labels(r#"{"tokens":["a",1]}"#),
        Err(LabelError::NonStringToken)
    ));
    assert!(matches!(load_labels(r#"{"tokens":[]}"#), Err(LabelError::Empty)));
    assert!(matches!(load_labels(""), Err(LabelError::Empty)));
    assert!(matches!(
        load_labels(r#"{"tokens":["a"],"blank_id":1}"#),
        Err(LabelError::BlankOutOfRange(1))
    ));
}

#[test]
fn special_tokens_beyond_the_last_character_are_refused() {
    let mut tokens: Vec<&str> = vec!["a"; 0x10_2000];
    tokens.push("<x>");
    tokens.push("b");
    let text = tokens.join("\n");
    assert!(matches!(
        load_labels(&text),
        Err(LabelError::NoCharacter(0x10_2000))
    ));
    tokens[0x10_2000] = "c";
    tokens[0x10_1FFF] = "<x>";
    let (labels, _) = load_labels(&tokens.join("\n")).unwrap();
    assert_eq!(labels.names[0x10_1FFF], "\u{10FFFF}");
}

#[test]
fn token_lists_are_read_as_they_stand() {
    let (tokens, blank) = read_tokens("x 1\n  y\n\nz").unwrap();
    assert_eq!(tokens, strings(&["x", "y", "", "z"]));
    assert_eq!(blank, None);
    let value: serde_json::Value = serde_json::from_str(r#"{"tokens":["q"],"blank_id":7}"#).unwrap();
    let (tokens, blank) = manifest_tokens(&value).unwrap();
    assert_eq!(tokens, strings(&["q"]));
    assert_eq!(blank, Some(7));
    let (labels, blank) = labels_from_tokens(&strings(&["<a>", "b", "<c>"]), Some(0)).unwrap();
    assert_eq!(labels.names, strings(&["", "b", "\u{E002}"]));
    assert_eq!(labels.special, vec![false, false, true]);
    assert_eq!(blank, 0);
}
