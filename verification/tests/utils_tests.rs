use bnchroma::utils::{
    hex_to_rgb, hex_would_break_char, invert_color, match_line, nearest_candidate, needs_write,
    parse_candidate_list, scan_candidate_list, Candidate, CandidateError, HexError,
};

/// Reads `#rrggbb` directly: strip `#`s, insist on six bytes, each of them
/// an ASCII hexadecimal digit, and read each pair. `None` where the text is
/// six bytes whose channels would cut a character.
fn reference_hex(hex: &str) -> Option<Result<(u8, u8, u8), ()>> {
    let hex = hex.trim_start_matches('#');
    if hex.len() != 6 {
        return Some(Err(()));
    }
    if !hex.is_char_boundary(2) || !hex.is_char_boundary(4) {
        return None;
    }
    if !hex.bytes().all(|c| c.is_ascii_hexdigit()) {
        return Some(Err(()));
    }
    let r = u8::from_str_radix(&hex[0..2], 16).unwrap();
    let g = u8::from_str_radix(&hex[2..4], 16).unwrap();
    let b = u8::from_str_radix(&hex[4..6], 16).unwrap();
    Some(Ok((r, g, b)))
}

#[test]
fn hex_to_rgb_reads_six_digits() {
    assert_eq!(hex_to_rgb("#7b5244"), Ok((0x7b, 0x52, 0x44)));
    assert_eq!(hex_to_rgb("7B5244"), Ok((0x7b, 0x52, 0x44)));
    assert_eq!(hex_to_rgb("###a5734b"), Ok((0xa5, 0x73, 0x4b)));
    assert_eq!(hex_to_rgb("000000"), Ok((0, 0, 0)));
    assert_eq!(hex_to_rgb("ffFFff"), Ok((255, 255, 255)));
}

#[test]
fn hex_to_rgb_refuses_a_plus_sign() {
    assert_eq!(hex_to_rgb("+f+f+f"), Err(HexError::InvalidDigit));
    assert_eq!(hex_to_rgb("#10+a20"), Err(HexError::InvalidDigit));
    assert_eq!(hex_to_rgb("#3a3a3a"), Ok((58, 58, 58)));
    assert_eq!(hex_to_rgb("AfD4fF"), Ok((175, 212, 255)));
    assert_eq!(hex_to_rgb("3a3a3"), Err(HexError::InvalidLength));
}

#[test]
fn hex_to_rgb_refuses_bad_length() {
    assert_eq!(hex_to_rgb(""), Err(HexError::InvalidLength));
    assert_eq!(hex_to_rgb("#"), Err(HexError::InvalidLength));
    assert_eq!(hex_to_rgb("#12345"), Err(HexError::InvalidLength));
    assert_eq!(hex_to_rgb("1234567"), Err(HexError::InvalidLength));
    assert_eq!(hex_to_rgb("# 123456"), Err(HexError::InvalidLength));
}

#[test]
fn hex_to_rgb_refuses_bad_digits() {
    assert_eq!(hex_to_rgb("12345g"), Err(HexError::InvalidDigit));
    assert_eq!(hex_to_rgb("-1ffff"), Err(HexError::InvalidDigit));
    assert_eq!(hex_to_rgb("1+ffff"), Err(HexError::InvalidDigit));
    assert_eq!(hex_to_rgb("++ffff"), Err(HexError::InvalidDigit));
    assert_eq!(hex_to_rgb(" 12345"), Err(HexError::InvalidDigit));
    assert_eq!(hex_to_rgb("\u{e9}1234"), Err(HexError::InvalidDigit));
}

#[test]
fn hex_would_break_char_finds_split_characters() {
    assert!(hex_would_break_char("a\u{e9}123"));
    assert!(hex_would_break_char("#12a\u{e9}1"));
    assert!(!hex_would_break_char("\u{e9}1234"));
    assert!(!hex_would_break_char("#7b5244"));
    assert!(!hex_would_break_char("a\u{e9}12"));
}

#[test]
fn hex_to_rgb_agrees_with_a_direct_reading() {
    let alphabet = ['0', '7', '9', 'a', 'F', 'g', '+', '-', ' ', '#', 'z', '\u{e9}'];
    let mut checked = 0;
    for &a in &alphabet {
        for &b in &alphabet {
            for &c in &alphabet {
                for &d in &alphabet {
                    let s: String = [a, b, c, d, 'f', 'f'].iter().collect();
                    let t: String = ['f', 'f', a, b, c, d].iter().collect();
                    for input in [s, t] {
                        match reference_hex(&input) {
                            None => assert!(hex_would_break_char(&input), "{input:?}"),
                            Some(expected) => {
                                assert!(!hex_would_break_char(&input), "{input:?}");
                                assert_eq!(hex_to_rgb(&input).map_err(|_| ()), expected, "{input:?}");
                                checked += 1;
                            }
                        }
                    }
                }
            }
        }
    }
    assert!(checked > 10_000);
}

#[test]
fn invert_color_complements_each_channel() {
    assert_eq!(invert_color(0, 0, 0), (255, 255, 255));
    assert_eq!(invert_color(0x12, 0x80, 0xff), (0xed, 0x7f, 0));
    let (r, g, b) = invert_color(1, 2, 3);
    assert_eq!(invert_color(r, g, b), (1, 2, 3));
}

#[test]
fn parse_candidate_list_reads_named_colors() {
    let cs = parse_candidate_list("blue=#afd4ff,brown=#a5734b").unwrap();
    assert_eq!(cs.len(), 2);
    assert_eq!(cs[0].name, "blue");
    assert_eq!(cs[0].rgb, (0xaf, 0xd4, 0xff));
    assert_eq!(cs[1].name, "brown");
    assert_eq!(cs[1].rgb, (0xa5, 0x73, 0x4b));
}

#[test]
fn parse_candidate_list_trims_and_skips_blank_pieces() {
    let cs = parse_candidate_list(" , red = ##ff0000 ,,\tgreen=00ff00\u{a0}, ").unwrap();
    assert_eq!(cs.len(), 2);
    assert_eq!(cs[0].name, "red");
    assert_eq!(cs[0].rgb, (255, 0, 0));
    assert_eq!(cs[1].name, "green");
    assert_eq!(cs[1].rgb, (0, 255, 0));
    let cs = parse_candidate_list("a=b=123456").unwrap_err();
    assert_eq!(cs, CandidateError::InvalidHex("a=b=123456".to_string(), HexError::InvalidLength));
}

#[test]
fn parse_candidate_list_errors() {
    assert_eq!(parse_candidate_list(""), Err(CandidateError::Empty));
    assert_eq!(parse_candidate_list(" , ,"), Err(CandidateError::Empty));
    assert_eq!(
        parse_candidate_list("blue"),
        Err(CandidateError::InvalidEntry("blue".to_string()))
    );
    assert_eq!(
        parse_candidate_list("ok=123456, =123456"),
        Err(CandidateError::InvalidEntry("=123456".to_string()))
    );
    assert_eq!(
        parse_candidate_list("x= "),
        Err(CandidateError::InvalidEntry("x=".to_string()))
    );
    assert_eq!(
        parse_candidate_list("x=12345z,y"),
        Err(CandidateError::InvalidHex("x=12345z".to_string(), HexError::InvalidDigit))
    );
}

#[test]
fn scan_candidate_list_reports_split_characters() {
    assert!(scan_candidate_list("x=a\u{e9}123").is_none());
    assert!(scan_candidate_list("bad,x=a\u{e9}123").is_some());
    assert!(matches!(scan_candidate_list("x=123456"), Some(Ok(_))));
}

fn cand(name: &str, rgb: (u8, u8, u8)) -> Candidate {
    Candidate { name: name.to_string(), rgb }
}

#[test]
fn nearest_candidate_takes_the_first_smallest_key() {
    let cs = vec![cand("a", (0, 0, 0)), cand("b", (1, 1, 1)), cand("c", (2, 2, 2))];
    assert_eq!(nearest_candidate("#010101", &cs, &[5, 2, 2]), Ok(1));
    assert_eq!(nearest_candidate("#010101", &cs, &[1, 2, 0]), Ok(2));
    assert_eq!(nearest_candidate("#010101", &cs, &[3, 3, 3]), Ok(0));
    assert_eq!(nearest_candidate("#010101", &[], &[]), Ok(0));
    assert_eq!(nearest_candidate("#01010", &cs, &[0, 0, 0]), Err(HexError::InvalidLength));
}

#[test]
fn match_line_prints_name_and_upper_case_hex() {
    assert_eq!(match_line(&cand("brown", (0xa5, 0x73, 0x4b))), "brown:#A5734B");
}

#[test]
fn needs_write_only_for_new_or_different_content() {
    assert!(needs_write(None, b"abc"));
    assert!(needs_write(None, b""));
    assert!(!needs_write(Some(b"abc"), b"abc"));
    assert!(!needs_write(Some(b""), b""));
    assert!(needs_write(Some(b"abd"), b"abc"));
    assert!(needs_write(Some(b"ab"), b"abc"));
    assert!(needs_write(Some(b"abcd"), b"abc"));
}
