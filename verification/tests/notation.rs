use mastermind::error::GameError;
use mastermind::feedback::MatchKeys;
use mastermind::notation::parse_match_keys;

fn by_std(line: &str) -> Option<MatchKeys> {
    let mut parts = line.trim().split(',');
    let exact_count = parts.next()?.parse().ok()?;
    let color_count = parts.next()?.parse().ok()?;
    Some(MatchKeys::new(exact_count, color_count))
}

#[test]
fn parse_match_keys_reads_two_counts() {
    assert_eq!(parse_match_keys("1,2"), Ok(MatchKeys::new(1, 2)));
    assert_eq!(parse_match_keys("0,0"), Ok(MatchKeys::new(0, 0)));
    assert_eq!(parse_match_keys("4,0\n"), Ok(MatchKeys::new(4, 0)));
    assert_eq!(parse_match_keys("  12,34 \r\n"), Ok(MatchKeys::new(12, 34)));
    assert_eq!(parse_match_keys("007,+5"), Ok(MatchKeys::new(7, 5)));
    assert_eq!(
        parse_match_keys("4294967295,4294967295"),
        Ok(MatchKeys::new(u32::MAX, u32::MAX))
    );
}

#[test]
fn parse_match_keys_ignores_further_fields() {
    assert_eq!(parse_match_keys("1,2,3"), Ok(MatchKeys::new(1, 2)));
    assert_eq!(parse_match_keys("1,2,"), Ok(MatchKeys::new(1, 2)));
    assert_eq!(parse_match_keys("1,2,x y"), Ok(MatchKeys::new(1, 2)));
}

#[test]
fn parse_match_keys_rejects_malformed_lines() {
    for line in [
        "", " ", "\n", "1", "12", ",", "1,", ",2", "1 ,2", "1, 2", "a,b", "1;2", "-1,2", "1,-2",
        "+,1", "1,+", "1.0,2", "4294967296,0", "0,4294967296", "99999999999999999999,1", "1,,2",
        "0x1,2", "１,2",
    ] {
        assert_eq!(parse_match_keys(line), Err(GameError::MalformedFeedback));
    }
}

#[test]
fn parse_match_keys_agrees_with_std_on_sample_lines() {
    let pieces = ["", " ", "\t", "1", "23", "+", "+4", "-", ",", "0", "4294967295", "4294967296", "x", "\u{a0}", "00"];
    for a in pieces {
        for b in pieces {
            for c in pieces {
                for d in pieces {
                    let line = format!("{a}{b}{c}{d}");
                    let expected = by_std(&line).ok_or(GameError::MalformedFeedback);
                    assert_eq!(parse_match_keys(&line), expected);
                }
            }
        }
    }
}

#[test]
fn parse_match_keys_trims_what_std_calls_white_space() {
    for code in 0..=0x10FFFFu32 {
        if let Some(c) = char::from_u32(code) {
            let leading = format!("{c}+1,2");
            let trailing = format!("1,+2{c}");
            let expected = if c.is_whitespace() {
                Ok(MatchKeys::new(1, 2))
            } else {
                Err(GameError::MalformedFeedback)
            };
            assert_eq!(parse_match_keys(&leading), expected);
            if c != ',' && !c.is_ascii_digit() {
                assert_eq!(parse_match_keys(&trailing), expected);
            }
        }
    }
}

#[test]
fn to_text_writes_both_counts() {
    assert_eq!(MatchKeys::new(1, 2).to_text(), "1,2");
    assert_eq!(MatchKeys::new(0, 0).to_text(), "0,0");
    assert_eq!(MatchKeys::new(10, 305).to_text(), "10,305");
    assert_eq!(MatchKeys::new(u32::MAX, 1000).to_text(), "4294967295,1000");
}

#[test]
fn to_text_agrees_with_std_formatting() {
    for exact in [0u32, 1, 9, 10, 11, 99, 100, 101, 65535, 1000000, 4294967295] {
        for color in [0u32, 5, 10, 19, 20, 4294967294] {
            let keys = MatchKeys::new(exact, color);
            assert_eq!(keys.to_text(), format!("{},{}", exact, color));
        }
    }
}

#[test]
fn parse_match_keys_reads_back_what_to_text_writes() {
    for exact in [0u32, 1, 4, 10, 123456789, 4294967295] {
        for color in [0u32, 2, 90, 4294967295] {
            let keys = MatchKeys::new(exact, color);
            assert_eq!(parse_match_keys(&keys.to_text()), Ok(keys));
        }
    }
}
