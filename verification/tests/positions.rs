use bppt::position::{locate, width_of};

/// Line and column as they are defined: one more line for each line feed before the place,
/// one column for each character before it on its line, four for a tab, none for a byte-order
/// mark at the start of the text.
fn expected(chars: &[char], k: usize) -> (usize, usize) {
    let mut line = 1;
    let mut column = 1;
    for (i, c) in chars[..k].iter().enumerate() {
        if *c == '\n' {
            line += 1;
            column = 1;
        } else if i == 0 && *c == '\u{FEFF}' {
            column = 1;
        } else if *c == '\t' {
            column += 4;
        } else {
            column += 1;
        }
    }
    (line, column)
}

fn assert_located(text: &str) {
    let chars: Vec<char> = text.chars().collect();
    for k in 0..=chars.len() {
        assert_eq!(
            locate(text, &chars, k),
            expected(&chars, k),
            "place {k} of {text:?}"
        );
    }
}

#[test]
fn every_place_of_a_plain_text_is_located() {
    assert_located("");
    assert_located("a");
    assert_located("abc def");
    assert_located("12\n3\r\n4\n5");
    assert_located("\n\n\n");
    assert_located("a\rb\r\rc\n\rd");
}

#[test]
fn tabs_are_four_columns_wide_wherever_they_stand() {
    assert_located("\t1\n\t 3\t4");
    assert_located("\t\t\t");
    assert_located("a\tb\n\tc\t\n\t");
}

#[test]
fn characters_of_two_three_and_four_bytes_are_located() {
    assert_located("β1β\nΔβ1");
    assert_located("€uro\n𝄞 clef\n\tβ\t€\t𝄞\t");
    assert_located("日本語\r\nの\tテキスト");
}

#[test]
fn a_byte_order_mark_counts_only_where_it_does_not_start_the_text() {
    assert_located("\u{FEFF}");
    assert_located("\u{FEFF}12\n3");
    assert_located("\u{FEFF}\t\u{FEFF}\n\u{FEFF}x");
    assert_located("\u{FEFF}\n");
    assert_located("a\u{FEFF}b");
    assert_located("\u{FEFF}\u{FEFF}β\t");
}

#[test]
fn widths_are_those_of_utf8() {
    let samples = [
        '\0', 'a', '\u{7F}', '\u{80}', 'β', '\u{7FF}', '\u{800}', '€', '\u{FEFF}', '\u{FFFF}',
        '\u{10000}', '𝄞', '\u{10FFFF}',
    ];
    for c in samples {
        assert_eq!(width_of(c), c.len_utf8(), "{c:?}");
    }
}
