use calculator::lexer::scan_match;
use regex::Regex;

/// The grammar of the tokens as one pattern: the five kinds in their order.
const TOKEN: &str = "0[xX][0-9A-Fa-f]*(?:[iu][0-9]{1,2})?|0[bB][01]*(?:[iu][0-9]{1,2})?|-?[0-9]+(?:[.,][0-9]+)?|[()+*=-]|[A-Za-z]+";

fn spans_of_scan(text: &str) -> Vec<(usize, usize)> {
    let chars: Vec<char> = text.chars().collect();
    let mut spans = Vec::new();
    let mut at = 0;
    while at < chars.len() {
        let n = scan_match(&chars, at);
        if n == 0 {
            at += 1;
        } else {
            spans.push((at, at + n));
            at += n;
        }
    }
    spans
}

fn spans_of_pattern(pattern: &Regex, text: &str) -> Vec<(usize, usize)> {
    pattern.find_iter(text).map(|m| (m.start(), m.end())).collect()
}

fn all_texts(alphabet: &[char], longest: usize) -> Vec<String> {
    let mut texts = vec![String::new()];
    let mut last = vec![String::new()];
    for _ in 0..longest {
        let mut next = Vec::new();
        for text in &last {
            for c in alphabet {
                let mut longer = text.clone();
                longer.push(*c);
                next.push(longer);
            }
        }
        texts.extend(next.iter().cloned());
        last = next;
    }
    texts
}

#[test]
fn scan_agrees_with_the_pattern_on_chosen_texts() {
    let pattern = Regex::new(TOKEN).unwrap();
    for text in [
        "",
        "(3 + 4) * (17 + 3 * -4 + 5) =",
        "3 - 4",
        "3 & 4",
        "0xffi16 + 1",
        "0xffi165",
        "0x",
        "0XfFu8-0b101i16",
        "0b2 0b 0b1u 0b1u8u 0b1i12345",
        "12.5.5,5 1, 1. .5 ,5 -.5 -1,0x",
        "pi*e+Pi-E inf nan x0x1",
        "--3 -(-3) - 3 3-3 3--3",
        "0xg 0xfg 0xabcdefABCDEFi8 0xi8 0xu16x",
        "a0b1 b0x1 0x0x1 0b0b1 00x1 00b1",
        "1e5 1E-5 e5 5e",
        "9999999999999999999999 -0 +0 =) (",
    ] {
        assert_eq!(spans_of_scan(text), spans_of_pattern(&pattern, text), "{text:?}");
    }
}

#[test]
fn scan_agrees_with_the_pattern_on_all_short_texts() {
    let pattern = Regex::new(TOKEN).unwrap();
    let alphabet = ['0', '1', '9', 'x', 'b', 'f', 'i', 'u', 'z', '-', '.', ',', '+', '(', ' '];
    for text in all_texts(&alphabet, 4) {
        assert_eq!(spans_of_scan(&text), spans_of_pattern(&pattern, &text), "{text:?}");
    }
}

#[test]
fn scan_agrees_with_the_pattern_on_literals_with_suffixes() {
    let pattern = Regex::new(TOKEN).unwrap();
    let alphabet = ['0', 'x', 'B', 'a', '1', 'i', 'u', '8', '='];
    for text in all_texts(&alphabet, 5) {
        let text = format!("0{text}");
        assert_eq!(spans_of_scan(&text), spans_of_pattern(&pattern, &text), "{text:?}");
    }
}
