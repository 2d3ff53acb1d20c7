use calculator::calculate::calculate_result;
use calculator::parse::{
    parse_scanned, parse_term, parse_tokens, rectify_term, scan_tokens, tokenize_term,
    validate_term, ParsingError,
};
use calculator::radix::IntErrorKind;
use calculator::token::{Operator, Token};
use calculator::traits::{
    Constants, FromBinaryStr, FromDecimalStr, FromHexStr, FromStrError, Numeric, One, Widen,
};
use calculator::tree::BinaryTree;
use std::fmt;

#[derive(Debug, Clone, Copy, PartialEq, Default)]
struct Real(f32);

impl fmt::Display for Real {
    fn fmt(&self, f: &mut fmt::Formatter<'_>) -> fmt::Result {
        self.0.fmt(f)
    }
}

impl One for Real {
    fn one() -> Self {
        Real(1.0)
    }
}

impl Widen for Real {
    fn widen(n: i32) -> Self {
        Real(n as f32)
    }

    fn from_bits(bits: u32) -> Self {
        Real(f32::from_bits(bits))
    }
}

impl FromBinaryStr for Real {}

impl FromHexStr for Real {}

impl FromDecimalStr for Real {
    fn from_decimal_str(s: &str) -> Option<Self> {
        s.parse::<f32>().ok().map(Real)
    }
}

impl Numeric for Real {
    fn add(self, rhs: Real) -> Real {
        Real(self.0 + rhs.0)
    }

    fn sub(self, rhs: Real) -> Real {
        Real(self.0 - rhs.0)
    }

    fn mul(self, rhs: Real) -> Real {
        Real(self.0 * rhs.0)
    }

    fn div(self, rhs: Real) -> Real {
        Real(self.0 / rhs.0)
    }

    fn neg(self) -> Real {
        Real(-self.0)
    }
}

fn constants() -> Constants<Real> {
    Constants { e: Real(std::f32::consts::E), pi: Real(std::f32::consts::PI) }
}

fn value(x: f32) -> Token<Real> {
    Token::Value(Real(x))
}

fn evaluate(term: &str) -> f32 {
    let tree = parse_term(term, &constants()).unwrap();
    calculate_result(&tree).0
}

#[test]
fn test_basic_operations() {
    let term_tree = parse_term("(3 + 4) * (17 + 3 * -4 + 5) =", &constants()).unwrap();
    for node in term_tree.traverse_postorder(0) {
        println!("{node:?}");
    }
    println!("{:#?}", term_tree);
    let result: f32 = calculate_result(&term_tree).0;
    println!("{result:?}");

    assert_eq!(result as i32, (3 + 4) * (17 + 3 * -4 + 5));
}

#[test]
fn test_minus() {
    let second_term = parse_term("3 - 4", &constants()).unwrap();

    let result: f32 = calculate_result(&second_term).0;
    println!("{result:?}");

    assert_eq!(result as i32, 3 - 4);
}

#[test]
fn test_tokenize_term() {
    let s = "0xffi16 + 1";
    let exp = vec![value(255.0), Token::add(), value(1.0)];

    let constants = Constants { e: Real(2.7), pi: Real(3.14) };

    let tokens = tokenize_term(s, &constants).unwrap();
    println!("{:#?}", tokens);

    assert!(exp[0] == tokens[0]);
}

#[test]
fn test_hex_str_to_f32() {
    let s = "0xffi16";
    let hex = Real::from_hex_str(s).unwrap();
    assert_eq!(Real(255.0), hex);

    let s = "0xfi8";
    let hex = Real::from_hex_str(s).unwrap();
    assert_eq!(Real(15.0), hex);

    let s = "0xffu16";
    let hex = Real::from_hex_str(s).unwrap();
    assert_eq!(Real(255.0), hex);
    let s = "0xffu8";
    let hex = Real::from_hex_str(s).unwrap();
    assert_eq!(Real(255.0), hex);
}

#[test]
fn hex_literals_read_as_signed_wrap_around() {
    assert_eq!(Real::from_hex_str("0xffi8").unwrap(), Real(-1.0));
    assert_eq!(Real::from_hex_str("0x80i8").unwrap(), Real(-128.0));
    assert_eq!(Real::from_hex_str("0x7fi8").unwrap(), Real(127.0));
    assert_eq!(Real::from_hex_str("0xffffi16").unwrap(), Real(-1.0));
    assert_eq!(Real::from_hex_str("0x8000i16").unwrap(), Real(-32768.0));
    assert_eq!(Real::from_hex_str("0xffffu16").unwrap(), Real(65535.0));
}

#[test]
fn binary_literals_follow_the_hex_ones() {
    assert_eq!(Real::from_binary_str("0b11111111i16").unwrap(), Real(255.0));
    assert_eq!(Real::from_binary_str("0b1111i8").unwrap(), Real(15.0));
    assert_eq!(Real::from_binary_str("0b11111111u16").unwrap(), Real(255.0));
    assert_eq!(Real::from_binary_str("0b11111111u8").unwrap(), Real(255.0));
    assert_eq!(Real::from_binary_str("0b11111111i8").unwrap(), Real(-1.0));
    assert_eq!(Real::from_binary_str("0B101u8").unwrap(), Real(5.0));
}

#[test]
fn literal_without_suffix_is_a_bit_pattern() {
    assert_eq!(Real::from_hex_str("0x3f800000").unwrap(), Real(1.0));
    assert_eq!(Real::from_hex_str("0X40490FDB").unwrap(), Real(f32::from_bits(0x40490fdb)));
    assert_eq!(
        Real::from_binary_str("0b00111111100000000000000000000000").unwrap(),
        Real(1.0)
    );
    assert_eq!(Real::from_hex_str("0x0").unwrap(), Real(0.0));
}

#[test]
fn literal_errors_name_their_cause() {
    assert_eq!(
        Real::from_hex_str("0xffi32"),
        Err(FromStrError::InvalidSuffix("i32".to_string()))
    );
    assert_eq!(Real::from_hex_str("0xffu"), Err(FromStrError::InvalidSuffix("u".to_string())));
    assert_eq!(Real::from_hex_str("0x"), Err(FromStrError::ParseInt(IntErrorKind::Empty)));
    assert_eq!(Real::from_hex_str("0xi8"), Err(FromStrError::ParseInt(IntErrorKind::Empty)));
    assert_eq!(
        Real::from_hex_str("0xzz"),
        Err(FromStrError::ParseInt(IntErrorKind::InvalidDigit))
    );
    assert_eq!(
        Real::from_binary_str("0b102u8"),
        Err(FromStrError::ParseInt(IntErrorKind::InvalidDigit))
    );
    assert_eq!(
        Real::from_hex_str("0x100u8"),
        Err(FromStrError::ParseInt(IntErrorKind::PosOverflow))
    );
    assert_eq!(
        Real::from_hex_str("0x10000i16"),
        Err(FromStrError::ParseInt(IntErrorKind::PosOverflow))
    );
    assert_eq!(
        Real::from_hex_str("0x100000000"),
        Err(FromStrError::ParseInt(IntErrorKind::PosOverflow))
    );
}

#[test]
fn one_is_one() {
    assert_eq!(Real::one(), Real(1.0));
    assert!(Real(1.0).is_one());
    assert!(!Real(2.0).is_one());
}

#[test]
fn tokens_from_text() {
    assert_eq!(Token::<Real>::from_str("*"), Ok(Token::mul()));
    assert_eq!(Token::<Real>::from_str("+"), Ok(Token::add()));
    assert_eq!(Token::<Real>::from_str("-"), Ok(Token::sub()));
    assert_eq!(Token::<Real>::from_str("("), Ok(Token::i()));
    assert_eq!(Token::<Real>::from_str(")"), Ok(Token::out()));
    assert_eq!(Token::<Real>::from_str("="), Ok(Token::eq()));
    assert_eq!(Token::<Real>::from_str("12"), Ok(value(12.0)));
    assert_eq!(Token::<Real>::from_str("-4"), Ok(value(-4.0)));
    assert_eq!(Token::<Real>::from_str("3.5"), Ok(value(3.5)));
    assert_eq!(Token::<Real>::from_str("7"), Ok(value(7.0)));
    assert_eq!(Token::<Real>::from_str("0x10u8"), Ok(value(16.0)));
    assert_eq!(Token::<Real>::from_str("0b10u8"), Ok(value(2.0)));
    assert_eq!(Token::<Real>::from_str("abc"), Err(FromStrError::Any("abc".to_string())));
    assert_eq!(Token::<Real>::from_str(""), Err(FromStrError::Any(String::new())));
    assert_eq!(
        Token::<Real>::from_str("0x1q"),
        Err(FromStrError::ParseInt(IntErrorKind::InvalidDigit))
    );
}

#[test]
fn tokens_as_text() {
    assert_eq!(Operator::EQ.to_string(), "=");
    assert_eq!(Operator::IN.to_string(), "(");
    assert_eq!(Operator::OUT.to_string(), ")");
    assert_eq!(Operator::ADD.to_string(), "+");
    assert_eq!(Operator::MUL.to_string(), "*");
    assert_eq!(Operator::SUB.to_string(), "-");
    assert_eq!(Token::<Real>::mul().to_string(), "*");
    assert_eq!(value(2.5).to_string(), "2.5");
    assert_eq!(Token::<Real>::Empty.to_string(), "empty");
}

#[test]
fn token_predicates_and_equality() {
    assert!(Token::<Real>::add().is_add());
    assert!(Token::<Real>::mul().is_mul());
    assert!(Token::<Real>::i().is_in());
    assert!(Token::<Real>::out().is_out());
    assert!(Token::<Real>::eq().is_eq());
    assert!(!Token::<Real>::sub().is_add());
    assert!(!value(1.0).is_mul());
    assert!(!Token::<Real>::Empty.is_eq());
    assert!(Token::<Real>::sub() == Operator::SUB);
    assert!(Token::<Real>::sub() != Operator::ADD);
    assert!(value(1.0) != Operator::ADD);
    assert!(value(1.0) == value(1.0));
    assert!(value(1.0) != value(2.0));
    assert!(Token::<Real>::Empty == Token::Empty);
    assert!(Token::<Real>::Empty != value(0.0));
}

#[test]
fn scan_finds_the_tokens_in_order() {
    let tokens = tokenize_term("(3 + 4) * 0x10u8 - pi = ", &constants()).unwrap();
    assert_eq!(
        tokens,
        vec![
            Token::i(),
            value(3.0),
            Token::add(),
            value(4.0),
            Token::out(),
            Token::mul(),
            value(16.0),
            Token::sub(),
            value(std::f32::consts::PI),
            Token::eq(),
        ]
    );
}

#[test]
fn scan_folds_case_before_it_reads() {
    let tokens = tokenize_term("PI * E + 0XFFU8", &constants()).unwrap();
    assert_eq!(
        tokens,
        vec![
            value(std::f32::consts::PI),
            Token::mul(),
            value(std::f32::consts::E),
            Token::add(),
            value(255.0),
        ]
    );
    assert_eq!(
        scan_tokens::<Real>("PI", &constants()),
        Err(ParsingError::InvalidInput("PI".to_string()))
    );
}

#[test]
fn scan_reads_decimal_numbers_with_a_fraction() {
    assert_eq!(tokenize_term("3.5", &constants()), Ok(vec![value(3.5)]));
    assert_eq!(tokenize_term("-0.25", &constants()), Ok(vec![value(-0.25)]));
    assert_eq!(tokenize_term("3.", &constants()), Ok(vec![value(3.0)]));
    assert_eq!(
        tokenize_term("3,5", &constants()),
        Err(ParsingError::InvalidInput("3,5".to_string()))
    );
    assert_eq!(tokenize_term("1.5.5", &constants()), Ok(vec![value(1.5), value(5.0)]));
}

#[test]
fn scan_takes_a_minus_before_digits_as_a_sign() {
    assert_eq!(tokenize_term("3 -4", &constants()), Ok(vec![value(3.0), value(-4.0)]));
    assert_eq!(
        tokenize_term("3 - 4", &constants()),
        Ok(vec![value(3.0), Token::sub(), value(4.0)])
    );
    assert_eq!(tokenize_term("3-4", &constants()), Ok(vec![value(3.0), value(-4.0)]));
}

#[test]
fn scan_passes_over_what_begins_no_token() {
    assert_eq!(tokenize_term("3 & 4", &constants()), Ok(vec![value(3.0), value(4.0)]));
    assert_eq!(tokenize_term("  \t 7 ; ", &constants()), Ok(vec![value(7.0)]));
    assert_eq!(tokenize_term("", &constants()), Ok(vec![]));
    assert_eq!(tokenize_term("3 / 4", &constants()), Ok(vec![value(3.0), value(4.0)]));
}

#[test]
fn scan_rejects_the_first_text_that_is_no_token() {
    assert_eq!(
        tokenize_term("3 + x * y", &constants()),
        Err(ParsingError::InvalidInput("x".to_string()))
    );
    assert_eq!(
        tokenize_term("2 * foo", &constants()),
        Err(ParsingError::InvalidInput("foo".to_string()))
    );
    assert_eq!(
        tokenize_term("0x + 1", &constants()),
        Err(ParsingError::InvalidInput("0x".to_string()))
    );
    assert_eq!(
        tokenize_term("0xffi99", &constants()),
        Err(ParsingError::InvalidInput("0xffi99".to_string()))
    );
    assert_eq!(
        tokenize_term("0b2", &constants()),
        Err(ParsingError::InvalidInput("0b".to_string()))
    );
}

#[test]
fn scan_ends_a_suffix_after_two_digits() {
    assert_eq!(
        tokenize_term("0xffi165", &constants()),
        Ok(vec![value(255.0), value(5.0)])
    );
    assert_eq!(
        tokenize_term("0xfu8e", &constants()),
        Ok(vec![value(15.0), value(std::f32::consts::E)])
    );
}

#[test]
fn validate_counts_the_groups() {
    assert!(validate_term::<Real>(&vec![]));
    assert!(validate_term(&vec![Token::i(), value(1.0), Token::out()]));
    assert!(validate_term(&vec![Token::out(), value(1.0), Token::i()]));
    assert!(!validate_term(&vec![Token::i(), value(1.0)]));
    assert!(!validate_term(&vec![Token::<Real>::out()]));
    assert!(!validate_term(&vec![Token::<Real>::i(), Token::i(), Token::out()]));
}

#[test]
fn rectify_rewrites_minus_and_closes() {
    let mut tokens = vec![value(3.0), Token::sub(), value(4.0)];
    rectify_term(&mut tokens);
    assert_eq!(
        tokens,
        vec![value(3.0), Token::add(), value(-1.0), Token::mul(), value(4.0), Token::eq()]
    );

    let mut leading = vec![Token::sub(), value(4.0), Token::sub(), Token::sub()];
    rectify_term(&mut leading);
    assert_eq!(
        leading,
        vec![
            Token::add(),
            value(-1.0),
            Token::mul(),
            value(4.0),
            Token::add(),
            value(-1.0),
            Token::mul(),
            Token::add(),
            value(-1.0),
            Token::mul(),
            Token::eq(),
        ]
    );

    let mut empty: Vec<Token<Real>> = vec![];
    rectify_term(&mut empty);
    assert_eq!(empty, vec![Token::eq()]);
}

#[test]
fn rectify_adds_one_terminator_only() {
    let mut tokens = vec![value(3.0), Token::add(), value(4.0), Token::eq()];
    rectify_term(&mut tokens);
    assert_eq!(tokens, vec![value(3.0), Token::add(), value(4.0), Token::eq()]);

    let mut twice = vec![value(3.0), Token::sub(), value(4.0)];
    rectify_term(&mut twice);
    let once = twice.clone();
    rectify_term(&mut twice);
    assert_eq!(twice, once);

    let mut inner = vec![value(3.0), Token::eq(), value(4.0)];
    rectify_term(&mut inner);
    assert_eq!(inner, vec![value(3.0), Token::eq(), value(4.0), Token::eq()]);
}

#[test]
fn parse_builds_the_tree_level_by_level() {
    let tree = parse_term("2 + 3 * 4", &constants()).unwrap();
    let nodes: Vec<Token<Real>> = tree.traverse_postorder(0).into_iter().map(|n| *n.1).collect();
    assert_eq!(
        nodes,
        vec![value(2.0), value(3.0), value(4.0), Token::mul(), Token::add()]
    );
    let slots: Vec<usize> = tree.traverse_postorder(0).into_iter().map(|n| n.0).collect();
    assert_eq!(slots, vec![1, 5, 6, 2, 0]);
    assert_eq!(tree.len(), 7);
}

#[test]
fn parse_binds_times_tighter_than_plus() {
    assert_eq!(evaluate("2 + 3 * 4"), 14.0);
    assert_eq!(evaluate("2 * 3 + 4"), 10.0);
    assert_eq!(evaluate("2 * 3 * 4 + 5 * 6"), 54.0);
    assert_eq!(evaluate("1 + 2 + 3 + 4 ="), 10.0);
    assert_eq!(evaluate("2 * (3 + 4) * 5 + 1"), 71.0);
    assert_eq!(evaluate("((2))"), 2.0);
    assert_eq!(evaluate("(1 + 2) * (3 + 4)"), 21.0);
    assert_eq!(evaluate("7"), 7.0);
}

#[test]
fn parse_reads_minus_as_plus_minus_one_times() {
    assert_eq!(evaluate("10 - 2 * 3"), 4.0);
    assert_eq!(evaluate("10 - 2 - 3"), 5.0);
    assert_eq!(evaluate("10 - (2 + 3)"), 5.0);
    assert_eq!(evaluate("2 * -3"), -6.0);
    assert_eq!(evaluate("0x10u8 - 0b11u8"), 13.0);
    assert_eq!(evaluate("1.5 + 2.25"), 3.75);
}

#[test]
fn chains_of_one_operator_are_taken_from_the_right() {
    let big = "100000000000000000000000000000";
    assert_eq!(evaluate(&format!("{big} + -{big} + 1")), 0.0);
    assert_eq!(evaluate(&format!("({big} + -{big}) + 1")), 1.0);
    let tree = parse_term("1 + 2 + 3", &constants()).unwrap();
    let slots: Vec<usize> = tree.traverse_postorder(0).into_iter().map(|n| n.0).collect();
    assert_eq!(slots, vec![1, 5, 6, 2, 0]);
}

#[test]
fn parse_stops_at_the_first_accepted_terminator() {
    assert_eq!(evaluate("3 = 4"), 3.0);
}

#[test]
fn unbalanced_groups_are_rejected() {
    assert_eq!(
        parse_term("(3 + 4", &constants()).err(),
        Some(ParsingError::UnbalancedGroups)
    );
    assert_eq!(
        parse_term("3 + 4)", &constants()).err(),
        Some(ParsingError::UnbalancedGroups)
    );
    assert_eq!(
        parse_scanned(vec![Token::<Real>::i()]).err(),
        Some(ParsingError::UnbalancedGroups)
    );
}

#[test]
fn unknown_character_leaves_no_tree() {
    assert_eq!(parse_term("3 & 4", &constants()).err(), Some(ParsingError::EmptyTree));
}

#[test]
fn tokens_that_make_no_tree_are_rejected() {
    assert_eq!(parse_term("", &constants()).err(), Some(ParsingError::EmptyTree));
    assert_eq!(parse_term("3 4", &constants()).err(), Some(ParsingError::EmptyTree));
    assert_eq!(parse_term("- 4", &constants()).err(), Some(ParsingError::EmptyTree));
    assert_eq!(parse_term(") (", &constants()).err(), Some(ParsingError::EmptyTree));
    assert_eq!(parse_term("3 +", &constants()).err(), Some(ParsingError::EmptyTree));
    assert_eq!(
        parse_tokens(&vec![value(1.0), Token::add(), value(2.0)]).err(),
        Some(ParsingError::EmptyTree)
    );
    assert_eq!(
        parse_term("3 + x", &constants()).err(),
        Some(ParsingError::InvalidInput("x".to_string()))
    );
}

#[test]
fn evaluation_falls_back_to_the_default() {
    let empty: BinaryTree<Token<Real>> = BinaryTree::new(Token::Empty);
    assert_eq!(calculate_result(&empty), Real(0.0));

    let vacant = BinaryTree::new_with_root(Token::<Real>::Empty, Token::Empty);
    assert_eq!(calculate_result(&vacant), Real(0.0));

    let lone_operator = BinaryTree::new_with_root(Token::<Real>::add(), Token::Empty);
    assert_eq!(calculate_result(&lone_operator), Real(0.0));

    let marks = parse_term("= * 3", &constants()).unwrap();
    assert_eq!(calculate_result(&marks), Real(0.0));
}

#[test]
fn evaluation_takes_the_lower_value_as_left_operand() {
    let mut tree = BinaryTree::new_with_root(value(2.0), Token::Empty);
    tree.bin(Token::mul(), BinaryTree::new_with_root(value(5.0), Token::Empty));
    assert_eq!(calculate_result(&tree), Real(10.0));

    let mut sum = BinaryTree::new_with_root(value(1.0), Token::Empty);
    sum.bin(Token::add(), tree);
    assert_eq!(calculate_result(&sum), Real(11.0));
    assert_eq!(sum.len(), 7);
}
