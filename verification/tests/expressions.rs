use qb_tools::condition::{compare, matches_expression};
use qb_tools::expression::{
    parse_expression, parse_parameter, tokenize, Comparer, Expression, ExpressionError, Literal,
    Parameter, Token,
};
use qb_tools::number::Number;
use qb_tools::torrent::{Torrent, TorrentStatus};

fn num(value: f64) -> Number {
    Number { bits: value.to_bits() }
}

fn torrent(name: &str) -> Torrent {
    Torrent {
        hash: format!("hash-{name}"),
        name: name.to_string(),
        content_path: String::new(),
        category: vec![],
        tracker: vec![],
        status: TorrentStatus::Uploading,
        stalled: false,
        size: 100,
        ratio: num(1.0),
        uploaded: 100,
        downloaded: 100,
        create_time: 100,
        seeding_time: 100,
        downloading_time: 100,
        upload_speed: 100,
        average_upload_speed: 100,
        download_speed: 100,
        average_download_speed: 100,
        last_activity: Some(100),
        seeder: 10,
        connected_seeder: 5,
        leecher: 5,
        connected_leecher: 3,
        progress: num(1.0),
    }
}

fn parsed(text: &str) -> Expression {
    match parse_expression(text) {
        Ok(expression) => expression,
        Err(_) => panic!("expression parses: {text}"),
    }
}

fn fault(text: &str) -> ExpressionError {
    match parse_expression(text) {
        Ok(_) => panic!("expression is turned down: {text}"),
        Err(error) => error,
    }
}

/// An expression with all its parentheses.
fn shown(expression: &Expression) -> String {
    match expression {
        Expression::Relation { parameter, comparer, value } => {
            let value = match value {
                Literal::Number(number) => format!("{}", f64::from_bits(number.bits)),
                Literal::Text(text) => format!("'{text}'"),
            };
            format!("{parameter:?} {comparer:?} {value}")
        }
        Expression::And(left, right) => format!("({} and {})", shown(left), shown(right)),
        Expression::Or(left, right) => format!("({} or {})", shown(left), shown(right)),
    }
}

#[test]
fn remove_expression_is_left_associative() {
    let expression = parsed("ratio > 1 or seeding_time > 50 and create_time > 500");
    let now = 1_000;

    let mut sample = torrent("sample");
    sample.ratio = num(2.0);
    sample.seeding_time = 10;
    sample.create_time = 900;

    assert!(!matches_expression(&expression, &sample, now));

    sample.create_time = 100;
    assert!(matches_expression(&expression, &sample, now));
}

#[test]
fn last_activity_none_matches_never_active_torrents() {
    let expression = parsed("last_activity = none");
    let mut active = torrent("active");
    active.last_activity = Some(10);
    let mut never = torrent("never");
    never.last_activity = None;

    assert!(!matches_expression(&expression, &active, 1_000));
    assert!(matches_expression(&expression, &never, 1_000));
}

#[test]
fn create_time_condition_preserves_negative_qbit_values() {
    let expression = parsed("create_time > 1000");
    let mut sample = torrent("sample");
    sample.create_time = -1;

    assert!(matches_expression(&expression, &sample, 1_000));
}

#[test]
fn expressions_group_from_the_left_and_by_parentheses() {
    assert_eq!(
        shown(&parsed("ratio > 1 or size < 2 and leecher = 3")),
        "((Ratio Gt 1 or Size Lt 2) and Leecher Eq 3)"
    );
    assert_eq!(
        shown(&parsed("ratio > 1 or (size < 2 and leecher = 3)")),
        "(Ratio Gt 1 or (Size Lt 2 and Leecher Eq 3))"
    );
    assert_eq!(
        shown(&parsed("(((RATIO>1.5)))\tAND last_activity=Never")),
        "(Ratio Gt 1.5 and LastActivity Eq 'never')"
    );
}

#[test]
fn tokens_are_as_long_as_they_can_be() {
    let tokens = match tokenize("Ratio>=10.5)and_x -") {
        Ok(_) => panic!("the dash is no token"),
        Err(error) => error,
    };
    assert!(matches!(tokens, ExpressionError::IllegalCharacter('-')));
    let tokens = match tokenize("Ratio>=10.5) and_x-1 oR") {
        Ok(tokens) => tokens,
        Err(_) => panic!("tokens"),
    };
    assert_eq!(tokens.len(), 7);
    assert!(matches!(&tokens[0], Token::Identifier(word) if word == "ratio"));
    assert!(matches!(tokens[1], Token::Gt));
    assert!(matches!(tokens[2], Token::Eq));
    assert!(matches!(tokens[3], Token::Number(number) if f64::from_bits(number.bits) == 10.5));
    assert!(matches!(tokens[4], Token::RParen));
    assert!(matches!(&tokens[5], Token::Identifier(word) if word == "and_x-1"));
    assert!(matches!(tokens[6], Token::Or));
}

#[test]
fn faulty_expressions_are_turned_down() {
    assert!(matches!(fault("ratio > 1.2.3"), ExpressionError::InvalidNumber(text) if text == "1.2.3"));
    assert!(matches!(fault("ratio > 1 ; size > 1"), ExpressionError::IllegalCharacter(';')));
    assert!(matches!(fault("ratio > é"), ExpressionError::IllegalCharacter('é')));
    assert!(matches!(fault("Ratios > 1"), ExpressionError::UnsupportedParameter(name) if name == "ratios"));
    assert!(matches!(fault("> 1"), ExpressionError::ExpectedCondition(Token::Gt)));
    assert!(matches!(fault("ratio ratio 1"), ExpressionError::ExpectedComparison(Token::Identifier(_))));
    assert!(matches!(fault("ratio > >"), ExpressionError::ExpectedValue(Token::Gt)));
    assert!(matches!(fault("(ratio > 1"), ExpressionError::ExpectedClosing));
    assert!(matches!(fault("(ratio > 1 size"), ExpressionError::ExpectedClosing));
    assert!(matches!(fault(""), ExpressionError::UnexpectedEnd));
    assert!(matches!(fault("ratio"), ExpressionError::UnexpectedEnd));
    assert!(matches!(fault("ratio >"), ExpressionError::UnexpectedEnd));
    assert!(matches!(fault("ratio > 1 and"), ExpressionError::UnexpectedEnd));
    assert!(matches!(fault("ratio > 1 size"), ExpressionError::TrailingTokens));
    assert!(matches!(fault("ratio > 1)"), ExpressionError::TrailingTokens));
}

#[test]
fn every_parameter_has_its_name() {
    for (name, parameter) in [
        ("average_downloadspeed", Parameter::AverageDownloadSpeed),
        ("average_uploadspeed", Parameter::AverageUploadSpeed),
        ("connected_leecher", Parameter::ConnectedLeecher),
        ("connected_seeder", Parameter::ConnectedSeeder),
        ("create_time", Parameter::CreateTime),
        ("download", Parameter::Download),
        ("download_speed", Parameter::DownloadSpeed),
        ("downloading_time", Parameter::DownloadingTime),
        ("last_activity", Parameter::LastActivity),
        ("leecher", Parameter::Leecher),
        ("progress", Parameter::Progress),
        ("ratio", Parameter::Ratio),
        ("seeder", Parameter::Seeder),
        ("seeding_time", Parameter::SeedingTime),
        ("size", Parameter::Size),
        ("upload", Parameter::Upload),
        ("upload_ratio", Parameter::UploadRatio),
        ("upload_speed", Parameter::UploadSpeed),
    ] {
        assert_eq!(parse_parameter(name), Some(parameter));
    }
    assert_eq!(parse_parameter("Ratio"), None);
    assert_eq!(parse_parameter(""), None);
}

#[test]
fn comparers_compare() {
    assert!(compare(num(1.0), num(2.0), Comparer::Lt));
    assert!(!compare(num(2.0), num(2.0), Comparer::Lt));
    assert!(compare(num(3.0), num(2.0), Comparer::Gt));
    assert!(compare(num(0.0), num(-0.0), Comparer::Eq));
    assert!(!compare(num(f64::NAN), num(f64::NAN), Comparer::Eq));
}

fn meets(text: &str, torrent: &Torrent) -> bool {
    matches_expression(&parsed(text), torrent, 1_000)
}

#[test]
fn limits_are_taken_in_their_units() {
    let mut sample = torrent("sample");
    sample.size = 3 * 1_073_741_824;
    assert!(meets("size > 2.9", &sample));
    assert!(meets("size = 3", &sample));
    assert!(!meets("size > 3", &sample));
    sample.uploaded = 1_073_741_824;
    assert!(meets("upload = 1", &sample));
    sample.downloaded = -1;
    assert!(meets("download < 0", &sample));
    sample.upload_speed = 2048;
    assert!(meets("upload_speed = 2", &sample));
    sample.average_upload_speed = 1024;
    sample.average_download_speed = 512;
    assert!(meets("average_uploadspeed = 1 and average_downloadspeed = 0.5", &sample));
    sample.progress = num(0.5);
    assert!(meets("progress = 50", &sample));
    assert!(meets("create_time = 900", &sample));
    sample.uploaded = 3 * 1_073_741_824 / 2;
    assert!(meets("upload_ratio = 0.5", &sample));
    assert!(meets("seeder = 10 and leecher = 5 and seeding_time = 100", &sample));
    assert!(meets("downloading_time = 100 and last_activity = 100", &sample));
}

#[test]
fn parameters_that_do_not_apply_are_never_met() {
    let mut sample = torrent("sample");
    assert!(!meets("download_speed < 10", &sample));
    assert!(meets("connected_seeder = 5 and connected_leecher = 3", &sample));
    sample.status = TorrentStatus::Downloading;
    assert!(meets("download_speed < 10", &sample));
    sample.status = TorrentStatus::Paused;
    assert!(!meets("connected_seeder = 5", &sample));
    assert!(!meets("connected_leecher = 3", &sample));
    assert!(!meets("upload_speed < 10", &sample));
    sample.size = 0;
    assert!(!meets("upload_ratio > 0", &sample));
    sample.last_activity = None;
    assert!(!meets("last_activity > 0", &sample));
    assert!(meets("last_activity > never", &sample));
    assert!(!meets("last_activity = sometimes", &sample));
    assert!(!meets("ratio = none", &sample));
}
