use tree_ftp::chars::{find_char, parse_uint_capped, split_on, trim_end_str};
use tree_ftp::ftp::command::{format_command, FtpCommand};
use tree_ftp::ftp::error::Error;
use tree_ftp::ftp::listing::{is_directory, parse_filename};
use tree_ftp::ftp::passive::{
    parse_passive_mode_response, passive_reply_decision, Endpoint, IpAddress, PassiveDecision,
};
use tree_ftp::ftp::reconnect::{reconnect_should_retry, RETRY_BUDGET_SECS};
use tree_ftp::ftp::response::{parse_code, push_response, read_responses_from_lines, reply_closed};

#[test]
fn test_parse_uint_capped() {
    assert_eq!(parse_uint_capped("0", 255), Some(0));
    assert_eq!(parse_uint_capped("255", 255), Some(255));
    assert_eq!(parse_uint_capped("256", 255), None);
    assert_eq!(parse_uint_capped("+42", 255), Some(42));
    assert_eq!(parse_uint_capped("007", 255), Some(7));
    assert_eq!(parse_uint_capped("", 255), None);
    assert_eq!(parse_uint_capped("+", 255), None);
    assert_eq!(parse_uint_capped("1a", 255), None);
    assert_eq!(parse_uint_capped("-1", 255), None);
    assert_eq!(parse_uint_capped("65535", 65535), Some(65535));
    assert_eq!(parse_uint_capped("65536", 65535), None);
    assert_eq!(parse_uint_capped("99999999999999999999", 65535), None);
}

#[test]
fn test_trim_and_search_helpers() {
    assert_eq!(trim_end_str("220 hello\r\n"), "220 hello");
    assert_eq!(trim_end_str("   "), "");
    assert_eq!(trim_end_str("x"), "x");
    assert_eq!(find_char("a(b)c", '('), Some(1));
    assert_eq!(find_char("abc", '('), None);
    assert_eq!(split_on("1,2,,3", ','), vec!["1", "2", "", "3"]);
    assert_eq!(split_on("", ','), vec![""]);
}

#[test]
fn test_parse_code_and_reply_closed() {
    assert_eq!(parse_code("220 Welcome"), 220);
    assert_eq!(parse_code("220-Welcome"), 220);
    assert_eq!(parse_code("hi"), 0);
    assert_eq!(parse_code("hello"), 0);
    assert_eq!(parse_code(""), 0);
    assert!(reply_closed("220 Welcome"));
    assert!(!reply_closed("220-Welcome"));
    assert!(!reply_closed("220"));
}

#[test]
fn test_read_responses_from_lines() {
    let lines: Vec<String> = vec![
        "220-Welcome\r\n".to_string(),
        "220-to the server\r\n".to_string(),
        "220 Ready\r\n".to_string(),
        "500 never read\r\n".to_string(),
    ];
    let responses = read_responses_from_lines(&lines);

    assert_eq!(responses.len(), 3);
    assert_eq!(responses[0], (220, "220-Welcome".to_string()));
    assert_eq!(responses[2], (220, "220 Ready".to_string()));
}

#[test]
fn test_push_response() {
    let mut responses = Vec::new();
    let closed = push_response(&mut responses, "150 Opening data connection\r\n");

    assert!(closed);
    assert_eq!(responses, vec![(150, "150 Opening data connection".to_string())]);
}

#[test]
fn test_format_command() {
    assert_eq!(format_command(&FtpCommand::User("anna".to_string())), "USER anna\r\n");
    assert_eq!(format_command(&FtpCommand::Pass("secret".to_string())), "PASS secret\r\n");
    assert_eq!(format_command(&FtpCommand::Syst), "SYST\r\n");
    assert_eq!(format_command(&FtpCommand::Feat), "FEAT\r\n");
    assert_eq!(format_command(&FtpCommand::Pwd), "PWD\r\n");
    assert_eq!(format_command(&FtpCommand::Type("I".to_string())), "TYPE I\r\n");
    assert_eq!(format_command(&FtpCommand::Pasv), "PASV\r\n");
    assert_eq!(format_command(&FtpCommand::Epsv), "EPSV\r\n");
    assert_eq!(format_command(&FtpCommand::List), "LIST\r\n");
    assert_eq!(format_command(&FtpCommand::Cwd("pub".to_string())), "CWD pub\r\n");
    assert_eq!(format_command(&FtpCommand::Cdup), "CDUP\r\n");
}

#[test]
fn test_pasv_parsing() {
    let peer = IpAddress::V4(192, 168, 0, 9);
    let r = parse_passive_mode_response(
        false,
        peer,
        None,
        "227 Entering Passive Mode (127,0,0,1,117,48)",
    );

    assert_eq!(r, Ok(Endpoint { ip: IpAddress::V4(127, 0, 0, 1), port: 117 * 256 + 48 }));
}

#[test]
fn test_epsv_parsing() {
    let peer = IpAddress::V4(10, 0, 0, 5);
    let r = parse_passive_mode_response(true, peer, None, "229 Extended Passive Mode (|||6000|)");

    assert_eq!(r, Ok(Endpoint { ip: peer, port: 6000 }));
}

#[test]
fn test_passive_parse_errors() {
    let peer = IpAddress::V4(10, 0, 0, 5);
    let cached = Endpoint { ip: IpAddress::V4(1, 2, 3, 4), port: 21 };

    // no parentheses: the cached endpoint, where one exists
    assert_eq!(parse_passive_mode_response(false, peer, Some(cached), "227 whatever"), Ok(cached));
    assert_eq!(
        parse_passive_mode_response(false, peer, None, "227 whatever"),
        Err(Error::InvalidParsedData)
    );
    // an opening parenthesis without a closing one
    assert_eq!(
        parse_passive_mode_response(false, peer, None, "227 (1,2,3"),
        Err(Error::InvalidParsedData)
    );
    // a closing parenthesis before the opening one
    assert_eq!(
        parse_passive_mode_response(false, peer, None, "227 )(1,2,3,4,5,6"),
        Err(Error::InvalidParsedData)
    );
    // too few fields
    assert_eq!(
        parse_passive_mode_response(false, peer, None, "227 (1,2,3,4,5)"),
        Err(Error::InvalidParsedData)
    );
    // an octet out of range
    assert_eq!(
        parse_passive_mode_response(false, peer, None, "227 (999,0,0,1,1,1)"),
        Err(Error::InvalidParsedIp)
    );
    // a port field that is not a number
    assert_eq!(
        parse_passive_mode_response(false, peer, None, "227 (1,2,3,4,x,1)"),
        Err(Error::InvalidParsedPort)
    );
    // a port sum beyond 16 bits
    assert_eq!(
        parse_passive_mode_response(false, peer, None, "227 (1,2,3,4,256,0)"),
        Err(Error::InvalidParsedPort)
    );
    // extended mode wants exactly five fields
    assert_eq!(
        parse_passive_mode_response(true, peer, None, "229 (|||6000)"),
        Err(Error::InvalidParsedData)
    );
    assert_eq!(
        parse_passive_mode_response(true, peer, None, "229 (|||x|)"),
        Err(Error::InvalidParsedPort)
    );
}

#[test]
fn test_passive_reply_decision() {
    let empty: Vec<(u16, String)> = Vec::new();
    assert!(matches!(passive_reply_decision(&empty), PassiveDecision::ReconnectAndResend));

    let blank = vec![(227, "".to_string())];
    assert!(matches!(passive_reply_decision(&blank), PassiveDecision::Resend));

    let usable = vec![(150, "ignored".to_string()), (227, "227 (1,2,3,4,5,6)".to_string())];
    match passive_reply_decision(&usable) {
        PassiveDecision::UseLine(l) => assert_eq!(l, "227 (1,2,3,4,5,6)"),
        _ => panic!("expected the trailing line"),
    }
}

#[test]
fn test_reconnect_policy() {
    assert!(reconnect_should_retry(0));
    assert!(reconnect_should_retry(RETRY_BUDGET_SECS - 1));
    assert!(!reconnect_should_retry(RETRY_BUDGET_SECS));
    assert!(!reconnect_should_retry(RETRY_BUDGET_SECS + 1));
}

#[test]
fn test_listing_classification() {
    let dir_line = "drwxr-xr-x 2 owner group 4096 Jan 1 00:00 pub";
    let file_line = "-rw-r--r-- 1 owner group 17 Jan 1 00:00 readme.txt";

    assert!(is_directory(dir_line));
    assert!(!is_directory(file_line));
    assert!(!is_directory(""));

    assert_eq!(parse_filename(dir_line), "pub");
    assert_eq!(parse_filename(file_line), "readme.txt");
}

#[test]
fn test_listing_name_with_spaces() {
    let line = "-rw-r--r-- 1 owner group 17 Jan 1 00:00 my file name";

    assert_eq!(parse_filename(line), "my file name");
}

#[test]
fn test_listing_short_line_has_empty_name() {
    assert_eq!(parse_filename("drwxr-xr-x 2 owner group"), "");
    assert_eq!(parse_filename(""), "");
}
