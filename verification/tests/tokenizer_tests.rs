use moshiki::tokenizer::{tokenize, reconstruct_from_tokens, Token, TokenType};

#[test]
fn tokenizer_check_is_whitespace() {
    assert!(TokenType::Whitespace.is_whitespace());
}

#[test]
fn tokenizer_test_tokenizer_simple() {
    let line = "src: /10.10.34.30:33078, dest: /10.10.34.11:50010";
    let toks: Vec<_> = tokenize(line);
    let expected_strs = vec![
        "src",
        ":",
        " ",
        "/",
        "10.10.34.30",
        ":",
        "33078",
        ",",
        " ",
        "dest",
        ":",
        " ",
        "/",
        "10.10.34.11",
        ":",
        "50010",
    ];
    let expected_types = [
        TokenType::Word,
        TokenType::Punctuation,
        TokenType::Whitespace,
        TokenType::Punctuation,
        TokenType::IPv4,
        TokenType::Punctuation,
        TokenType::Number,
        TokenType::Punctuation,
        TokenType::Whitespace,
        TokenType::Word,
        TokenType::Punctuation,
        TokenType::Whitespace,
        TokenType::Punctuation,
        TokenType::IPv4,
        TokenType::Punctuation,
        TokenType::Number,
    ];

    for (i, (tok, expected_str)) in toks.iter().zip(expected_strs.iter()).enumerate() {
        assert_eq!(tok.token_type(), expected_types[i]);
        match tok {
            Token::Whitespace(len) => assert_eq!(*len as usize, expected_str.len()),
            _ => assert_eq!(tok.to_string(line), *expected_str),
        }
    }

    let reconstructed = reconstruct_from_tokens(line, &toks);
    assert_eq!(reconstructed, line);
}

#[test]
fn tokenizer_test_packet_expected_and_reconstruction() {
    let line = "PacketResponder: BP-108841162-10.10.34.11-1440074360971:blk_1074072698_331874, type=HAS_DOWNSTREAM_IN_PIPELINE terminating";
    let toks: Vec<_> = tokenize(line);
    let expected_strs = vec![
        "PacketResponder",
        ":",
        " ",
        "BP-108841162-10.10.34.11-1440074360971",
        ":",
        "blk_1074072698_331874",
        ",",
        " ",
        "type",
        "=",
        "HAS_DOWNSTREAM_IN_PIPELINE",
        " ",
        "terminating",
    ];
    let expected_types = [
        TokenType::Word,
        TokenType::Punctuation,
        TokenType::Whitespace,
        TokenType::Word,
        TokenType::Punctuation,
        TokenType::Word,
        TokenType::Punctuation,
        TokenType::Whitespace,
        TokenType::Word,
        TokenType::Punctuation,
        TokenType::Word,
        TokenType::Whitespace,
        TokenType::Word,
    ];

    for (i, (tok, expected_str)) in toks.iter().zip(expected_strs.iter()).enumerate() {
        assert_eq!(tok.token_type(), expected_types[i]);
        match tok {
            Token::Whitespace(len) => assert_eq!(*len as usize, expected_str.len()),
            _ => assert_eq!(tok.to_string(line), *expected_str),
        }
    }

    let reconstructed = reconstruct_from_tokens(line, &toks);
    assert_eq!(reconstructed, line);
}

#[test]
fn tokenizer_test_tokenizer_log_line() {
    let line = "src: /10.10.34.11:52611, dest: /10.10.34.42:50010, bytes: 162571, op: HDFS_WRITE, cliID: DFSClient_NONMAPREDUCE_-941064892_1, offset: 0, srvID: ac6cb715-a2bc-4644-aaa4-10fcbd1c390e, blockid: BP-108841162-10.10.34.11-1440074360971:blk_1073854279_113455, duration: 3374681";
    let toks: Vec<_> = tokenize(line);

    let expected_strs = vec![
        "src", ":", " ", "/", "10.10.34.11", ":", "52611", ",", " ", "dest", ":", " ", "/",
        "10.10.34.42", ":", "50010", ",", " ", "bytes", ":", " ", "162571", ",", " ", "op", ":",
        " ", "HDFS_WRITE", ",", " ", "cliID", ":", " ", "DFSClient_NONMAPREDUCE_-941064892_1",
        ",", " ", "offset", ":", " ", "0", ",", " ", "srvID", ":", " ",
        "ac6cb715-a2bc-4644-aaa4-10fcbd1c390e", ",", " ", "blockid", ":", " ",
        "BP-108841162-10.10.34.11-1440074360971", ":", "blk_1073854279_113455", ",", " ",
        "duration", ":", " ", "3374681",
    ];

    let expected_types = [
        TokenType::Word,
        TokenType::Punctuation,
        TokenType::Whitespace,
        TokenType::Punctuation,
        TokenType::IPv4,
        TokenType::Punctuation,
        TokenType::Number,
        TokenType::Punctuation,
        TokenType::Whitespace,
        TokenType::Word,
        TokenType::Punctuation,
        TokenType::Whitespace,
        TokenType::Punctuation,
        TokenType::IPv4,
        TokenType::Punctuation,
        TokenType::Number,
        TokenType::Punctuation,
        TokenType::Whitespace,
        TokenType::Word,
        TokenType::Punctuation,
        TokenType::Whitespace,
        TokenType::Number,
        TokenType::Punctuation,
        TokenType::Whitespace,
        TokenType::Word,
        TokenType::Punctuation,
        TokenType::Whitespace,
        TokenType::Word,
        TokenType::Punctuation,
        TokenType::Whitespace,
        TokenType::Word,
        TokenType::Punctuation,
        TokenType::Whitespace,
        TokenType::Word,
        TokenType::Punctuation,
        TokenType::Whitespace,
        TokenType::Word,
        TokenType::Punctuation,
        TokenType::Whitespace,
        TokenType::Number,
        TokenType::Punctuation,
        TokenType::Whitespace,
        TokenType::Word,
        TokenType::Punctuation,
        TokenType::Whitespace,
        TokenType::Uuid,
        TokenType::Punctuation,
        TokenType::Whitespace,
        TokenType::Word,
        TokenType::Punctuation,
        TokenType::Whitespace,
        TokenType::Word,
        TokenType::Punctuation,
        TokenType::Word,
        TokenType::Punctuation,
        TokenType::Whitespace,
        TokenType::Word,
        TokenType::Punctuation,
        TokenType::Whitespace,
        TokenType::Number,
    ];

    for (i, (tok, expected_str)) in toks.iter().zip(expected_strs.iter()).enumerate() {
        assert_eq!(tok.token_type(), expected_types[i]);
        match tok {
            Token::Whitespace(len) => assert_eq!(*len as usize, expected_str.len()),
            _ => assert_eq!(tok.to_string(line), *expected_str),
        }
    }
}

#[test]
fn test_max_tokens() {
    let first_part = "a ".repeat(55); // = 110 tokens
    let catch_all = "b ".repeat(5); // = 10 tokens
    let line = format!("{first_part}{catch_all}");

    let toks: Vec<_> = tokenize(&line);
    assert_eq!(toks.len(), 101);
    assert_eq!(toks[100].token_type(), TokenType::CatchAll);
    assert_eq!(toks[100].to_string(&line), "a a a a a b b b b b ");
}

#[test]
fn uuid_with_wrong_separators_is_not_uuid() {
    // Valid shape first.
    let line = "ac6cb715-a2bc-4644-aaa4-10fcbd1c390e";
    let toks = tokenize(line);
    assert_eq!(toks[0].token_type(), TokenType::Uuid);
    // The same hex digits with one separator out of place stay a word.
    let wrong = "ac6cb71-5a2bc-4644-aaa4-10fcbd1c390e";
    let toks2 = tokenize(wrong);
    assert_ne!(toks2[0].token_type(), TokenType::Uuid);
}

#[test]
fn tokenizer_round_trip_plain_spaces() {
    let line = "alpha 10.0.0.1 42 beta_gamma-delta .. !";
    let toks = tokenize(line);
    assert_eq!(reconstruct_from_tokens(line, &toks), line);
}
