use moshiki::tokenizer::{tokenize, reconstruct_from_tokens, Token, TokenType};

#[test]
fn mod_check_is_whitespace() {
    assert!(TokenType::Whitespace.is_whitespace());
}

#[test]
fn mod_test_tokenizer_simple() {
    let line = "src: /10.10.34.30:33078, dest: /10.10.34.11:50010";
    let toks: Vec<_> = tokenize(line);
    let expected_strs = vec![
        "src",
        ":",
        " ",
        "/",
        "10.10.34.30",
        ":",
        "33078",
        ",",
        " ",
        "dest",
        ":",
        " ",
        "/",
        "10.10.34.11",
        ":",
        "50010",
    ];
    let expected_types = [
        TokenType::Word,
        TokenType::Punctuation,
        TokenType::Whitespace,
        TokenType::Punctuation,
        TokenType::IPv4,
        TokenType::Punctuation,
        TokenType::Number,
        TokenType::Punctuation,
        TokenType::Whitespace,
        TokenType::Word,
        TokenType::Punctuation,
        TokenType::Whitespace,
        TokenType::Punctuation,
        TokenType::IPv4,
        TokenType::Punctuation,
        TokenType::Number,
    ];

    for (i, (tok, expected_str)) in toks.iter().zip(expected_strs.iter()).enumerate() {
        assert_eq!(tok.token_type(), expected_types[i]);
        match tok {
            Token::Whitespace(len) => assert_eq!(*len as usize, expected_str.len()),
            _ => assert_eq!(tok.to_string(line), *expected_str),
        }
    }

    let reconstructed = reconstruct_from_tokens(line, &toks);
    assert_eq!(reconstructed, line);
}

#[test]
fn mod_test_packet_expected_and_reconstruction() {
    let line = "PacketResponder: BP-108841162-10.10.34.11-1440074360971:blk_1074072698_331874, type=HAS_DOWNSTREAM_IN_PIPELINE terminating";
    let toks: Vec<_> = tokenize(line);
    let expected_strs = vec![
        "PacketResponder",
        ":",
        " ",
        "BP-108841162-10.10.34.11-1440074360971",
        ":",
        "blk_1074072698_331874",
        ",",
        " ",
        "type",
        "=",
        "HAS_DOWNSTREAM_IN_PIPELINE",
        " ",
        "terminating",
    ];
    let expected_types = [
        TokenType::Word,
        TokenType::Punctuation,
        TokenType::Whitespace,
        TokenType::Word,
        TokenType::Punctuation,
        TokenType::Word,
        TokenType::Punctuation,
        TokenType::Whitespace,
        TokenType::Word,
        TokenType::Punctuation,
        TokenType::Word,
        TokenType::Whitespace,
        TokenType::Word,
    ];

    for (i, (tok, expected_str)) in toks.iter().zip(expected_strs.iter()).enumerate() {
        assert_eq!(tok.token_type(), expected_types[i]);
        match tok {
            Token::Whitespace(len) => assert_eq!(*len as usize, expected_str.len()),
            _ => assert_eq!(tok.to_string(line), *expected_str),
        }
    }

    let reconstructed = reconstruct_from_tokens(line, &toks);
    assert_eq!(reconstructed, line);
}

#[test]
fn mod_test_tokenizer_log_line() {
    let line = "src: /10.10.34.11:52611, dest: /10.10.34.42:50010, bytes: 162571, op: HDFS_WRITE, cliID: DFSClient_NONMAPREDUCE_-941064892_1, offset: 0, srvID: ac6cb715-a2bc-4644-aaa4-10fcbd1c390e, blockid: BP-108841162-10.10.34.11-1440074360971:blk_1073854279_113455, duration: 3374681";
    let toks: Vec<_> = tokenize(line);

    let expected_types = [
        TokenType::Word,
        TokenType::Punctuation,
        TokenType::Whitespace,
        TokenType::Punctuation,
        TokenType::IPv4,
        TokenType::Punctuation,
        TokenType::Number,
        TokenType::Punctuation,
        TokenType::Whitespace,
        TokenType::Word,
        TokenType::Punctuation,
        TokenType::Whitespace,
        TokenType::Punctuation,
        TokenType::IPv4,
        TokenType::Punctuation,
        TokenType::Number,
        TokenType::Punctuation,
        TokenType::Whitespace,
        TokenType::Word,
        TokenType::Punctuation,
        TokenType::Whitespace,
        TokenType::Number,
        TokenType::Punctuation,
        TokenType::Whitespace,
        TokenType::Word,
        TokenType::Punctuation,
        TokenType::Whitespace,
        TokenType::Word,
        TokenType::Punctuation,
        TokenType::Whitespace,
        TokenType::Word,
        TokenType::Punctuation,
        TokenType::Whitespace,
        TokenType::Word,
        TokenType::Punctuation,
        TokenType::Whitespace,
        TokenType::Word,
        TokenType::Punctuation,
        TokenType::Whitespace,
        TokenType::Number,
        TokenType::Punctuation,
        TokenType::Whitespace,
        TokenType::Word,
        TokenType::Punctuation,
        TokenType::Whitespace,
        TokenType::Uuid,
        TokenType::Punctuation,
        TokenType::Whitespace,
        TokenType::Word,
        TokenType::Punctuation,
        TokenType::Whitespace,
        TokenType::Word,
        TokenType::Punctuation,
        TokenType::Word,
        TokenType::Punctuation,
        TokenType::Whitespace,
        TokenType::Word,
        TokenType::Punctuation,
        TokenType::Whitespace,
        TokenType::Number,
    ];

    let actual_token_types = toks.iter().map(|t| t.token_type()).collect::<Vec<_>>();
    assert_eq!(actual_token_types, expected_types);
}
