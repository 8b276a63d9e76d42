use mif::{decode, decode_bytes, Expected, HeaderField, PackedBuffer, ParseError};

const HEADER: &str = "DEPTH=8;\nWIDTH=8;\nADDRESS_RADIX=UNS;\nDATA_RADIX=UNS;\n";

fn cells(buffer: &PackedBuffer) -> Vec<usize> {
    (0..buffer.depth()).map(|address| buffer.get(address)).collect()
}

fn text_of(content: &str) -> String {
    format!("{HEADER}CONTENT BEGIN\n{content}\nEND;")
}

fn decoded(content: &str) -> Vec<usize> {
    cells(&decode(&text_of(content)).unwrap())
}

fn failure(text: &str) -> ParseError {
    decode(text).err().unwrap()
}

#[test]
fn range_cycles_through_its_values() {
    assert_eq!(decoded("[0..5]: 1 2;"), vec![1, 2, 1, 2, 1, 2, 0, 0]);
}

#[test]
fn single_address_writes_consecutive_cells() {
    assert_eq!(decoded("3: 7 8 9;"), vec![0, 0, 0, 7, 8, 9, 0, 0]);
}

#[test]
fn missing_depth_is_reported_by_name() {
    let text = "WIDTH=8;\nADDRESS_RADIX=UNS;\nDATA_RADIX=UNS;\nCONTENT BEGIN\n0: 1;\nEND;";
    let error = failure(text);
    assert_eq!(error, ParseError::MissingHeaderField(HeaderField::Depth));
    assert_eq!(error.offset(), None);
    match error {
        ParseError::MissingHeaderField(field) => assert_eq!(field.name(), "DEPTH"),
        _ => unreachable!(),
    }
}

#[test]
fn each_missing_attribute_is_named() {
    let lines = ["DEPTH=8;", "WIDTH=8;", "ADDRESS_RADIX=UNS;", "DATA_RADIX=UNS;"];
    let fields = [
        HeaderField::Depth,
        HeaderField::Width,
        HeaderField::AddressRadix,
        HeaderField::DataRadix,
    ];
    let names = ["DEPTH", "WIDTH", "ADDRESS_RADIX", "DATA_RADIX"];
    for missing in 0..4 {
        let mut text = String::new();
        for (i, line) in lines.iter().enumerate() {
            if i != missing {
                text.push_str(line);
            }
        }
        text.push_str("CONTENT BEGIN END;");
        assert_eq!(failure(&text), ParseError::MissingHeaderField(fields[missing]));
        assert_eq!(fields[missing].name(), names[missing]);
    }
    assert_eq!(failure(""), ParseError::MissingHeaderField(HeaderField::Depth));
}

#[test]
fn missing_colon_is_reported_where_it_should_stand() {
    let text = text_of("0 1;");
    let at = text.find("0 1;").unwrap() + 2;
    let error = failure(&text);
    assert_eq!(error, ParseError::UnexpectedToken(at, Expected::Colon));
    assert_eq!(error.offset(), Some(at));
}

#[test]
fn attributes_in_any_order_with_comments_give_one_buffer() {
    let content = "CONTENT BEGIN\n0: 1 2 3;\n[4..7]: 9;\nEND;";
    let plain = format!("{HEADER}{content}");
    let mixed = format!(
        "-- shape\nDATA_RADIX = UNS ;% the values %\nWIDTH\t=\n8;\n\
         ADDRESS_RADIX=UNS;-- the addresses\nDEPTH=8 ;\n{content}"
    );
    let first = decode(&plain).unwrap();
    let second = decode(&mixed).unwrap();
    assert_eq!(first.words(), second.words());
    assert_eq!(cells(&second), vec![1, 2, 3, 0, 9, 9, 9, 9]);
}

#[test]
fn the_last_value_of_an_attribute_counts() {
    let text = format!("WIDTH=3;DEPTH=2;{HEADER}CONTENT BEGIN 7: 255; END;");
    let buffer = decode(&text).unwrap();
    assert_eq!(buffer.width(), 8);
    assert_eq!(buffer.depth(), 8);
    assert_eq!(buffer.get(7), 255);
}

#[test]
fn a_literal_counts_modulo_two_to_the_width() {
    assert_eq!(decoded("0: 257;"), decoded("0: 1;"));
    assert_eq!(decoded("0: 511 256;"), vec![255, 0, 0, 0, 0, 0, 0, 0]);
    assert_eq!(
        decoded("1: 340282366920938463463374607431768211457;"),
        vec![0, 1, 0, 0, 0, 0, 0, 0]
    );
}

#[test]
fn assignments_to_one_address_are_combined_by_or() {
    assert_eq!(decoded("2: 5;\n2: 10;"), vec![0, 0, 15, 0, 0, 0, 0, 0]);
    assert_eq!(decoded("[0..3]: 1;\n1: 6 8;"), vec![1, 7, 9, 1, 0, 0, 0, 0]);
}

#[test]
fn a_range_that_runs_backwards_is_empty() {
    assert_eq!(decoded("[5..2]: 1;"), vec![0; 8]);
    assert_eq!(decoded("[99..2]: 1;"), vec![0; 8]);
}

#[test]
fn comments_stand_between_any_two_tokens() {
    let content = "% a %[ % b % 0 -- c\n .. % d % 1 ] % e % : -- f\n 4 % g % 5 ; -- h";
    assert_eq!(decoded(content), vec![4, 5, 0, 0, 0, 0, 0, 0]);
}

#[test]
fn what_follows_the_end_is_not_read() {
    let text = format!("{}this is @ not looked % at", text_of("0: 1;"));
    assert_eq!(cells(&decode(&text).unwrap())[0], 1);
}

#[test]
fn hexadecimal_reads_both_cases() {
    let text = "DEPTH=256;WIDTH=16;ADDRESS_RADIX=HEX;DATA_RADIX=HEX;\
                CONTENT BEGIN fF: aBcD; [0a..0B]: 00ff; END;";
    let buffer = decode(text).unwrap();
    assert_eq!(buffer.get(255), 0xabcd);
    assert_eq!(buffer.get(10), 0xff);
    assert_eq!(buffer.get(11), 0xff);
    assert_eq!(buffer.get(12), 0);
}

#[test]
fn binary_and_octal_are_read() {
    let text = "DEPTH=16;WIDTH=6;ADDRESS_RADIX=OCT;DATA_RADIX=BIN;\
                CONTENT BEGIN 17: 101010; 10: 11; END;";
    let buffer = decode(text).unwrap();
    assert_eq!(buffer.get(15), 0b101010);
    assert_eq!(buffer.get(8), 3);
}

#[test]
fn cells_are_packed_across_word_boundaries() {
    let text = "DEPTH=11;WIDTH=12;ADDRESS_RADIX=UNS;DATA_RADIX=HEX;\
                CONTENT BEGIN 0: 001 002 003 004 005 ABC 007 008 009 00A FFF; END;";
    let buffer = decode(text).unwrap();
    let bits = usize::BITS as usize;
    assert_eq!(buffer.words().len(), (11 * 12 + bits - 1) / bits);
    let expected = [1, 2, 3, 4, 5, 0xabc, 7, 8, 9, 10, 0xfff];
    assert_eq!(cells(&buffer), expected);
    for (address, cell) in expected.iter().enumerate() {
        for k in 0..12 {
            let place = address * 12 + k;
            let bit = (buffer.words()[place / bits] >> (place % bits)) & 1;
            assert_eq!(bit, (cell >> k) & 1, "bit {k} of cell {address}");
        }
    }
    for place in 11 * 12..buffer.words().len() * bits {
        assert_eq!((buffer.words()[place / bits] >> (place % bits)) & 1, 0);
    }
}

#[test]
fn a_cell_can_be_a_whole_word() {
    let bits = usize::BITS;
    let text = format!(
        "DEPTH=2;WIDTH={bits};ADDRESS_RADIX=UNS;DATA_RADIX=HEX;\
         CONTENT BEGIN 1: FFFFFFFFFFFFFFFFFFFFFFFF; END;"
    );
    let buffer = decode(&text).unwrap();
    assert_eq!(buffer.words(), &vec![0, usize::MAX]);
}

#[test]
fn an_unterminated_comment_is_reported_at_its_start() {
    let text = text_of("0: 1; % never closed");
    let at = text.find('%').unwrap();
    assert_eq!(failure(&text), ParseError::UnterminatedComment(at));
    assert_eq!(failure("% open"), ParseError::UnterminatedComment(0));
}

#[test]
fn a_digit_of_another_base_is_a_malformed_literal() {
    let text = text_of("0: 12a;");
    let at = text.find("a;").unwrap();
    assert_eq!(failure(&text), ParseError::MalformedLiteral(at));
    let binary = "DEPTH=1;WIDTH=1;ADDRESS_RADIX=BIN;DATA_RADIX=BIN;CONTENT BEGIN 0: 2; END;";
    assert_eq!(failure(binary), ParseError::MalformedLiteral(binary.find("2;").unwrap()));
}

#[test]
fn an_empty_list_of_values_is_a_malformed_literal() {
    let text = text_of("0: ;");
    let at = text.find(" ;").unwrap() + 1;
    assert_eq!(failure(&text), ParseError::MalformedLiteral(at));
}

#[test]
fn a_width_or_depth_out_of_bounds_is_a_malformed_literal() {
    let zero_width = "WIDTH=0;";
    assert_eq!(failure(zero_width), ParseError::MalformedLiteral(6));
    let wide = format!("WIDTH={};", usize::BITS + 1);
    assert_eq!(failure(&wide), ParseError::MalformedLiteral(6));
    assert_eq!(failure("DEPTH = 0;"), ParseError::MalformedLiteral(8));
    assert_eq!(failure("DEPTH=x;"), ParseError::MalformedLiteral(6));
    assert_eq!(
        failure("DEPTH=99999999999999999999999999;"),
        ParseError::MalformedLiteral(6)
    );
}

#[test]
fn an_address_that_is_no_number_is_malformed() {
    let text = text_of("x: 1;");
    let at = text.find("x:").unwrap();
    assert_eq!(failure(&text), ParseError::MalformedAddress(at));
    let text = text_of("[0..z]: 1;");
    assert_eq!(failure(&text), ParseError::MalformedAddress(text.find("z]").unwrap()));
    let text = format!("{HEADER}CONTENT BEGIN 0: 1;");
    assert_eq!(failure(&text), ParseError::MalformedAddress(text.len()));
}

#[test]
fn an_assignment_past_the_last_cell_is_malformed() {
    let text = text_of("8: 1;");
    let at = text.find("8:").unwrap();
    assert_eq!(failure(&text), ParseError::MalformedAddress(at));
    let text = text_of("6: 1 2 3;");
    assert_eq!(failure(&text), ParseError::MalformedAddress(text.find("6:").unwrap()));
    let text = text_of("0: 1;\n[2..8]: 1;");
    assert_eq!(failure(&text), ParseError::MalformedAddress(text.find("[2").unwrap()));
    assert_eq!(decoded("7: 1;"), vec![0, 0, 0, 0, 0, 0, 0, 1]);
    assert_eq!(decoded("5: 1 2 3;"), vec![0, 0, 0, 0, 0, 1, 2, 3]);
}

#[test]
fn each_expected_token_is_asked_for() {
    assert_eq!(failure("WIDTH 8;"), ParseError::UnexpectedToken(6, Expected::Equals));
    assert_eq!(failure("WIDTH=8 DEPTH"), ParseError::UnexpectedToken(8, Expected::Semicolon));
    assert_eq!(
        failure("DATA_RADIX=DEC;"),
        ParseError::UnexpectedToken(11, Expected::RadixKeyword)
    );
    let text = format!("{HEADER}CONTENTS");
    assert_eq!(
        failure(&text),
        ParseError::UnexpectedToken(HEADER.len() + 7, Expected::Begin)
    );
    let text = format!("{HEADER}BEGIN");
    assert_eq!(failure(&text), ParseError::UnexpectedToken(HEADER.len(), Expected::Content));
    let text = text_of("[0.1]: 1;");
    assert_eq!(
        failure(&text),
        ParseError::UnexpectedToken(text.find(".1").unwrap(), Expected::RangeDots)
    );
    let text = text_of("[0..1: 1;");
    assert_eq!(
        failure(&text),
        ParseError::UnexpectedToken(text.find(": 1").unwrap(), Expected::CloseBracket)
    );
    let text = format!("{HEADER}CONTENT BEGIN END");
    assert_eq!(failure(&text), ParseError::UnexpectedToken(text.len(), Expected::Semicolon));
    assert_eq!(Expected::Equals.describe(), "=");
    assert_eq!(Expected::Semicolon.describe(), ";");
    assert_eq!(Expected::Colon.describe(), ":");
    assert_eq!(Expected::RangeDots.describe(), "..");
    assert_eq!(Expected::CloseBracket.describe(), "]");
    assert_eq!(Expected::Content.describe(), "CONTENT");
    assert_eq!(Expected::Begin.describe(), "BEGIN");
    assert_eq!(Expected::RadixKeyword.describe(), "UNS, BIN, OCT or HEX");
}

#[test]
fn bytes_that_are_no_text_are_read_like_any_other() {
    let mut bytes = text_of("0: 1;").into_bytes();
    bytes.extend_from_slice(&[0xff, 0xfe]);
    assert_eq!(cells(&decode_bytes(&bytes).unwrap())[0], 1);
    let mut bytes = b"-- \xff\xfe\n".to_vec();
    bytes.extend_from_slice(text_of("1: 2;").as_bytes());
    assert_eq!(cells(&decode_bytes(&bytes).unwrap())[1], 2);
}

#[test]
fn a_wrong_digit_behind_an_address_asks_for_what_comes_next() {
    let text = text_of("1x: 1;");
    let at = text.find("x:").unwrap();
    assert_eq!(failure(&text), ParseError::UnexpectedToken(at, Expected::Colon));
    let text = text_of("[1x..2]: 1;");
    let at = text.find("x.").unwrap();
    assert_eq!(failure(&text), ParseError::UnexpectedToken(at, Expected::RangeDots));
    let text = text_of("[1..2x]: 1;");
    let at = text.find("x]").unwrap();
    assert_eq!(failure(&text), ParseError::UnexpectedToken(at, Expected::CloseBracket));
}

#[test]
fn a_longer_literal_with_the_same_low_bits_moves_nothing_else() {
    let short = decode(&text_of("2: 3 % a % 4;\n[5..6]: 9;")).unwrap();
    let long = decode(&text_of("2: 3 % a % 1000000000004;\n[5..6]: 9;")).unwrap();
    assert_eq!(1000000000004u64 % 256, 4);
    assert_eq!(short.words(), long.words());
    assert_eq!(cells(&long), vec![0, 0, 3, 4, 0, 9, 9, 0]);
}
