use ip_allocations::allocation::{parse_batch, IPAddressAllocation, ParseError};
use ip_allocations::text::parse_data;

#[test]
fn test_parser() {
    let data = [
        "lacnic|BR|ipv4|24.152.8.0|1024|20200309|allocated|301675",
        "lacnic|BR|ipv4|24.152.72.0|1024|20200311|allocated|274578",
        "afrinic|ZA|asn|1230|1|19910301|allocated|F36B9F4B",
        "afrinic|ZA|asn|1231|1|19910301|allocated|F36B9F4B",
        "afrinic|ZA|asn|1232|1|19910301|allocated|F36B9F4B",
        "afrinic|ZA|asn|2018|1|20010307|allocated|F36B9F4B",
        "afrinic|EG|asn|2561|1|20070920|allocated|F3648BE1",
        "afrinic|ZA|asn|2905|1|19930910|allocated|F367678F"
    ];

    for line in data.iter() {
        match IPAddressAllocation::from_line(line) {
            Ok(allocation) => println!("{:#?}", allocation),
            Err(e) => println!("Error parsing line: {}", e.message()),
        }
    }
}

fn fields(a: &IPAddressAllocation) -> (&str, &str, &str, &str, u32, &str, &str) {
    (
        a.registry.as_str(),
        a.country_code.as_str(),
        a.ip_version.as_str(),
        a.ip_address.as_str(),
        a.block_size,
        a.date.as_str(),
        a.status.as_str(),
    )
}

#[test]
fn lacnic_line_gives_its_fields() {
    let a = IPAddressAllocation::from_line("lacnic|BR|ipv4|24.152.8.0|1024|20200309|allocated|301675")
        .unwrap();
    assert_eq!(
        fields(&a),
        ("lacnic", "BR", "ipv4", "24.152.8.0", 1024, "20200309", "allocated")
    );
}

#[test]
fn hexadecimal_identifier_is_ignored() {
    let a = IPAddressAllocation::from_line("afrinic|ZA|asn|1230|1|19910301|allocated|F36B9F4B")
        .unwrap();
    assert_eq!(fields(&a), ("afrinic", "ZA", "asn", "1230", 1, "19910301", "allocated"));
}

#[test]
fn every_sample_line_parses() {
    let data = [
        "lacnic|BR|ipv4|24.152.72.0|1024|20200311|allocated|274578",
        "afrinic|ZA|asn|1231|1|19910301|allocated|F36B9F4B",
        "afrinic|EG|asn|2561|1|20070920|allocated|F3648BE1",
    ];
    for line in data.iter() {
        assert!(IPAddressAllocation::from_line(line).is_ok());
    }
}

#[test]
fn empty_fields_are_kept() {
    let a = IPAddressAllocation::from_line("||||0||||").err();
    assert_eq!(a, Some(ParseError::WrongFieldCount));
    let b = IPAddressAllocation::from_line("|||||0||").err();
    assert_eq!(b, Some(ParseError::InvalidBlockSize));
    let c = IPAddressAllocation::from_line("||||0|||").unwrap();
    assert_eq!(fields(&c), ("", "", "", "", 0, "", ""));
}

#[test]
fn header_line_has_wrong_field_count() {
    let r = IPAddressAllocation::from_line("2.3|arin|header|junk");
    assert_eq!(r.err(), Some(ParseError::WrongFieldCount));
    assert_eq!(IPAddressAllocation::from_line("").err(), Some(ParseError::WrongFieldCount));
    assert_eq!(
        IPAddressAllocation::from_line("a|b|c|d|1|e|f|g|h").err(),
        Some(ParseError::WrongFieldCount)
    );
}

#[test]
fn non_numeric_block_size_is_rejected() {
    let r = IPAddressAllocation::from_line("lacnic|BR|ipv4|24.152.8.0|abc|20200309|allocated|301675");
    assert_eq!(r.err(), Some(ParseError::InvalidBlockSize));
}

#[test]
fn negative_block_size_is_rejected() {
    let r = IPAddressAllocation::from_line("lacnic|BR|ipv4|24.152.8.0|-1|20200309|allocated|301675");
    assert_eq!(r.err(), Some(ParseError::InvalidBlockSize));
}

#[test]
fn block_size_bounds() {
    let max = IPAddressAllocation::from_line("arin|US|ipv4|0.0.0.0|4294967295|20000101|allocated|1")
        .unwrap();
    assert_eq!(max.block_size, 4294967295);
    let over = IPAddressAllocation::from_line("arin|US|ipv4|0.0.0.0|4294967296|20000101|allocated|1");
    assert_eq!(over.err(), Some(ParseError::InvalidBlockSize));
    let long = IPAddressAllocation::from_line("arin|US|ipv4|0.0.0.0|99999999999999999999|x|y|1");
    assert_eq!(long.err(), Some(ParseError::InvalidBlockSize));
    let zeros = IPAddressAllocation::from_line("arin|US|ipv4|0.0.0.0|000256|20000101|allocated|1")
        .unwrap();
    assert_eq!(zeros.block_size, 256);
}

#[test]
fn block_size_accepts_a_leading_plus() {
    let a = IPAddressAllocation::from_line("ripencc|FR|ipv6|2001:db8::|+32|20100101|assigned|x")
        .unwrap();
    assert_eq!(a.block_size, 32);
    let bare = IPAddressAllocation::from_line("ripencc|FR|ipv6|2001:db8::|+|20100101|assigned|x");
    assert_eq!(bare.err(), Some(ParseError::InvalidBlockSize));
    let spaced = IPAddressAllocation::from_line("ripencc|FR|ipv6|2001:db8::| 32|20100101|assigned|x");
    assert_eq!(spaced.err(), Some(ParseError::InvalidBlockSize));
}

#[test]
fn non_ascii_text_is_kept() {
    let a = IPAddressAllocation::from_line("régistre|ÇA|ipv4|1.2.3.4|8|2020é|alloué|z").unwrap();
    assert_eq!(fields(&a), ("régistre", "ÇA", "ipv4", "1.2.3.4", 8, "2020é", "alloué"));
}

#[test]
fn error_messages() {
    assert_eq!(ParseError::WrongFieldCount.message(), "Invalid line format");
    assert_eq!(ParseError::InvalidBlockSize.message(), "Invalid block size");
}

#[test]
fn batch_skips_header_line() {
    let doc = "lacnic|BR|ipv4|24.152.8.0|1024|20200309|allocated|301675\n2.3\nafrinic|ZA|asn|1230|1|19910301|allocated|F36B9F4B";
    let r = parse_batch(doc);
    assert_eq!(r.len(), 2);
    assert_eq!(
        fields(&r[0]),
        ("lacnic", "BR", "ipv4", "24.152.8.0", 1024, "20200309", "allocated")
    );
    assert_eq!(fields(&r[1]), ("afrinic", "ZA", "asn", "1230", 1, "19910301", "allocated"));
}

#[test]
fn batch_of_empty_document_is_empty() {
    assert!(parse_batch("").is_empty());
    assert!(parse_batch("\n").is_empty());
}

#[test]
fn batch_keeps_well_formed_lines_in_order() {
    let doc = "2|arin|20240101|5|19700101|20240101|+0000\n\
arin|*|asn|*|3|summary\n\
arin|US|ipv4|3.0.0.0|16777216|19880223|allocated|a\n\
arin|US|ipv4|4.0.0.0|x|19921201|allocated|b\n\
arin|CA|ipv6|2001:500::|32|20050101|assigned|c\n\
\n\
arin|US|asn|7|1|19900101|allocated|d\n";
    let r = parse_batch(doc);
    assert_eq!(r.len(), 3);
    assert_eq!(r[0].ip_address, "3.0.0.0");
    assert_eq!(r[0].block_size, 16777216);
    assert_eq!(r[1].ip_address, "2001:500::");
    assert_eq!(r[1].country_code, "CA");
    assert_eq!(r[2].ip_address, "7");
    assert_eq!(r[2].status, "allocated");
}

#[test]
fn batch_keeps_duplicates() {
    let line = "apnic|JP|ipv4|1.0.16.0|4096|20110412|allocated|A92319D5";
    let doc = format!("{}\n{}\n", line, line);
    let r = parse_batch(&doc);
    assert_eq!(r.len(), 2);
    assert_eq!(fields(&r[0]), fields(&r[1]));
}

#[test]
fn batch_strips_crlf_line_endings() {
    let doc = "apnic|JP|ipv4|1.0.16.0|4096|20110412|allocated|A92319D5\r\napnic|AU|ipv4|1.0.0.0|256|20110811|assigned|x\r";
    let r = parse_batch(doc);
    assert_eq!(r.len(), 2);
    assert_eq!(r[0].status, "allocated");
    assert_eq!(r[1].status, "assigned");
}

#[test]
fn batch_twice_gives_same_records() {
    let doc = "lacnic|BR|ipv4|24.152.8.0|1024|20200309|allocated|301675\njunk\nafrinic|EG|asn|2561|1|20070920|allocated|F3648BE1\n";
    let first = parse_batch(doc);
    let second = parse_batch(doc);
    assert_eq!(first.len(), second.len());
    for (a, b) in first.iter().zip(second.iter()) {
        assert_eq!(fields(a), fields(b));
    }
    assert_eq!(first.len(), 2);
}

#[test]
fn lines_of_document() {
    assert_eq!(parse_data("a\nb\r\n\nc"), vec!["a", "b", "", "c"]);
    assert_eq!(parse_data("a\n"), vec!["a"]);
    assert_eq!(parse_data("a\n\n"), vec!["a", ""]);
    assert_eq!(parse_data("x\r"), vec!["x\r"]);
    assert_eq!(parse_data("\r\n"), vec![""]);
    assert!(parse_data("").is_empty());
}
