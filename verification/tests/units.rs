//! Unit tests for the lexer, parser, decoder, hashing and timestamp
//! utilities, and the analysis cache.

use pdx::analyzer::{ascii_string, id_string, Config};
use pdx::cache::{AnalysisCache, CacheDecision};
use pdx::decode::{apply_filter_chain, ascii_hex_decode, flate_decode};
use pdx::errors::Error;
use pdx::parser::parse_value;
use pdx::utils;
use pdx::value::{ObjectId, PdfValue};

#[test]
fn test_timestamp_validation() {
    assert!(utils::validate_timestamp("2025-06-03 19:38:56 UTC"));
}

#[test]
fn timestamp_rejects_bad_dates() {
    assert!(utils::validate_timestamp("2025-06-03 19:38:56"));
    assert!(utils::validate_timestamp("2024-02-29 00:00:00"));
    assert!(!utils::validate_timestamp("2023-02-29 00:00:00"));
    assert!(!utils::validate_timestamp("2025-13-01 00:00:00"));
    assert!(!utils::validate_timestamp("2025-00-10 00:00:00"));
    assert!(!utils::validate_timestamp("2025-06-03 24:00:00"));
    assert!(!utils::validate_timestamp("2025-06-03"));
    assert!(!utils::validate_timestamp("not a date at all!!"));
}

#[test]
fn test_new_analyzer() {
    let config = Config::default();
    let analyzer = pdx::analyzer::PdfAnalyzer::new(config);
    assert!(analyzer.created <= chrono::Utc::now().timestamp());
}

#[test]
fn test_load_invalid_pdf() {
    let config = Config::default();
    assert!(pdx::analyzer::PdfAnalyzer::load(b"Not a PDF file\n".to_vec(), config).is_err());
}

#[test]
fn known_hash_of_empty_input() {
    assert_eq!(
        utils::calculate_hash(b""),
        "47DEQpj8HBSa+/TImW+5JCeuQeRkm5NMpJWZG3hSuFU="
    );
    assert_eq!(utils::calculate_hash(b"abc").len(), 44);
}

#[test]
fn parses_scalar_values() {
    match parse_value(b" -42 ", 0) {
        Some((PdfValue::Integer(n), _)) => assert_eq!(n, -42),
        other => panic!("unexpected {:?}", other),
    }
    match parse_value(b"+007 ", 0) {
        Some((PdfValue::Integer(n), _)) => assert_eq!(n, 7),
        other => panic!("unexpected {:?}", other),
    }
    match parse_value(b"true ", 0) {
        Some((PdfValue::Bool(b), _)) => assert!(b),
        other => panic!("unexpected {:?}", other),
    }
    match parse_value(b"null ", 0) {
        Some((PdfValue::Null, _)) => {}
        other => panic!("unexpected {:?}", other),
    }
    match parse_value(b"3.25 ", 0) {
        Some((PdfValue::Real(raw), _)) => assert_eq!(raw, b"3.25".to_vec()),
        other => panic!("unexpected {:?}", other),
    }
    // An over-long numeral is a lexical error.
    assert!(parse_value(b"1234567890123456789012345 ", 0).is_none());
}

#[test]
fn parses_reference_lookahead() {
    match parse_value(b"7 0 R ", 0) {
        Some((PdfValue::Reference(n, g), _)) => {
            assert_eq!(n, 7);
            assert_eq!(g, 0);
        }
        other => panic!("unexpected {:?}", other),
    }
    // Two integers not followed by R stay an integer.
    match parse_value(b"7 0 obj", 0) {
        Some((PdfValue::Integer(7), e)) => assert!(e <= 2),
        other => panic!("unexpected {:?}", other),
    }
}

#[test]
fn parses_names_with_escapes() {
    match parse_value(b"/A#42C ", 0) {
        Some((PdfValue::Name(nm), _)) => assert_eq!(nm, b"ABC".to_vec()),
        other => panic!("unexpected {:?}", other),
    }
}

#[test]
fn parses_strings() {
    match parse_value(b"(A\\101B) ", 0) {
        Some((PdfValue::Text(t), _)) => assert_eq!(t, b"AAB".to_vec()),
        other => panic!("unexpected {:?}", other),
    }
    match parse_value(b"(a(nested)b) ", 0) {
        Some((PdfValue::Text(t), _)) => assert_eq!(t, b"a(nested)b".to_vec()),
        other => panic!("unexpected {:?}", other),
    }
    match parse_value(b"<48 65 6C> ", 0) {
        Some((PdfValue::Text(t), _)) => assert_eq!(t, b"Hel".to_vec()),
        other => panic!("unexpected {:?}", other),
    }
    // Odd digit count pads a zero low nibble.
    match parse_value(b"<485> ", 0) {
        Some((PdfValue::Text(t), _)) => assert_eq!(t, vec![0x48, 0x50]),
        other => panic!("unexpected {:?}", other),
    }
    // Unterminated string is a lexical error.
    assert!(parse_value(b"(open", 0).is_none());
}

#[test]
fn parses_dict_with_duplicate_keys() {
    match parse_value(b"<< /A 1 /A 2 /B 3 >> ", 0) {
        Some((PdfValue::Dict(es), _)) => {
            assert_eq!(es.len(), 2);
            // The later entry wins.
            let a = es.iter().find(|e| e.key == b"A".to_vec()).unwrap();
            match &a.value {
                PdfValue::Integer(n) => assert_eq!(*n, 2),
                other => panic!("unexpected {:?}", other),
            }
        }
        other => panic!("unexpected {:?}", other),
    }
}

#[test]
fn parses_nested_arrays() {
    match parse_value(b"[1 [2 3] (x)] ", 0) {
        Some((PdfValue::Array(items), _)) => assert_eq!(items.len(), 3),
        other => panic!("unexpected {:?}", other),
    }
}

#[test]
fn decodes_ascii_hex() {
    assert_eq!(
        ascii_hex_decode(b"48656C6C6F>").unwrap(),
        b"Hello".to_vec()
    );
    assert!(ascii_hex_decode(b"4z>").is_none());
}

#[test]
fn inflates_zlib_round_trip() {
    let data = b"stream content stream content stream content";
    let packed = miniz_oxide::deflate::compress_to_vec_zlib(data, 6);
    assert_eq!(flate_decode(&packed).unwrap(), data.to_vec());
    assert!(flate_decode(b"not zlib").is_none());
}

#[test]
fn filter_chain_reports_failing_position() {
    let names = vec![b"ASCIIHexDecode".to_vec(), b"NoSuchFilter".to_vec()];
    match apply_filter_chain(b"4142>".to_vec(), &names) {
        Err(i) => assert_eq!(i, 1),
        Ok(_) => panic!("chain must fail at the unknown filter"),
    }
    let names2 = vec![b"ASCIIHexDecode".to_vec()];
    assert_eq!(
        apply_filter_chain(b"4142>".to_vec(), &names2).unwrap(),
        b"AB".to_vec()
    );
}

#[test]
fn cache_single_flight_decisions() {
    let mut cache = AnalysisCache::new();
    let key = "fingerprint-a".to_string();
    assert_eq!(cache.begin(&key), CacheDecision::Compute);
    // The same fingerprint never computes twice while in flight.
    assert_eq!(cache.begin(&key), CacheDecision::Wait);
    assert!(cache.get_ready(&key).is_none());
    let mut text = String::from("%PDF-1.4\n");
    let o1 = text.len();
    text.push_str("1 0 obj\n<< /Type /Catalog >>\nendobj\n");
    let x = text.len();
    text.push_str(&format!(
        "xref\n0 1\n0000000000 65535 f \n1 1\n{:010} 00000 n \ntrailer\n<< /Size 2 /Root 1 0 R >>\nstartxref\n{}\n%%EOF\n",
        o1, x
    ));
    let mut an = pdx::analyzer::PdfAnalyzer::load(text.into_bytes(), Config::default()).unwrap();
    let a = an.analyze().unwrap();
    cache.complete(&key, a);
    assert_eq!(cache.begin(&key), CacheDecision::Reuse);
    assert!(cache.get_ready(&key).is_some());
    // A different fingerprint is independent.
    let other = "fingerprint-b".to_string();
    assert_eq!(cache.begin(&other), CacheDecision::Compute);
}

#[test]
fn id_strings_are_decimal() {
    assert_eq!(
        id_string(ObjectId {
            number: 12,
            generation: 3
        }),
        "12 3"
    );
    assert_eq!(
        id_string(ObjectId {
            number: 0,
            generation: 0
        }),
        "0 0"
    );
    assert_eq!(ascii_string(b"abc"), "abc");
}

#[test]
fn error_labels_name_variants() {
    assert_eq!(Error::Pdf("x".to_string()).label(), "PDF error");
    assert_eq!(Error::Io("x".to_string()).label(), "IO error");
}

#[test]
fn default_config_is_sound() {
    let c = Config::default();
    assert_eq!(c.analysis_depth, 2);
    assert!(c.thread_count >= 1);
}
