use rxing::common::string_utils::{Charset, StringUtils};

fn guess(bytes: &[u8]) -> String {
    StringUtils::guessEncoding(&bytes.to_vec(), None).expect("a guess is always made")
}

#[test]
fn plain_text_is_latin() {
    assert_eq!(guess(b"abc"), "ISO8859_1");
    assert_eq!(guess(&[0x64, 0xE9]), "ISO8859_1");
    assert_eq!(StringUtils::guessCharset(&b"abc".to_vec(), None), Some(Charset::Iso88591));
    assert_eq!(StringUtils::guessFromBytes(&b"abc".to_vec()).name(), "iso-8859-1");
}

#[test]
fn no_text_is_taken_for_shift_jis() {
    assert_eq!(guess(&[]), "SJIS");
}

#[test]
fn characters_of_several_bytes_are_utf8() {
    assert_eq!(guess("é".as_bytes()), "UTF8");
    assert_eq!(guess("\u{11D4}\u{1185}\u{11c2}".as_bytes()), "UTF8");
    assert_eq!(guess("a\u{1F600}b".as_bytes()), "UTF8");
    // a character that is cut off is not UTF-8
    assert_eq!(guess(&[0x64, 0xC3]), "ISO8859_1");
}

#[test]
fn byte_order_marks() {
    assert_eq!(guess(&[0xEF, 0xBB, 0xBF, 0x41]), "UTF8");
    assert_eq!(guess(&[0xFE, 0xFF, 0x00, 0x41]), "utf-16be");
    assert_eq!(guess(&[0xFF, 0xFE, 0x41, 0x00]), "utf-16be");
    assert_eq!(
        StringUtils::guessCharset(&vec![0xFF, 0xFE, 0x41, 0x00], None),
        Some(Charset::Utf16Be)
    );
    // two bytes are too few for a mark
    assert_eq!(guess(&[0xFE, 0xFF]), "ISO8859_1");
}

#[test]
fn double_byte_characters_are_shift_jis() {
    assert_eq!(guess(&[0x93, 0xFA, 0x96, 0x7B, 0x8C, 0xEA]), "SJIS");
    // three katakana in a row
    assert_eq!(guess(&[0xB1, 0xB2, 0xB3]), "SJIS");
    // just two katakana, in a row
    assert_eq!(guess(&[0x41, 0xB1, 0xB2, 0x41, 0x41, 0x41, 0x41, 0x41, 0x41, 0x41, 0x41, 0x41, 0x41,
        0x41, 0x41, 0x41, 0x41, 0x41, 0x41, 0x41, 0x41, 0x41]), "SJIS");
    // one double-byte character among many letters
    assert_eq!(guess(&[0x41, 0xE1, 0x41, 0x41, 0x41, 0x41, 0x41, 0x41, 0x41, 0x41, 0x41, 0x41, 0x41,
        0x41, 0x41, 0x41, 0x41, 0x41, 0x41, 0x41, 0x41, 0x41]), "ISO8859_1");
    // a tenth of the bytes are high bytes that are no letters
    assert_eq!(guess(&[0x41, 0xA1, 0x41, 0x41, 0x41, 0x41, 0x41, 0x41, 0x41, 0x41]), "SJIS");
    assert_eq!(guess(&[0x41, 0xA1, 0x41, 0x41, 0x41, 0x41, 0x41, 0x41, 0x41, 0x41, 0x41]), "ISO8859_1");
}

#[test]
fn bytes_that_fit_nothing_are_taken_for_utf8() {
    // 0x80 is neither Latin nor Shift JIS nor the start of a character of UTF-8
    assert_eq!(guess(&[0x80, 0x41, 0x41]), "UTF8");
}

#[test]
fn a_label_is_looked_up() {
    let bytes = b"abc".to_vec();
    assert_eq!(StringUtils::guessEncoding(&bytes, Some("SJIS")), Some("SJIS".to_string()));
    assert_eq!(StringUtils::guessEncoding(&bytes, Some("Shift_JIS")), Some("SJIS".to_string()));
    assert_eq!(StringUtils::guessEncoding(&bytes, Some("utf8")), Some("UTF8".to_string()));
    assert_eq!(StringUtils::guessEncoding(&bytes, Some(" UTF-8\n")), Some("UTF8".to_string()));
    assert_eq!(
        StringUtils::guessEncoding(&bytes, Some("latin1")),
        Some("windows-1252".to_string())
    );
    assert_eq!(StringUtils::guessEncoding(&bytes, Some("EUC-JP")), Some("euc-jp".to_string()));
    assert_eq!(StringUtils::guessEncoding(&bytes, Some("utf-16be")), Some("utf-16be".to_string()));
    assert_eq!(StringUtils::guessCharset(&bytes, Some("sjis")), Some(Charset::ShiftJis));
    assert_eq!(
        StringUtils::guessCharset(&bytes, Some("gb2312")),
        Some(Charset::Other("gbk".to_string()))
    );
}

#[test]
fn a_label_that_stands_for_nothing() {
    let bytes = b"abc".to_vec();
    assert_eq!(StringUtils::guessEncoding(&bytes, Some("no such encoding")), None);
    assert_eq!(StringUtils::guessEncoding(&bytes, Some("")), None);
    assert_eq!(StringUtils::guessCharset(&bytes, Some("EUC_JP")), None);
}

#[test]
fn encodings_by_name() {
    assert_eq!(Charset::withName("utf-8".to_string()), Charset::Utf8);
    assert_eq!(Charset::withName("windows-31j".to_string()), Charset::ShiftJis);
    assert_eq!(Charset::withName("iso-8859-1".to_string()), Charset::Iso88591);
    assert_eq!(Charset::withName("utf-16be".to_string()), Charset::Utf16Be);
    assert_eq!(Charset::withName("koi8-r".to_string()), Charset::Other("koi8-r".to_string()));
    assert_eq!(Charset::Other("koi8-r".to_string()).name(), "koi8-r");
    assert_eq!(StringUtils::encodingName(&Charset::ShiftJis), "SJIS");
    assert_eq!(StringUtils::encodingName(&Charset::Utf8), "UTF8");
    assert_eq!(StringUtils::encodingName(&Charset::Iso88591), "ISO8859_1");
    assert_eq!(StringUtils::encodingName(&Charset::Utf16Be), "utf-16be");
    assert_eq!(StringUtils::encodingName(&Charset::Other("koi8-r".to_string())), "koi8-r");
}
