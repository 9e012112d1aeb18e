use rxing::barcode_format::BarcodeFormat;
use rxing::common::bit_array::BitArray;
use rxing::oned::rss::data_character::DataCharacter;
use rxing::oned::rss::expanded::bit_array_builder::buildBitArray;
use rxing::oned::rss::expanded::expanded_pair::ExpandedPair;
use rxing::oned::rss::expanded::rss_expanded_reader::RSSExpandedReader;
use rxing::oned::rss::finder_pattern::FinderPattern;
use rxing::qrcode::qr_reader::QrReader;
use rxing::result_point::RXingResultPoint;

const MODULE: usize = 4;

const SYMBOL: [usize; 67] = [
    10, 1, 1, 1, 3, 1, 1, 4, 5, 1, 1, 8, 4, 1, 1, 4, 1, 4, 2, 2, 1, 1, 2, 2, 5, 2, 1, 1, 1, 1, 4,
    1, 1, 4, 6, 3, 1, 2, 6, 2, 1, 1, 3, 1, 1, 2, 2, 1, 4, 2, 1, 4, 3, 6, 4, 1, 1, 4, 3, 1, 4, 1,
    1, 1, 2, 1, 11,
];

fn symbol_row() -> BitArray {
    let mut row = BitArray::new();
    let mut colour = false;
    for width in SYMBOL.iter() {
        for _ in 0..(*width * MODULE) {
            row.appendBit(colour);
        }
        colour = !colour;
    }
    row
}

fn pair(left: i32, right: Option<i32>, start: usize, end: usize, row: u32) -> ExpandedPair {
    ExpandedPair::new(
        Some(DataCharacter::new(left, 0)),
        right.map(|v| DataCharacter::new(v, 0)),
        FinderPattern::new(0, start, end, row),
    )
}

fn twelve_bits(value: u32) -> Vec<bool> {
    (0..12).map(|t| (value >> (11 - t)) & 1 == 1).collect()
}

fn bits_of(array: &BitArray) -> Vec<bool> {
    (0..array.getSize()).map(|i| array.get(i)).collect()
}

#[test]
fn bits_of_the_characters_of_a_symbol() {
    let pairs = vec![
        pair(77, Some(0x801), 0, 0, 0),
        pair(0xABC, Some(4095), 0, 0, 0),
        pair(1, None, 0, 0, 0),
    ];
    let binary = buildBitArray(&pairs);
    let mut expected = twelve_bits(0x801);
    expected.extend(twelve_bits(0xABC));
    expected.extend(twelve_bits(4095));
    expected.extend(twelve_bits(1));
    assert_eq!(binary.getSize(), 48);
    assert_eq!(bits_of(&binary), expected);
    assert_eq!(buildBitArray(&Vec::new()).getSize(), 0);
    assert_eq!(buildBitArray(&vec![pair(5, None, 0, 0, 0)]).getSize(), 0);
}

#[test]
fn a_symbol_from_bars_to_bits() {
    let mut reader = RSSExpandedReader::new();
    let pairs = reader.decodeRowPairs(5, &symbol_row(), false).expect("the row holds a symbol");
    let binary = buildBitArray(&pairs);
    let mut expected = Vec::new();
    for value in [3682u32, 3868, 3109, 1719, 768] {
        expected.extend(twelve_bits(value));
    }
    assert_eq!(bits_of(&binary), expected);
    assert_eq!(RSSExpandedReader::symbologyIdentifier(), "]e0");
    assert_eq!(
        RSSExpandedReader::resultPoints(&pairs),
        vec![
            RXingResultPoint::new(112, 5),
            RXingResultPoint::new(172, 5),
            RXingResultPoint::new(504, 5),
            RXingResultPoint::new(564, 5)
        ]
    );
}

#[test]
fn points_of_a_symbol() {
    let pairs = vec![pair(1, Some(2), 10, 20, 3), pair(3, Some(4), 30, 45, 4)];
    assert_eq!(
        RSSExpandedReader::resultPoints(&pairs),
        vec![
            RXingResultPoint::new(10, 3),
            RXingResultPoint::new(20, 3),
            RXingResultPoint::new(30, 4),
            RXingResultPoint::new(45, 4)
        ]
    );
    let one = vec![pair(1, None, 10, 20, 3)];
    assert_eq!(RSSExpandedReader::resultPoints(&one).len(), 4);
    assert_eq!(
        one[0].getFinderPattern().getRXingResultPoints(),
        [RXingResultPoint::new(10, 3), RXingResultPoint::new(20, 3)]
    );
}

#[test]
fn kinds_of_qr_codes() {
    assert_eq!(QrReader::formatOfWidth(20), BarcodeFormat::MICRO_QR_CODE);
    assert_eq!(QrReader::formatOfWidth(11), BarcodeFormat::MICRO_QR_CODE);
    assert_eq!(QrReader::formatOfWidth(21), BarcodeFormat::QR_CODE);
    assert_eq!(QrReader::formatOfWidth(177), BarcodeFormat::QR_CODE);
    assert_eq!(QrReader::formatsToCheck(None), (true, true));
    assert_eq!(QrReader::formatsToCheck(Some(&Vec::new())), (false, false));
    assert_eq!(QrReader::formatsToCheck(Some(&vec![BarcodeFormat::QR_CODE])), (true, false));
    assert_eq!(
        QrReader::formatsToCheck(Some(&vec![
            BarcodeFormat::RSS_EXPANDED,
            BarcodeFormat::MICRO_QR_CODE
        ])),
        (false, true)
    );
    assert!(QrReader::holdsFormat(&vec![BarcodeFormat::RSS_EXPANDED], BarcodeFormat::RSS_EXPANDED));
    assert!(!QrReader::isComplete(0, 0));
    assert!(!QrReader::isComplete(5, 0));
    assert!(QrReader::isComplete(1, 1));
    assert!(!QrReader::isComplete(1, 2));
    assert!(QrReader::isComplete(2, 2));
    assert!(!QrReader::isComplete(0, u32::MAX));
}
