// A text goes through the bit structures and comes back: its bytes are
// appended to a bit array with `appendBits`, laid into a square matrix with
// `set`, made larger with `setRegion`, turned there and back with `rotate`,
// and read back through `get` and `toBytes`.

use rxing::common::bit_array::BitArray;
use rxing::common::bit_matrix::BitMatrix;

#[test]
fn test_simple() {
    test_encode_decode("value");
}

#[test]
fn test_uri() {
    test_encode_decode("https://google.com");
}

#[test]
fn test_unicode() {
    test_encode_decode("\u{11D4}\u{1185}\u{11c2}");
}

// Lays the bits of the text into a square matrix, one row after the other.
fn encode(value: &str) -> BitMatrix {
    let mut bits = BitArray::new();
    for byte in value.bytes() {
        bits.appendBits(byte as u32, 8).expect("must append");
    }
    let mut dimension = 1u32;
    while ((dimension * dimension) as usize) < bits.getSize() {
        dimension += 1;
    }
    let mut matrix = BitMatrix::with_single_dimension(dimension).expect("must build");
    for i in 0..bits.getSize() {
        if bits.get(i) {
            matrix.set(i as u32 % dimension, i as u32 / dimension);
        }
    }
    matrix
}

// Reads the bytes of a text of the given length from the cells of a matrix
// that was made larger by the given factor.
fn decode(matrix: &BitMatrix, factor: u32, length: usize) -> String {
    let dimension = matrix.getWidth() / factor;
    let mut bits = BitArray::new();
    for i in 0..(length * 8) as u32 {
        bits.appendBit(matrix.get((i % dimension) * factor, (i / dimension) * factor));
    }
    let mut bytes = vec![0u8; length];
    bits.toBytes(0, &mut bytes, 0, length);
    String::from_utf8(bytes).expect("must decode")
}

fn test_encode_decode(value: &str) {
    for zoom in 0..4 {
        let factor = zoom + 1;
        let matrix = encode(value);
        let larger = make_larger(&matrix, factor);
        assert_eq!(larger.getWidth(), matrix.getWidth() * factor);
        let mut turned = larger.clone();
        turned.rotate(90 * zoom).expect("must rotate");
        turned.rotate(360 - 90 * zoom).expect("must rotate");
        assert_eq!(turned, larger);
        let decoded = decode(&turned, factor, value.len());
        assert_eq!(decoded, value);
    }
}

// Zooms a bit matrix so that each bit is factor x factor
fn make_larger(input: &BitMatrix, factor: u32) -> BitMatrix {
    let width = input.getWidth();
    let mut output = BitMatrix::with_single_dimension(width * factor).expect("must build");
    for inputY in 0..width {
        for inputX in 0..width {
            if input.get(inputX, inputY) {
                output
                    .setRegion(inputX * factor, inputY * factor, factor, factor)
                    .expect("region set should be ok");
            }
        }
    }
    return output;
}
