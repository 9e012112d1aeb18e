//! The guess of the character encoding of bytes that stand for text.

use vstd::prelude::*;

verus! {

/// The canonical name of the encoding that a label of the WHATWG Encoding
/// standard stands for; nothing where the label stands for none.
pub uninterp spec fn whatwg_encoding(label: Seq<char>) -> Option<Seq<char>>;

/// Looks a label up with `encoding::label::encoding_from_whatwg_label` and
/// gives the canonical name of the encoding that was found, as
/// `encoding::Encoding::name` tells it. The lookup is a fixed table of
/// labels, read without regard to case and to white space around the label.
#[verifier::external_body]
fn encodingNameFromLabel(label: &str) -> (r: Option<String>)
    ensures
        r is Some <==> whatwg_encoding(label@) is Some,
        r is Some ==> r->Some_0@ == whatwg_encoding(label@)->Some_0,
{
    match encoding::label::encoding_from_whatwg_label(label) {
        Some(found) => Some(found.name().to_string()),
        None => None,
    }
}

/// A character encoding.
#[derive(Debug, Clone, PartialEq, Eq)]
pub enum Charset {
    /// UTF-8.
    Utf8,
    /// UTF-16, most significant byte first.
    Utf16Be,
    /// ISO 8859-1, Latin 1.
    Iso88591,
    /// Shift JIS, in the form of Windows code page 932.
    ShiftJis,
    /// Another encoding, by its canonical name.
    Other(String),
}

/// The canonical name of UTF-8.
pub open spec fn utf8_name() -> Seq<char> {
    "utf-8"@
}

/// The canonical name of UTF-16, most significant byte first.
pub open spec fn utf16_name() -> Seq<char> {
    "utf-16be"@
}

/// The canonical name of ISO 8859-1.
pub open spec fn iso_name() -> Seq<char> {
    "iso-8859-1"@
}

/// The canonical name of Shift JIS.
pub open spec fn sjis_name() -> Seq<char> {
    "windows-31j"@
}

impl View for Charset {
    type V = Seq<char>;

    /// An encoding is known by its canonical name.
    open spec fn view(&self) -> Seq<char> {
        match self {
            Charset::Utf8 => utf8_name(),
            Charset::Utf16Be => utf16_name(),
            Charset::Iso88591 => iso_name(),
            Charset::ShiftJis => sjis_name(),
            Charset::Other(name) => name@,
        }
    }
}

impl Charset {
    /// An encoding that has a variant of its own is that variant.
    pub open spec fn wf(&self) -> bool {
        match self {
            Charset::Other(name) => name@ != utf8_name() && name@ != utf16_name() && name@
                != iso_name() && name@ != sjis_name(),
            _ => true,
        }
    }

    /// The encoding with the canonical name `name`.
    pub fn withName(name: String) -> (r: Self)
        ensures
            r@ == name@,
            r.wf(),
    {
        proof {
            reveal_strlit("utf-8");
            reveal_strlit("utf-16be");
            reveal_strlit("iso-8859-1");
            reveal_strlit("windows-31j");
            assert(utf8_name().len() == 5);
            assert(utf16_name().len() == 8);
            assert(iso_name().len() == 10);
            assert(sjis_name().len() == 11);
        }
        if name == "utf-8".to_owned() {
            Charset::Utf8
        } else if name == "utf-16be".to_owned() {
            Charset::Utf16Be
        } else if name == "iso-8859-1".to_owned() {
            Charset::Iso88591
        } else if name == "windows-31j".to_owned() {
            Charset::ShiftJis
        } else {
            Charset::Other(name)
        }
    }

    /// The canonical name of the encoding.
    pub fn name(&self) -> (r: String)
        ensures
            r@ == self@,
    {
        match self {
            Charset::Utf8 => "utf-8".to_owned(),
            Charset::Utf16Be => "utf-16be".to_owned(),
            Charset::Iso88591 => "iso-8859-1".to_owned(),
            Charset::ShiftJis => "windows-31j".to_owned(),
            Charset::Other(name) => name.clone(),
        }
    }
}

/// What bytes tell of their encoding: which of three encodings they can
/// still be, and what was counted for each.
#[derive(Debug, Clone, Copy)]
pub struct Evidence {
    pub can_be_iso88591: bool,
    pub can_be_shift_jis: bool,
    pub can_be_utf8: bool,
    pub utf8_bytes_left: usize,
    pub utf2_bytes_chars: usize,
    pub utf3_bytes_chars: usize,
    pub utf4_bytes_chars: usize,
    pub sjis_bytes_left: usize,
    pub sjis_katakana_chars: usize,
    pub sjis_cur_katakana_word_length: usize,
    pub sjis_cur_double_bytes_word_length: usize,
    pub sjis_max_katakana_word_length: usize,
    pub sjis_max_double_bytes_word_length: usize,
    pub iso_high_other: usize,
}

/// What is known before the first byte.
pub open spec fn no_evidence() -> Evidence {
    Evidence {
        can_be_iso88591: true,
        can_be_shift_jis: true,
        can_be_utf8: true,
        utf8_bytes_left: 0,
        utf2_bytes_chars: 0,
        utf3_bytes_chars: 0,
        utf4_bytes_chars: 0,
        sjis_bytes_left: 0,
        sjis_katakana_chars: 0,
        sjis_cur_katakana_word_length: 0,
        sjis_cur_double_bytes_word_length: 0,
        sjis_max_katakana_word_length: 0,
        sjis_max_double_bytes_word_length: 0,
        iso_high_other: 0,
    }
}

/// What one more byte tells of UTF-8: a lead byte announces one to three
/// bytes that have to follow, and each of those has to be a continuation
/// byte.
pub open spec fn utf8_step(e: Evidence, value: u8) -> Evidence {
    if !e.can_be_utf8 {
        e
    } else if e.utf8_bytes_left > 0 {
        if value < 0x80 {
            Evidence { can_be_utf8: false, ..e }
        } else {
            Evidence { utf8_bytes_left: (e.utf8_bytes_left - 1) as usize, ..e }
        }
    } else if value < 0x80 {
        e
    } else if value < 0xC0 {
        Evidence { can_be_utf8: false, ..e }
    } else if value < 0xE0 {
        Evidence {
            utf8_bytes_left: 1,
            utf2_bytes_chars: (e.utf2_bytes_chars + 1) as usize,
            ..e
        }
    } else if value < 0xF0 {
        Evidence {
            utf8_bytes_left: 2,
            utf3_bytes_chars: (e.utf3_bytes_chars + 1) as usize,
            ..e
        }
    } else if value < 0xF8 {
        Evidence {
            utf8_bytes_left: 3,
            utf4_bytes_chars: (e.utf4_bytes_chars + 1) as usize,
            ..e
        }
    } else {
        Evidence { utf8_bytes_left: 3, can_be_utf8: false, ..e }
    }
}

/// What one more byte tells of ISO 8859-1: the bytes from 0x80 to 0x9F do
/// not occur, and the high bytes that are no letters are counted.
pub open spec fn iso_step(e: Evidence, value: u8) -> Evidence {
    if !e.can_be_iso88591 {
        e
    } else if value > 0x7F && value < 0xA0 {
        Evidence { can_be_iso88591: false, ..e }
    } else if value > 0x9F && (value < 0xC0 || value == 0xD7 || value == 0xF7) {
        Evidence { iso_high_other: (e.iso_high_other + 1) as usize, ..e }
    } else {
        e
    }
}

/// What one more byte tells of Shift JIS: runs of katakana and runs of
/// double-byte characters are measured.
pub open spec fn sjis_step(e: Evidence, value: u8) -> Evidence {
    if !e.can_be_shift_jis {
        e
    } else if e.sjis_bytes_left > 0 {
        if value < 0x40 || value == 0x7F || value > 0xFC {
            Evidence { can_be_shift_jis: false, ..e }
        } else {
            Evidence { sjis_bytes_left: (e.sjis_bytes_left - 1) as usize, ..e }
        }
    } else if value == 0x80 || value == 0xA0 || value > 0xEF {
        Evidence { can_be_shift_jis: false, ..e }
    } else if value > 0xA0 && value < 0xE0 {
        let run = (e.sjis_cur_katakana_word_length + 1) as usize;
        Evidence {
            sjis_katakana_chars: (e.sjis_katakana_chars + 1) as usize,
            sjis_cur_double_bytes_word_length: 0,
            sjis_cur_katakana_word_length: run,
            sjis_max_katakana_word_length: if run > e.sjis_max_katakana_word_length {
                run
            } else {
                e.sjis_max_katakana_word_length
            },
            ..e
        }
    } else if value > 0x7F {
        let run = (e.sjis_cur_double_bytes_word_length + 1) as usize;
        Evidence {
            sjis_bytes_left: (e.sjis_bytes_left + 1) as usize,
            sjis_cur_katakana_word_length: 0,
            sjis_cur_double_bytes_word_length: run,
            sjis_max_double_bytes_word_length: if run > e.sjis_max_double_bytes_word_length {
                run
            } else {
                e.sjis_max_double_bytes_word_length
            },
            ..e
        }
    } else {
        Evidence {
            sjis_cur_katakana_word_length: 0,
            sjis_cur_double_bytes_word_length: 0,
            ..e
        }
    }
}

/// What the first `n` bytes tell. Once the bytes can be none of the three
/// encodings, further bytes tell nothing more.
pub open spec fn evidence_of(bytes: Seq<u8>, n: nat) -> Evidence
    decreases n,
{
    if n == 0 {
        no_evidence()
    } else {
        let e = evidence_of(bytes, (n - 1) as nat);
        if e.can_be_iso88591 || e.can_be_shift_jis || e.can_be_utf8 {
            sjis_step(iso_step(utf8_step(e, bytes[n - 1]), bytes[n - 1]), bytes[n - 1])
        } else {
            e
        }
    }
}

/// The bytes start with a byte order mark of UTF-16.
pub open spec fn has_utf16_mark(bytes: Seq<u8>) -> bool {
    bytes.len() > 2 && ((bytes[0] == 0xFE && bytes[1] == 0xFF) || (bytes[0] == 0xFF && bytes[1]
        == 0xFE))
}

/// The bytes start with the byte order mark of UTF-8.
pub open spec fn has_utf8_mark(bytes: Seq<u8>) -> bool {
    bytes.len() > 3 && bytes[0] == 0xEF && bytes[1] == 0xBB && bytes[2] == 0xBF
}

/// The canonical name of the encoding that the bytes are taken to be in.
/// Bytes with a byte order mark of UTF-16 are UTF-16. Otherwise the bytes
/// are UTF-8 where they can be and have a mark or a character of several
/// bytes; Shift JIS where they can be and hold three katakana or three
/// double-byte characters in a row; of Shift JIS and ISO 8859-1, where they
/// can be both, Shift JIS where they hold just two katakana, in a row, or
/// where a tenth of them are high bytes that are no letters in ISO 8859-1;
/// and otherwise the first that they can be of ISO 8859-1, Shift JIS and
/// UTF-8, and UTF-8 where they can be none.
pub open spec fn guessed(bytes: Seq<u8>) -> Seq<char> {
    let e = evidence_of(bytes, bytes.len());
    let can_be_utf8 = e.can_be_utf8 && e.utf8_bytes_left == 0;
    let can_be_shift_jis = e.can_be_shift_jis && e.sjis_bytes_left == 0;
    if has_utf16_mark(bytes) {
        utf16_name()
    } else if can_be_utf8 && (has_utf8_mark(bytes) || e.utf2_bytes_chars + e.utf3_bytes_chars
        + e.utf4_bytes_chars > 0) {
        utf8_name()
    } else if can_be_shift_jis && (e.sjis_max_katakana_word_length >= 3
        || e.sjis_max_double_bytes_word_length >= 3) {
        sjis_name()
    } else if e.can_be_iso88591 && can_be_shift_jis {
        if (e.sjis_max_katakana_word_length == 2 && e.sjis_katakana_chars == 2) || e.iso_high_other
            * 10 >= bytes.len() {
            sjis_name()
        } else {
            iso_name()
        }
    } else if e.can_be_iso88591 {
        iso_name()
    } else if can_be_shift_jis {
        sjis_name()
    } else {
        utf8_name()
    }
}

/// The canonical name of the encoding of bytes for which a label may be
/// given as a hint: the encoding that the label stands for, or the guess
/// where there is no label. There is none where the label stands for no
/// encoding.
pub open spec fn charset_name(bytes: Seq<u8>, hint: Option<Seq<char>>) -> Option<Seq<char>> {
    match hint {
        Some(label) => whatwg_encoding(label),
        None => Some(guessed(bytes)),
    }
}

/// The name by which an encoding goes here: three encodings have names of
/// their own, the others go by their canonical names.
pub open spec fn encoding_name(name: Seq<char>) -> Seq<char> {
    if name == sjis_name() {
        "SJIS"@
    } else if name == utf8_name() {
        "UTF8"@
    } else if name == iso_name() {
        "ISO8859_1"@
    } else {
        name
    }
}

/// Text-related functions.
pub struct StringUtils {}

impl StringUtils {
    /// The name of the encoding that the bytes are taken to be in: `SJIS`,
    /// `UTF8`, `ISO8859_1`, or the canonical name of another encoding.
    /// `hint` is a label of the encoding, where one is known. There is no
    /// name where the label stands for no encoding.
    pub fn guessEncoding(bytes: &Vec<u8>, hint: Option<&str>) -> (r: Option<String>)
        ensures
            r is Some <==> charset_name(
                bytes@,
                match hint {
                    Some(label) => Some(label@),
                    None => None,
                },
            ) is Some,
            r is Some ==> r->Some_0@ == encoding_name(
                charset_name(
                    bytes@,
                    match hint {
                        Some(label) => Some(label@),
                        None => None,
                    },
                )->Some_0,
            ),
    {
        match StringUtils::guessCharset(bytes, hint) {
            Some(c) => Some(StringUtils::encodingName(&c)),
            None => None,
        }
    }

    /// The name by which an encoding goes here.
    pub fn encodingName(c: &Charset) -> (r: String)
        requires
            c.wf(),
        ensures
            r@ == encoding_name(c@),
    {
        proof {
            reveal_strlit("utf-8");
            reveal_strlit("utf-16be");
            reveal_strlit("iso-8859-1");
            reveal_strlit("windows-31j");
            assert(utf8_name().len() == 5);
            assert(utf16_name().len() == 8);
            assert(iso_name().len() == 10);
            assert(sjis_name().len() == 11);
        }
        match c {
            Charset::ShiftJis => "SJIS".to_owned(),
            Charset::Utf8 => "UTF8".to_owned(),
            Charset::Iso88591 => "ISO8859_1".to_owned(),
            Charset::Utf16Be => c.name(),
            Charset::Other(_) => c.name(),
        }
    }

    /// The encoding that the bytes are taken to be in. `hint` is a label of
    /// the encoding, where one is known. There is no encoding where the
    /// label stands for none.
    pub fn guessCharset(bytes: &Vec<u8>, hint: Option<&str>) -> (r: Option<Charset>)
        ensures
            r is Some <==> charset_name(
                bytes@,
                match hint {
                    Some(label) => Some(label@),
                    None => None,
                },
            ) is Some,
            r is Some ==> r->Some_0.wf() && r->Some_0@ == charset_name(
                bytes@,
                match hint {
                    Some(label) => Some(label@),
                    None => None,
                },
            )->Some_0,
    {
        match hint {
            Some(label) => match encodingNameFromLabel(label) {
                Some(name) => Some(Charset::withName(name)),
                None => None,
            },
            None => Some(StringUtils::guessFromBytes(bytes)),
        }
    }

    /// The encoding that the bytes are taken to be in, by the bytes alone.
    pub fn guessFromBytes(bytes: &Vec<u8>) -> (r: Charset)
        ensures
            r.wf(),
            r@ == guessed(bytes@),
    {
        // First try UTF-16: anything with its mark is taken to be UTF-16
        if bytes.len() > 2 && ((bytes[0] == 0xFE && bytes[1] == 0xFF) || (bytes[0] == 0xFF
            && bytes[1] == 0xFE)) {
            return Charset::Utf16Be;
        }
        // For now, this merely tells ISO-8859-1, UTF-8 and Shift_JIS apart,
        // which should be by far the most common encodings.
        let length: usize = bytes.len();
        let e: Evidence = StringUtils::gatherEvidence(bytes);
        let canBeUTF8: bool = e.can_be_utf8 && e.utf8_bytes_left == 0;
        let canBeShiftJIS: bool = e.can_be_shift_jis && e.sjis_bytes_left == 0;
        let utf8bom: bool = bytes.len() > 3 && bytes[0] == 0xEF && bytes[1] == 0xBB && bytes[2]
            == 0xBF;
        // Easy: a mark or a character of several bytes, and nothing against UTF-8
        if canBeUTF8 && (utf8bom || e.utf2_bytes_chars as u128 + e.utf3_bytes_chars as u128
            + e.utf4_bytes_chars as u128 > 0) {
            return Charset::Utf8;
        }
        // Easy: three characters in a row that are not ASCII, and nothing
        // against Shift_JIS
        if canBeShiftJIS && (e.sjis_max_katakana_word_length >= 3
            || e.sjis_max_double_bytes_word_length >= 3) {
            return Charset::ShiftJis;
        }
        // To tell Shift_JIS from ISO-8859-1 can be hard for short words.
        // Only two katakana in a row in the whole text, or a tenth of the
        // bytes high and no letters in Latin 1: Shift_JIS, else ISO-8859-1.
        if e.can_be_iso88591 && canBeShiftJIS {
            return if (e.sjis_max_katakana_word_length == 2 && e.sjis_katakana_chars == 2) || (
            e.iso_high_other as u128) * 10 >= length as u128 {
                Charset::ShiftJis
            } else {
                Charset::Iso88591
            };
        }
        // Otherwise, try ISO-8859-1, Shift JIS and UTF-8 in this order
        if e.can_be_iso88591 {
            return Charset::Iso88591;
        }
        if canBeShiftJIS {
            return Charset::ShiftJis;
        }
        // UTF-8 is also the guess where all else fails
        Charset::Utf8
    }

    /// What the bytes tell of their encoding.
    fn gatherEvidence(bytes: &Vec<u8>) -> (e: Evidence)
        ensures
            e == evidence_of(bytes@, bytes@.len()),
    {
        let length: usize = bytes.len();
        let mut e = Evidence {
            can_be_iso88591: true,
            can_be_shift_jis: true,
            can_be_utf8: true,
            utf8_bytes_left: 0,
            utf2_bytes_chars: 0,
            utf3_bytes_chars: 0,
            utf4_bytes_chars: 0,
            sjis_bytes_left: 0,
            sjis_katakana_chars: 0,
            sjis_cur_katakana_word_length: 0,
            sjis_cur_double_bytes_word_length: 0,
            sjis_max_katakana_word_length: 0,
            sjis_max_double_bytes_word_length: 0,
            iso_high_other: 0,
        };
        let mut i: usize = 0;
        while i < length
            invariant
                length == bytes@.len(),
                i <= length,
                e == evidence_of(bytes@, i as nat),
                e.utf8_bytes_left <= 3,
                e.sjis_bytes_left <= 1,
                e.utf2_bytes_chars <= i,
                e.utf3_bytes_chars <= i,
                e.utf4_bytes_chars <= i,
                e.sjis_katakana_chars <= i,
                e.sjis_cur_katakana_word_length <= i,
                e.sjis_cur_double_bytes_word_length <= i,
                e.sjis_max_katakana_word_length <= i,
                e.sjis_max_double_bytes_word_length <= i,
                e.iso_high_other <= i,
            decreases length - i,
        {
            if e.can_be_iso88591 || e.can_be_shift_jis || e.can_be_utf8 {
                let value: u8 = bytes[i];
                e = StringUtils::utf8Step(e, value);
                e = StringUtils::isoStep(e, value);
                e = StringUtils::sjisStep(e, value);
            }
            i += 1;
        }
        e
    }

    fn utf8Step(e: Evidence, value: u8) -> (r: Evidence)
        requires
            e.utf8_bytes_left <= 3,
            e.utf2_bytes_chars < usize::MAX,
            e.utf3_bytes_chars < usize::MAX,
            e.utf4_bytes_chars < usize::MAX,
        ensures
            r == utf8_step(e, value),
            r.utf8_bytes_left <= 3,
    {
        let mut r = e;
        if r.can_be_utf8 {
            if r.utf8_bytes_left > 0 {
                if value < 0x80 {
                    r.can_be_utf8 = false;
                } else {
                    r.utf8_bytes_left = r.utf8_bytes_left - 1;
                }
            } else if value >= 0x80 {
                if value < 0xC0 {
                    r.can_be_utf8 = false;
                } else {
                    r.utf8_bytes_left = 1;
                    if value < 0xE0 {
                        r.utf2_bytes_chars = r.utf2_bytes_chars + 1;
                    } else {
                        r.utf8_bytes_left = 2;
                        if value < 0xF0 {
                            r.utf3_bytes_chars = r.utf3_bytes_chars + 1;
                        } else {
                            r.utf8_bytes_left = 3;
                            if value < 0xF8 {
                                r.utf4_bytes_chars = r.utf4_bytes_chars + 1;
                            } else {
                                r.can_be_utf8 = false;
                            }
                        }
                    }
                }
            }
        }
        r
    }

    fn isoStep(e: Evidence, value: u8) -> (r: Evidence)
        requires
            e.iso_high_other < usize::MAX,
        ensures
            r == iso_step(e, value),
    {
        let mut r = e;
        if r.can_be_iso88591 {
            if value > 0x7F && value < 0xA0 {
                r.can_be_iso88591 = false;
            } else if value > 0x9F && (value < 0xC0 || value == 0xD7 || value == 0xF7) {
                r.iso_high_other = r.iso_high_other + 1;
            }
        }
        r
    }

    fn sjisStep(e: Evidence, value: u8) -> (r: Evidence)
        requires
            e.sjis_bytes_left <= 1,
            e.sjis_katakana_chars < usize::MAX,
            e.sjis_cur_katakana_word_length < usize::MAX,
            e.sjis_cur_double_bytes_word_length < usize::MAX,
        ensures
            r == sjis_step(e, value),
            r.sjis_bytes_left <= 1,
    {
        let mut r = e;
        if r.can_be_shift_jis {
            if r.sjis_bytes_left > 0 {
                if value < 0x40 || value == 0x7F || value > 0xFC {
                    r.can_be_shift_jis = false;
                } else {
                    r.sjis_bytes_left = r.sjis_bytes_left - 1;
                }
            } else if value == 0x80 || value == 0xA0 || value > 0xEF {
                r.can_be_shift_jis = false;
            } else if value > 0xA0 && value < 0xE0 {
                r.sjis_katakana_chars = r.sjis_katakana_chars + 1;
                r.sjis_cur_double_bytes_word_length = 0;
                r.sjis_cur_katakana_word_length = r.sjis_cur_katakana_word_length + 1;
                if r.sjis_cur_katakana_word_length > r.sjis_max_katakana_word_length {
                    r.sjis_max_katakana_word_length = r.sjis_cur_katakana_word_length;
                }
            } else if value > 0x7F {
                r.sjis_bytes_left = r.sjis_bytes_left + 1;
                r.sjis_cur_katakana_word_length = 0;
                r.sjis_cur_double_bytes_word_length = r.sjis_cur_double_bytes_word_length + 1;
                if r.sjis_cur_double_bytes_word_length > r.sjis_max_double_bytes_word_length {
                    r.sjis_max_double_bytes_word_length = r.sjis_cur_double_bytes_word_length;
                }
            } else {
                r.sjis_cur_katakana_word_length = 0;
                r.sjis_cur_double_bytes_word_length = 0;
            }
        }
        r
    }
}

} // verus!
