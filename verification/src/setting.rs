use vstd::prelude::*;
use encoding_rs::Encoding;

verus! {

/// The character encoding of the texts and comments of a library.
#[derive(Clone, Copy, PartialEq, Eq, Structural, Debug)]
pub enum TextEncoding {
    ShiftJIS,
    UTF8,
    GBK,
    Big5,
    EucKR,
}

/// An encoding of `encoding_rs`.
#[verifier::external_type_specification]
#[verifier::external_body]
pub struct ExEncoding(Encoding);

/// The menu label of each encoding.
pub open spec fn encoding_label(e: TextEncoding) -> Seq<char> {
    match e {
        TextEncoding::ShiftJIS => "日本語 (Shift_JIS)"@,
        TextEncoding::UTF8 => "UTF-8"@,
        TextEncoding::GBK => "中国語簡体字 (GBK)"@,
        TextEncoding::Big5 => "中国語繁体字 (Big5)"@,
        TextEncoding::EucKR => "韓国語 (EUC-KR)"@,
    }
}

impl TextEncoding {
    /// The label shown for the encoding.
    pub fn label(&self) -> (s: &'static str)
        ensures
            s@ == encoding_label(*self),
    {
        match self {
            TextEncoding::ShiftJIS => "日本語 (Shift_JIS)",
            TextEncoding::UTF8 => "UTF-8",
            TextEncoding::GBK => "中国語簡体字 (GBK)",
            TextEncoding::Big5 => "中国語繁体字 (Big5)",
            TextEncoding::EucKR => "韓国語 (EUC-KR)",
        }
    }

    /// Every encoding, in menu order.
    pub const ALL: [TextEncoding; 5] = [
        TextEncoding::ShiftJIS,
        TextEncoding::UTF8,
        TextEncoding::GBK,
        TextEncoding::Big5,
        TextEncoding::EucKR,
    ];

    /// The `encoding_rs` encoding (`SHIFT_JIS`, `UTF_8`, `GBK`, `BIG5`,
    /// `EUC_KR`). The statics are outside values, so nothing is stated.
    #[verifier::external_body]
    pub fn to_encoding_rs(&self) -> &'static Encoding {
        match self {
            TextEncoding::ShiftJIS => encoding_rs::SHIFT_JIS,
            TextEncoding::UTF8 => encoding_rs::UTF_8,
            TextEncoding::GBK => encoding_rs::GBK,
            TextEncoding::Big5 => encoding_rs::BIG5,
            TextEncoding::EucKR => encoding_rs::EUC_KR,
        }
    }
}

/// The default of the on/off settings: on.
pub fn default_true() -> (r: bool)
    ensures
        r,
{
    true
}

/// The default number of branches highlighted.
pub fn default_top_branch_highlight_count() -> (r: usize)
    ensures
        r == 3,
{
    3
}

/// The default limit on the nodes read from a file.
pub fn default_max_nodes() -> (r: usize)
    ensures
        r == 80_000_000,
{
    80_000_000
}

/// The default font file.
pub fn default_font_path() -> (s: String)
    ensures
        s@ == "C:\\Windows\\Fonts\\msgothic.ttc"@,
{
    String::from_str("C:\\Windows\\Fonts\\msgothic.ttc")
}

} // verus!
