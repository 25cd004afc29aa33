//! Reading a font face from the bytes of an OTF or TTC file: whether it
//! parses, its CFF outlines, and its integer metrics.
use owned_ttf_parser::{AsFaceRef, OwnedFace, Tag};
use vstd::prelude::*;

use crate::text::{decimal, push_decimal, push_str};

verus! {

#[verifier::external_type_specification]
#[verifier::external_body]
pub struct ExOwnedFace(OwnedFace);

/// The `Debug` text of the error with which `OwnedFace::from_vec` refuses
/// face `index` of `data`, or `None` when it accepts it.
pub uninterp spec fn face_error(data: Seq<u8>, index: u32) -> Option<Seq<char>>;

/// The bytes of the `CFF ` table of face `index` of `data`, if it has one.
pub uninterp spec fn face_cff(data: Seq<u8>, index: u32) -> Option<Seq<u8>>;

/// The units per em of face `index` of `data`.
pub uninterp spec fn face_units_per_em(data: Seq<u8>, index: u32) -> u16;

/// The ascender of face `index` of `data`.
pub uninterp spec fn face_ascender(data: Seq<u8>, index: u32) -> i16;

/// The descender of face `index` of `data`.
pub uninterp spec fn face_descender(data: Seq<u8>, index: u32) -> i16;

/// The global bounding box of face `index` of `data`, as
/// `(x_min, y_min, x_max, y_max)`.
pub uninterp spec fn face_bbox(data: Seq<u8>, index: u32) -> (i16, i16, i16, i16);

/// The integer metrics of a face.
pub struct FaceMetrics {
    pub units_per_em: u16,
    pub ascender: i16,
    pub descender: i16,
    /// `(x_min, y_min, x_max, y_max)`.
    pub bbox: (i16, i16, i16, i16),
}

pub open spec fn opt_bytes(o: Option<Vec<u8>>) -> Option<Seq<u8>> {
    match o {
        Some(v) => Some(v@),
        None => None,
    }
}

/// The names of the variants of `FaceParsingError`, which its derived
/// `Debug` prints.
pub open spec fn is_face_error_name(t: Seq<char>) -> bool {
    t == "MalformedFont"@ || t == "UnknownMagic"@ || t == "FaceIndexOutOfBounds"@ || t
        == "NoHeadTable"@ || t == "NoHheaTable"@ || t == "NoMaxpTable"@
}

/// Wrapper of `owned_ttf_parser::OwnedFace::from_vec` on a copy of `data`,
/// followed by the face's `raw_face().table(b"CFF ")`, `units_per_em`,
/// `ascender`, `descender` and `global_bounding_box`. Claims: the call fails
/// exactly when `face_error` is `Some`, with the error's `Debug` text, which
/// names a variant of `FaceParsingError`; on success the table and metrics
/// are those named for `data` and `index`. What the parse finds in the bytes
/// is left unsaid.
#[verifier::external_body]
fn parse_face(data: &[u8], index: u32) -> (r: Result<(OwnedFace, Option<Vec<u8>>, FaceMetrics), String>)
    ensures
        match r {
            Err(e) => face_error(data@, index) == Some(e@) && is_face_error_name(e@),
            Ok((_, cff, m)) => {
                &&& face_error(data@, index) is None
                &&& opt_bytes(cff) == face_cff(data@, index)
                &&& m.units_per_em == face_units_per_em(data@, index)
                &&& m.ascender == face_ascender(data@, index)
                &&& m.descender == face_descender(data@, index)
                &&& m.bbox == face_bbox(data@, index)
            },
        },
{
    let face = match OwnedFace::from_vec(data.to_vec(), index) {
        Ok(face) => face,
        Err(e) => return Err(format!("{:?}", e)),
    };
    let f = face.as_face_ref();
    let cff = f.raw_face().table(Tag::from_bytes(b"CFF ")).map(|t| t.to_vec());
    let b = f.global_bounding_box();
    let bbox = (b.x_min, b.y_min, b.x_max, b.y_max);
    let m = FaceMetrics { units_per_em: f.units_per_em(), ascender: f.ascender(), descender: f.descender(), bbox };
    Ok((face, cff, m))
}

/// A parsed face with CFF outlines: the face itself (for glyph lookups), the
/// CFF table to embed, and its integer metrics.
pub struct FontData {
    pub face: OwnedFace,
    pub cff: Vec<u8>,
    pub units_per_em: u16,
    pub ascender: i16,
    pub descender: i16,
    /// `(x_min, y_min, x_max, y_max)`.
    pub bbox: (i16, i16, i16, i16),
}

/// The message for a face that does not parse.
pub open spec fn parse_failure_text(index: u32, err: Seq<char>) -> Seq<char> {
    "解析字体失败 (face="@ + decimal(index as nat) + "): "@ + err
}

/// The message for a face without CFF outlines.
pub open spec fn no_cff_text() -> Seq<char> {
    "字体不含 CFF 表，请使用 OTF 格式"@
}

/// Reads face `face_index` of font file bytes `data`: an error when the face
/// does not parse or has no `CFF ` table, else the face, its CFF table and its
/// metrics.
pub fn font_data(data: &[u8], face_index: u32) -> (r: Result<FontData, String>)
    ensures
        match face_error(data@, face_index) {
            Some(t) => r matches Err(e) && e@ == parse_failure_text(face_index, t),
            None => match face_cff(data@, face_index) {
                None => r matches Err(e) && e@ == no_cff_text(),
                Some(c) => r matches Ok(fd) && {
                    &&& fd.cff@ == c
                    &&& fd.units_per_em == face_units_per_em(data@, face_index)
                    &&& fd.ascender == face_ascender(data@, face_index)
                    &&& fd.descender == face_descender(data@, face_index)
                    &&& fd.bbox == face_bbox(data@, face_index)
                },
            },
        },
{
    match parse_face(data, face_index) {
        Err(e) => {
            let mut msg = String::new();
            push_str(&mut msg, "解析字体失败 (face=");
            push_decimal(&mut msg, face_index as u64);
            push_str(&mut msg, "): ");
            push_str(&mut msg, e.as_str());
            proof {
                assert(msg@ =~= parse_failure_text(face_index, e@));
            }
            Err(msg)
        },
        Ok((face, cff, m)) => match cff {
            None => {
                let mut msg = String::new();
                push_str(&mut msg, "字体不含 CFF 表，请使用 OTF 格式");
                proof {
                    assert(msg@ =~= no_cff_text());
                }
                Err(msg)
            },
            Some(cff) => Ok(
                FontData {
                    face,
                    cff,
                    units_per_em: m.units_per_em,
                    ascender: m.ascender,
                    descender: m.descender,
                    bbox: m.bbox,
                },
            ),
        },
    }
}

} // verus!
