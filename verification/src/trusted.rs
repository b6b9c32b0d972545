//! The boundary to outside code.  Every function here is believed, not
//! verified: its contract states what the outside crate's source and
//! documentation promise, and nothing more.  Results that depend on the
//! argument alone but are too intricate to state are given names
//! (uninterpreted spec functions) that the rest of the library reasons with.

use vstd::prelude::*;

use crate::feed::{ParsedTvView, RawChannel, RawProgramme};
use crate::text::seq_char_le;

verus! {

/// The document that an XMLTV text parses to, reduced to the consumed
/// fields, or nothing when the text is not a well-formed XMLTV document.
pub uninterp spec fn xmltv_doc_of(s: Seq<char>) -> Option<ParsedTvView>;

/// The UTC instant (seconds since the Unix epoch) denoted by a string in
/// the XMLTV `YYYYMMDDHHMMSS +/-HHMM` date-time format, or nothing when
/// the string does not parse under that format.
pub uninterp spec fn xmltv_instant_of(s: Seq<char>) -> Option<int>;

/// The text that a gzip stream decompresses to, or nothing when the bytes
/// are not a valid gzip stream of valid UTF-8.
pub uninterp spec fn gunzip_text_of(b: Seq<u8>) -> Option<Seq<char>>;

/// A string with its leading and trailing whitespace removed.
pub uninterp spec fn trim_of(s: Seq<char>) -> Seq<char>;

/// Relies on `quick_xml::de::from_str` deserializing `xmltv::Tv`: the
/// parse result is a function of the text alone; on success the wrapper
/// keeps, in document order, each channel's id and display names.
#[verifier::external_body]
pub fn parse_xmltv_channels(text: &str) -> (r: Option<Vec<RawChannel>>)
    ensures
        r is Some <==> xmltv_doc_of(text@) is Some,
        r matches Some(chs) ==> chs.deep_view() == xmltv_doc_of(text@)->Some_0.channels,
{
    let tv: xmltv::Tv = quick_xml::de::from_str(text).ok()?;
    Some(tv.channels.into_iter().map(|c| RawChannel {
        id: c.id,
        display_names: c.display_names.into_iter().map(|d| d.name).collect() }).collect())
}

/// Relies on `quick_xml::de::from_str` deserializing `xmltv::Tv`: the
/// parse result is a function of the text alone; on success the wrapper
/// keeps, in document order, each programme's channel id, start, stop,
/// titles, descriptions, categories, icon sources and language.
#[verifier::external_body]
pub fn parse_xmltv_programmes(text: &str) -> (r: Option<Vec<RawProgramme>>)
    ensures
        r is Some <==> xmltv_doc_of(text@) is Some,
        r matches Some(prs) ==> prs.deep_view() == xmltv_doc_of(text@)->Some_0.programmes,
{
    let tv: xmltv::Tv = quick_xml::de::from_str(text).ok()?;
    Some(tv.programmes.into_iter().map(|p| RawProgramme {
        channel: p.channel,
        start: p.start,
        stop: p.stop,
        titles: p.titles.into_iter().map(|t| t.value).collect(),
        descs: p.descriptions.into_iter().map(|d| d.value).collect(),
        categories: p.categories.into_iter().map(|c| c.name).collect(),
        icons: p.icons.into_iter().map(|i| i.src).collect(),
        language: p.language.map(|l| l.value) }).collect())
}

/// Relies on chrono's `DateTime::parse_from_str` with format
/// `%Y%m%d%H%M%S %z`, normalized to UTC by `timestamp`: the result is a
/// function of the string alone.
#[verifier::external_body]
pub fn parse_xmltv_datetime(s: &str) -> (r: Option<i64>)
    ensures
        r is Some <==> xmltv_instant_of(s@) is Some,
        r matches Some(t) ==> xmltv_instant_of(s@) == Some(t as int),
{
    chrono::DateTime::parse_from_str(s, "%Y%m%d%H%M%S %z").ok().map(|dt| dt.timestamp())
}

/// Relies on flate2's `GzDecoder` driven by `Read::read_to_string`: the
/// decompressed text is a function of the compressed bytes alone.
#[verifier::external_body]
pub fn gunzip_to_string(bytes: &[u8]) -> (r: Option<String>)
    ensures
        r is Some <==> gunzip_text_of(bytes@) is Some,
        r matches Some(s) ==> gunzip_text_of(bytes@) == Some(s@),
{
    let mut decoder = flate2::read::GzDecoder::new(bytes);
    let mut out = String::new();
    match std::io::Read::read_to_string(&mut decoder, &mut out) {
        Ok(_) => Some(out),
        Err(_) => None,
    }
}

/// Relies on `str::trim`: the result is a function of the string alone;
/// `str::to_owned` converts the result.
#[verifier::external_body]
pub fn trim_owned(s: &str) -> (r: String)
    ensures
        r@ == trim_of(s@),
{
    s.trim().to_owned()
}

/// Relies on `str`'s `Ord`: strings order lexicographically by byte value,
/// which on UTF-8 coincides with lexicographic order by code point.
#[verifier::external_body]
pub fn str_le(a: &str, b: &str) -> (r: bool)
    ensures
        r == seq_char_le(a@, b@),
{
    a <= b
}

} // verus!
