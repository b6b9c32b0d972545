//! Turning one fetched feed into an [`EpgSource`]: optional gzip
//! decompression, XMLTV parsing, per-entry validation and grouping by
//! channel display name.  Fetching itself is the caller's business; this
//! module starts from the fetched body.

use vstd::prelude::*;
use vstd::string::StringSliceAdditionalSpecFns;

use crate::decode::{
    build_name_pairs, channel_name_pairs, decode_programmes, decoded_programs, dropped_reasons,
    DropReason,
};
use crate::group::{group_by_channel, group_by_channel_spec};
use crate::store::{
    remove_url, source_wf, sources_of, store_wf, upsert_source, ChannelProgramsView, EpgSource,
    EpgStore, SourceView,
};
use crate::trusted::{
    gunzip_text_of, gunzip_to_string, parse_xmltv_channels, parse_xmltv_programmes, xmltv_doc_of,
};

verus! {

/// Why one feed could not be ingested.  Either way no source is built and
/// the store is left untouched.
#[derive(Debug, Clone, Copy, PartialEq, Eq, Structural)]
pub enum IngestError {
    /// The body was not a valid gzip stream of valid UTF-8 text.
    Decompress,
    /// The text was not a well-formed XMLTV document.
    XmlParse,
}

impl IngestError {
    /// A human-readable description of the failure.
    pub fn message(&self) -> (r: String)
        ensures
            *self == IngestError::Decompress ==> r@ == "failed to decompress EPG data"@,
            *self == IngestError::XmlParse ==> r@ == "failed to parse EPG XML data"@,
    {
        match self {
            IngestError::Decompress => "failed to decompress EPG data".to_owned(),
            IngestError::XmlParse => "failed to parse EPG XML data".to_owned(),
        }
    }
}

/// One fetched feed body: raw bytes still to be decompressed, or plain
/// text.
#[derive(Debug)]
pub enum FeedBody {
    Gzipped(Vec<u8>),
    Plain(String),
}

/// The text a feed body stands for: gzipped bytes decompress to it, plain
/// text is it; nothing when decompression fails.
pub open spec fn body_text(body: FeedBody) -> Option<Seq<char>> {
    match body {
        FeedBody::Gzipped(bytes) => gunzip_text_of(bytes@),
        FeedBody::Plain(text) => Some(text@),
    }
}

/// The UTF-8 bytes end with `.gz`.
pub open spec fn gz_suffix(b: Seq<u8>) -> bool {
    &&& b.len() >= 3
    &&& b[b.len() - 3] == 46u8
    &&& b[b.len() - 2] == 103u8
    &&& b[b.len() - 1] == 122u8
}

/// Whether a URL names a gzip-compressed feed: it ends with `.gz`.
pub fn wants_gzip(url: &str) -> (r: bool)
    ensures
        r == gz_suffix(url.spec_bytes()),
{
    let b = url.as_bytes();
    if b.len() < 3 {
        return false;
    }
    let n = b.len();
    b[n - 3] == 46u8 && b[n - 2] == 103u8 && b[n - 1] == 122u8
}

/// The channel groups that a feed text decodes to, or nothing when it is
/// not a well-formed XMLTV document.
pub open spec fn channels_of_text(text: Seq<char>) -> Option<Seq<ChannelProgramsView>> {
    match xmltv_doc_of(text) {
        None => None,
        Some(doc) => Some(
            group_by_channel_spec(
                decoded_programs(channel_name_pairs(doc.channels), doc.programmes),
            ),
        ),
    }
}

/// The rejection reasons of a feed text's entries, in document order;
/// empty when the text does not parse.
pub open spec fn drops_of_text(text: Seq<char>) -> Seq<DropReason> {
    match xmltv_doc_of(text) {
        None => Seq::empty(),
        Some(doc) => dropped_reasons(channel_name_pairs(doc.channels), doc.programmes),
    }
}

/// Builds the source for one fetched feed: decompresses a gzipped body,
/// parses the XMLTV text, validates every programme entry and groups the
/// survivors by channel display name.  Returns the source and the reason
/// of every dropped entry, or the error that aborted the feed.
pub fn build_epg_source(url: String, body: FeedBody) -> (r: Result<
    (EpgSource, Vec<DropReason>),
    IngestError,
>)
    ensures
        r is Ok <==> (body_text(body) matches Some(text) && xmltv_doc_of(text) is Some),
        r matches Err(e) ==> (e == IngestError::Decompress <==> body_text(body) is None),
        r matches Ok(pair) ==> {
            let text = body_text(body)->Some_0;
            &&& pair.0@.url == url@
            &&& Some(pair.0@.channels) == channels_of_text(text)
            &&& source_wf(pair.0@)
            &&& pair.1@ == drops_of_text(text)
        },
{
    let text: String = match body {
        FeedBody::Gzipped(bytes) => match gunzip_to_string(bytes.as_slice()) {
            Some(t) => t,
            None => {
                return Err(IngestError::Decompress);
            },
        },
        FeedBody::Plain(t) => t,
    };
    let raw_channels = match parse_xmltv_channels(text.as_str()) {
        Some(chs) => chs,
        None => {
            return Err(IngestError::XmlParse);
        },
    };
    let raw_programmes = match parse_xmltv_programmes(text.as_str()) {
        Some(prs) => prs,
        None => {
            return Err(IngestError::XmlParse);
        },
    };
    let pairs = build_name_pairs(&raw_channels);
    let (programs, drops) = decode_programmes(&pairs, raw_programmes);
    let channels = group_by_channel(programs);
    Ok((EpgSource { url, channels }, drops))
}

/// Ingests one fetched feed into the store: builds its source and commits
/// it, replacing any earlier source of the same URL, and creating the
/// store on the first success.  On failure the store is left exactly as it
/// was: no partial source is ever committed.  Returns the rejection
/// reasons of the dropped entries.
pub fn ingest_feed(store: &mut Option<EpgStore>, url: String, body: FeedBody) -> (r: Result<
    Vec<DropReason>,
    IngestError,
>)
    requires
        *old(store) matches Some(st) ==> store_wf(st@),
    ensures
        r is Ok <==> (body_text(body) matches Some(text) && xmltv_doc_of(text) is Some),
        r matches Err(e) ==> *final(store) == *old(store) && (e == IngestError::Decompress
            <==> body_text(body) is None),
        r matches Ok(drops) ==> {
            let text = body_text(body)->Some_0;
            &&& *final(store) matches Some(st)
            &&& store_wf(st@)
            &&& st@.len() > 0
            &&& st@.last().url == url@
            &&& Some(st@.last().channels) == channels_of_text(text)
            &&& st@ == remove_url(sources_of(*old(store)), url@).push(st@.last())
            &&& drops@ == drops_of_text(text)
        },
{
    let (source, drops) = match build_epg_source(url, body) {
        Ok(pair) => pair,
        Err(e) => {
            return Err(e);
        },
    };
    let previous = store.take();
    *store = Some(upsert_source(previous, source));
    Ok(drops)
}

} // verus!
