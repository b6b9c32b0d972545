//! The raw shape of one XMLTV document, reduced to the fields this library
//! consumes: channels with their display names, and programme entries with
//! the attributes the decoder validates.

use vstd::prelude::*;

verus! {

/// Model of a raw channel element.
pub ghost struct RawChannelView {
    pub id: Seq<char>,
    pub display_names: Seq<Seq<char>>,
}

/// Model of a raw programme element.
pub ghost struct RawProgrammeView {
    pub channel: Seq<char>,
    pub start: Seq<char>,
    pub stop: Option<Seq<char>>,
    pub titles: Seq<Seq<char>>,
    pub descs: Seq<Seq<char>>,
    pub categories: Seq<Seq<char>>,
    pub icons: Seq<Seq<char>>,
    pub language: Option<Seq<char>>,
}

/// Model of a whole parsed document.
pub ghost struct ParsedTvView {
    pub channels: Seq<RawChannelView>,
    pub programmes: Seq<RawProgrammeView>,
}

/// A raw channel: its feed id and its display names, in document order.
#[derive(Debug)]
pub struct RawChannel {
    pub id: String,
    pub display_names: Vec<String>,
}

/// A raw programme entry, not yet validated.
#[derive(Debug)]
pub struct RawProgramme {
    pub channel: String,
    pub start: String,
    pub stop: Option<String>,
    pub titles: Vec<String>,
    pub descs: Vec<String>,
    pub categories: Vec<String>,
    pub icons: Vec<String>,
    pub language: Option<String>,
}

impl View for RawChannel {
    type V = RawChannelView;

    open spec fn view(&self) -> RawChannelView {
        RawChannelView { id: self.id@, display_names: self.display_names.deep_view() }
    }
}

impl DeepView for RawChannel {
    type V = RawChannelView;

    open spec fn deep_view(&self) -> RawChannelView {
        self.view()
    }
}

impl View for RawProgramme {
    type V = RawProgrammeView;

    open spec fn view(&self) -> RawProgrammeView {
        RawProgrammeView {
            channel: self.channel@,
            start: self.start@,
            stop: self.stop.deep_view(),
            titles: self.titles.deep_view(),
            descs: self.descs.deep_view(),
            categories: self.categories.deep_view(),
            icons: self.icons.deep_view(),
            language: self.language.deep_view(),
        }
    }
}

impl DeepView for RawProgramme {
    type V = RawProgrammeView;

    open spec fn deep_view(&self) -> RawProgrammeView {
        self.view()
    }
}

} // verus!
