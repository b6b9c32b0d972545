//! The atomic unit of guide data: one broadcast event on one channel.

use vstd::prelude::*;

verus! {

/// Mathematical model of a [`Program`]: instants are seconds since the Unix
/// epoch (UTC), texts are character sequences.
pub ghost struct ProgramView {
    pub start: int,
    pub stop: int,
    pub title: Seq<char>,
    pub desc: Option<Seq<char>>,
    pub channel: Seq<char>,
    pub category: Option<Seq<char>>,
    pub icon: Option<Seq<char>>,
    pub language: Option<Seq<char>>,
}

/// One guide entry.  `start` and `stop` are seconds since the Unix epoch,
/// already normalized to UTC by the decoder; `channel` is the channel's
/// display name, not the raw feed id.
#[derive(Debug, Clone, PartialEq)]
pub struct Program {
    pub start: i64,
    pub stop: i64,
    pub title: String,
    pub desc: Option<String>,
    pub channel: String,
    pub category: Option<String>,
    pub icon: Option<String>,
    pub language: Option<String>,
}

impl View for Program {
    type V = ProgramView;

    open spec fn view(&self) -> ProgramView {
        ProgramView {
            start: self.start as int,
            stop: self.stop as int,
            title: self.title@,
            desc: self.desc.deep_view(),
            channel: self.channel@,
            category: self.category.deep_view(),
            icon: self.icon.deep_view(),
            language: self.language.deep_view(),
        }
    }
}

impl DeepView for Program {
    type V = ProgramView;

    open spec fn deep_view(&self) -> ProgramView {
        self.view()
    }
}

impl Program {
    /// A field-by-field copy whose model equals this program's.
    pub fn duplicate(&self) -> (r: Program)
        ensures
            r@ == self@,
    {
        Program {
            start: self.start,
            stop: self.stop,
            title: self.title.clone(),
            desc: clone_opt_string(&self.desc),
            channel: self.channel.clone(),
            category: clone_opt_string(&self.category),
            icon: clone_opt_string(&self.icon),
            language: clone_opt_string(&self.language),
        }
    }
}

/// Copies an optional string, keeping its model.
pub fn clone_opt_string(o: &Option<String>) -> (r: Option<String>)
    ensures
        r.deep_view() == o.deep_view(),
{
    match o {
        Some(s) => Some(s.clone()),
        None => None,
    }
}

} // verus!
