//! The in-memory EPG store: one [`EpgSource`] per ingested feed URL, each
//! holding its programs grouped by channel display name.

use vstd::prelude::*;

use crate::program::{Program, ProgramView};

verus! {

/// Model of one channel's group inside a source.
pub ghost struct ChannelProgramsView {
    pub channel: Seq<char>,
    pub programs: Seq<ProgramView>,
}

/// Model of one ingested feed.
pub ghost struct SourceView {
    pub url: Seq<char>,
    pub channels: Seq<ChannelProgramsView>,
}

/// The programs of one channel within a source, keyed by the channel's
/// display name.
#[derive(Debug)]
pub struct ChannelPrograms {
    pub channel: String,
    pub programs: Vec<Program>,
}

/// One successfully ingested feed: its URL and its programs grouped by
/// channel display name (insertion order kept, keys unique).
#[derive(Debug)]
pub struct EpgSource {
    pub url: String,
    pub channels: Vec<ChannelPrograms>,
}

/// All ingested feeds, in upsert order; at most one per URL.
#[derive(Debug)]
pub struct EpgStore {
    pub sources: Vec<EpgSource>,
}

impl View for ChannelPrograms {
    type V = ChannelProgramsView;

    open spec fn view(&self) -> ChannelProgramsView {
        ChannelProgramsView { channel: self.channel@, programs: self.programs.deep_view() }
    }
}

impl DeepView for ChannelPrograms {
    type V = ChannelProgramsView;

    open spec fn deep_view(&self) -> ChannelProgramsView {
        self.view()
    }
}

impl View for EpgSource {
    type V = SourceView;

    open spec fn view(&self) -> SourceView {
        SourceView { url: self.url@, channels: self.channels.deep_view() }
    }
}

impl DeepView for EpgSource {
    type V = SourceView;

    open spec fn deep_view(&self) -> SourceView {
        self.view()
    }
}

impl View for EpgStore {
    type V = Seq<SourceView>;

    open spec fn view(&self) -> Seq<SourceView> {
        self.sources.deep_view()
    }
}

/// A group is well formed when it is non-empty and every program in it
/// carries the group's channel name.
pub open spec fn group_wf(g: ChannelProgramsView) -> bool {
    &&& g.programs.len() > 0
    &&& forall|k: int| 0 <= k < g.programs.len() ==> #[trigger] g.programs[k].channel == g.channel
}

/// A source is well formed when all its groups are and no two groups share
/// a channel name.
pub open spec fn source_wf(s: SourceView) -> bool {
    &&& forall|i: int| 0 <= i < s.channels.len() ==> group_wf(#[trigger] s.channels[i])
    &&& forall|i: int, j: int|
        0 <= i < j < s.channels.len() ==> (#[trigger] s.channels[i]).channel != (
        #[trigger] s.channels[j]).channel
}

/// A store is well formed when all its sources are and no two sources share
/// a URL.
pub open spec fn store_wf(ss: Seq<SourceView>) -> bool {
    &&& forall|i: int| 0 <= i < ss.len() ==> source_wf(#[trigger] ss[i])
    &&& forall|i: int, j: int|
        0 <= i < j < ss.len() ==> (#[trigger] ss[i]).url != (#[trigger] ss[j]).url
}

/// The sources held by a possibly not yet created store: none at all before
/// the first successful ingestion.
pub open spec fn sources_of(store: Option<EpgStore>) -> Seq<SourceView> {
    match store {
        Some(st) => st@,
        None => Seq::empty(),
    }
}

/// The sources of `ss` whose URL differs from `url`, in order.
pub open spec fn remove_url(ss: Seq<SourceView>, url: Seq<char>) -> Seq<SourceView> {
    ss.filter(|s: SourceView| s.url != url)
}

/// Filtering out a URL distributes over appending one source.
proof fn lemma_remove_url_push(ss: Seq<SourceView>, x: SourceView, url: Seq<char>)
    ensures
        remove_url(ss.push(x), url) == if x.url != url {
            remove_url(ss, url).push(x)
        } else {
            remove_url(ss, url)
        },
{
    broadcast use Seq::lemma_filter_push;

}

/// What filtering a URL out keeps: no source with that URL, only sources of
/// the input sequence, their order and distinctness of URLs preserved.
proof fn lemma_remove_url_props(ss: Seq<SourceView>, url: Seq<char>)
    ensures
        forall|k: int|
            0 <= k < remove_url(ss, url).len() ==> (#[trigger] remove_url(ss, url)[k]).url != url,
        forall|k: int|
            0 <= k < remove_url(ss, url).len() ==> exists|i: int|
                0 <= i < ss.len() && ss[i] == #[trigger] remove_url(ss, url)[k],
        (forall|i: int, j: int| 0 <= i < j < ss.len() ==> ss[i].url != ss[j].url) ==> (forall|
            i: int,
            j: int,
        |
            0 <= i < j < remove_url(ss, url).len() ==> remove_url(ss, url)[i].url != remove_url(
                ss,
                url,
            )[j].url),
    decreases ss.len(),
{
    reveal(Seq::filter);
    if ss.len() == 0 {
    } else {
        let prefix = ss.drop_last();
        lemma_remove_url_props(prefix, url);
        assert(ss =~= prefix.push(ss.last()));
        lemma_remove_url_push(prefix, ss.last(), url);
        assert(forall|i: int| 0 <= i < prefix.len() ==> prefix[i] == ss[i]);
        if ss.last().url != url {
            assert(remove_url(ss, url) =~= remove_url(prefix, url).push(ss.last()));
            assert(ss[ss.len() - 1] == ss.last());
        } else {
            assert(remove_url(ss, url) =~= remove_url(prefix, url));
        }
    }
}

/// Filtering a URL out of a sequence that no longer holds it changes
/// nothing, so a second upsert of the same URL leaves no trace of the first.
proof fn lemma_remove_url_idempotent(ss: Seq<SourceView>, url: Seq<char>)
    ensures
        remove_url(remove_url(ss, url), url) == remove_url(ss, url),
    decreases ss.len(),
{
    reveal(Seq::filter);
    if ss.len() == 0 {
    } else {
        let prefix = ss.drop_last();
        lemma_remove_url_idempotent(prefix, url);
        assert(ss =~= prefix.push(ss.last()));
        lemma_remove_url_push(prefix, ss.last(), url);
        if ss.last().url != url {
            lemma_remove_url_push(remove_url(prefix, url), ss.last(), url);
        }
    }
}

/// Replaces or appends `source`: every source with the same URL is removed,
/// then `source` is appended.  A store that did not exist yet is created
/// holding only `source`.  At most one source per URL survives: only the
/// last source holds `source`'s URL, and it holds exactly `source`'s
/// content.
pub fn upsert_source(store: Option<EpgStore>, source: EpgSource) -> (r: EpgStore)
    requires
        store matches Some(st) ==> store_wf(st@),
        source_wf(source@),
    ensures
        r@ == remove_url(sources_of(store), source@.url).push(source@),
        store_wf(r@),
        r@.len() > 0 && r@.last() == source@,
        forall|i: int| 0 <= i < r@.len() - 1 ==> (#[trigger] r@[i]).url != source@.url,
{
    proof {
        lemma_remove_url_props(sources_of(store), source@.url);
    }
    broadcast use Seq::lemma_filter_push;

    let mut rest: Vec<EpgSource> = match store {
        Some(st) => st.sources,
        None => Vec::new(),
    };
    let ghost all: Seq<SourceView> = rest.deep_view();
    let mut kept: Vec<EpgSource> = Vec::new();
    let ghost mut done: int = 0;
    assert(all.take(0) =~= Seq::<SourceView>::empty());
    assert(remove_url(Seq::<SourceView>::empty(), source@.url)
        =~= Seq::<SourceView>::empty()) by {
        reveal(Seq::filter);
    }
    while rest.len() > 0
        invariant
            0 <= done <= all.len(),
            rest.deep_view() =~= all.skip(done),
            kept.deep_view() =~= remove_url(all.take(done), source@.url),
        decreases rest.len(),
    {
        let ghost rest_before = rest.deep_view();
        let ghost kept_before = kept.deep_view();
        proof {
            assert(rest_before.len() == rest@.len());
            assert(rest_before.len() == all.len() - done);
        }
        let s = rest.remove(0);
        proof {
            assert(rest_before[0] == all[done]);
            assert(s.deep_view() == all[done]);
            assert(rest.deep_view() =~= rest_before.skip(1));
            assert(all.skip(done).skip(1) =~= all.skip(done + 1));
            assert(all.take(done + 1) =~= all.take(done).push(all[done]));
            lemma_remove_url_push(all.take(done), all[done], source@.url);
        }
        if !(s.url == source.url) {
            kept.push(s);
            assert(kept.deep_view() =~= kept_before.push(s.deep_view()));
        }
        proof {
            done = done + 1;
        }
    }
    assert(all.take(done) =~= all);
    kept.push(source);
    let r = EpgStore { sources: kept };
    proof {
        assert(r@ =~= remove_url(all, source@.url).push(source@));
    }
    r
}

/// Upserting a URL and then upserting it again leaves the store exactly as
/// if only the second upsert had happened: one source for that URL, holding
/// only the latest content.
pub proof fn lemma_upsert_replaces(ss: Seq<SourceView>, s1: SourceView, s2: SourceView)
    requires
        s1.url == s2.url,
    ensures
        remove_url(remove_url(ss, s1.url).push(s1), s2.url).push(s2) == remove_url(
            ss,
            s2.url,
        ).push(s2),
{
    lemma_remove_url_push(remove_url(ss, s1.url), s1, s1.url);
    lemma_remove_url_idempotent(ss, s1.url);
}

} // verus!
