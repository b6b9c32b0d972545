//! XMLTV decoding: resolving raw channel ids to display names and turning
//! raw programme entries into validated [`Program`] records.  A programme
//! that fails validation is dropped with a reason, never stored half built.

use vstd::prelude::*;

use crate::feed::{RawChannel, RawChannelView, RawProgramme, RawProgrammeView};
use crate::program::{Program, ProgramView};
use crate::trusted::{parse_xmltv_datetime, xmltv_instant_of};

verus! {

/// Why one programme entry was rejected.
#[derive(Debug, Clone, Copy, PartialEq, Eq, Structural)]
pub enum DropReason {
    /// Its raw channel id resolves to no display name.
    NoChannelName,
    /// Its start time does not parse.
    BadStart,
    /// Its stop time is missing or does not parse.
    BadStop,
    /// It lists no title.
    NoTitle,
}

/// Model of one resolved channel-id-to-display-name entry.
pub ghost struct NamePairView {
    pub id: Seq<char>,
    pub name: Seq<char>,
}

/// A raw channel id resolved to a display name.
#[derive(Debug)]
pub struct NamePair {
    pub id: String,
    pub name: String,
}

impl View for NamePair {
    type V = NamePairView;

    open spec fn view(&self) -> NamePairView {
        NamePairView { id: self.id@, name: self.name@ }
    }
}

impl DeepView for NamePair {
    type V = NamePairView;

    open spec fn deep_view(&self) -> NamePairView {
        self.view()
    }
}

/// The mapping entry of one raw channel: its first display name, or nothing
/// when it lists none.
pub open spec fn channel_pair_fn() -> spec_fn(RawChannelView) -> Option<NamePairView> {
    |c: RawChannelView|
        if c.display_names.len() > 0 {
            Some(NamePairView { id: c.id, name: c.display_names[0] })
        } else {
            None
        }
}

/// The channel-id-to-display-name mapping of a document, in document order;
/// channels without a display name are excluded.
pub open spec fn channel_name_pairs(chs: Seq<RawChannelView>) -> Seq<NamePairView> {
    chs.filter_map(channel_pair_fn())
}

/// The display name for `id`: of entries sharing an id, the last one wins.
pub open spec fn lookup_display_name(pairs: Seq<NamePairView>, id: Seq<char>) -> Option<Seq<char>>
    decreases pairs.len(),
{
    if pairs.len() == 0 {
        None
    } else if pairs.last().id == id {
        Some(pairs.last().name)
    } else {
        lookup_display_name(pairs.drop_last(), id)
    }
}

/// The program a raw entry decodes to, or nothing when a validation rule
/// rejects it: the channel id must resolve, start and stop must parse, and
/// at least one title must be present.
pub open spec fn decode_programme(pairs: Seq<NamePairView>, r: RawProgrammeView) -> Option<
    ProgramView,
> {
    match lookup_display_name(pairs, r.channel) {
        None => None,
        Some(name) => match xmltv_instant_of(r.start) {
            None => None,
            Some(start) => match r.stop {
                None => None,
                Some(stop_text) => match xmltv_instant_of(stop_text) {
                    None => None,
                    Some(stop) => if r.titles.len() == 0 {
                        None
                    } else {
                        Some(
                            ProgramView {
                                start,
                                stop,
                                title: r.titles[0],
                                desc: if r.descs.len() > 0 {
                                    Some(r.descs[0])
                                } else {
                                    None
                                },
                                channel: name,
                                category: if r.categories.len() > 0 {
                                    Some(r.categories[0])
                                } else {
                                    None
                                },
                                icon: if r.icons.len() > 0 {
                                    Some(r.icons[0])
                                } else {
                                    None
                                },
                                language: r.language,
                            },
                        )
                    },
                },
            },
        },
    }
}

/// The reason a raw entry is rejected, checked in the decoder's order, or
/// nothing when it decodes.
pub open spec fn drop_reason_of(pairs: Seq<NamePairView>, r: RawProgrammeView) -> Option<
    DropReason,
> {
    match lookup_display_name(pairs, r.channel) {
        None => Some(DropReason::NoChannelName),
        Some(name) => match xmltv_instant_of(r.start) {
            None => Some(DropReason::BadStart),
            Some(start) => match r.stop {
                None => Some(DropReason::BadStop),
                Some(stop_text) => match xmltv_instant_of(stop_text) {
                    None => Some(DropReason::BadStop),
                    Some(stop) => if r.titles.len() == 0 {
                        Some(DropReason::NoTitle)
                    } else {
                        None
                    },
                },
            },
        },
    }
}

/// An entry is decoded exactly when it is not dropped.
pub proof fn lemma_decode_or_drop(pairs: Seq<NamePairView>, r: RawProgrammeView)
    ensures
        decode_programme(pairs, r) is Some <==> drop_reason_of(pairs, r) is None,
{
}

/// A programme that lists no stop time is never decoded, whatever its other
/// fields hold: it can reach no store and no query result.
pub proof fn lemma_missing_stop_dropped(pairs: Seq<NamePairView>, r: RawProgrammeView)
    requires
        r.stop is None,
    ensures
        decode_programme(pairs, r) is None,
{
}

/// The entry-decoding spec function, with the mapping fixed.
pub open spec fn program_fn(pairs: Seq<NamePairView>) -> spec_fn(RawProgrammeView) -> Option<
    ProgramView,
> {
    |r: RawProgrammeView| decode_programme(pairs, r)
}

/// The programs of a document's entries, in document order, skipping
/// dropped entries.
pub open spec fn decoded_programs(pairs: Seq<NamePairView>, rs: Seq<RawProgrammeView>) -> Seq<
    ProgramView,
> {
    rs.filter_map(program_fn(pairs))
}

/// The entry-rejection spec function, with the mapping fixed.
pub open spec fn drop_fn(pairs: Seq<NamePairView>) -> spec_fn(RawProgrammeView) -> Option<
    DropReason,
> {
    |r: RawProgrammeView| drop_reason_of(pairs, r)
}

/// The rejection reasons of a document's entries, in document order.
pub open spec fn dropped_reasons(pairs: Seq<NamePairView>, rs: Seq<RawProgrammeView>) -> Seq<
    DropReason,
> {
    rs.filter_map(drop_fn(pairs))
}

/// Builds the channel-id-to-display-name mapping of a document.
pub fn build_name_pairs(channels: &Vec<RawChannel>) -> (r: Vec<NamePair>)
    ensures
        r.deep_view() == channel_name_pairs(channels.deep_view()),
{
    broadcast use Seq::lemma_filter_map_take_succ;

    let ghost chs = channels.deep_view();
    let mut pairs: Vec<NamePair> = Vec::new();
    let mut i: usize = 0;
    assert(chs.take(0) =~= Seq::<RawChannelView>::empty());
    assert(pairs.deep_view() =~= Seq::<NamePairView>::empty());
    while i < channels.len()
        invariant
            chs == channels.deep_view(),
            0 <= i <= channels.len(),
            pairs.deep_view() == channel_name_pairs(chs.take(i as int)),
        decreases channels.len() - i,
    {
        proof {
            assert(chs[i as int] == channels@[i as int].deep_view());
        }
        let ghost pairs_before = pairs.deep_view();
        let c = &channels[i];
        if c.display_names.len() > 0 {
            let id = c.id.clone();
            let name = c.display_names[0].clone();
            proof {
                assert(c.display_names.deep_view()[0] == c.display_names@[0].deep_view());
            }
            pairs.push(NamePair { id, name });
            proof {
                let entry = NamePairView {
                    id: chs[i as int].id,
                    name: chs[i as int].display_names[0],
                };
                assert(pairs.deep_view() =~= pairs_before.push(entry));
                chs.lemma_filter_map_take_succ(channel_pair_fn(), i as int);
                assert(channel_pair_fn()(chs[i as int]) == Some(entry));
                assert(channel_name_pairs(chs.take(i + 1)) =~= pairs_before.push(entry));
            }
        } else {
            proof {
                chs.lemma_filter_map_take_succ(channel_pair_fn(), i as int);
                assert(channel_pair_fn()(chs[i as int]) is None);
                assert(channel_name_pairs(chs.take(i + 1)) =~= pairs_before);
            }
        }
        i += 1;
    }
    assert(chs.take(channels@.len() as int) =~= chs);
    pairs
}

/// Looks `id` up in the mapping; of entries sharing an id, the last wins.
pub fn find_display_name(pairs: &Vec<NamePair>, id: &String) -> (r: Option<String>)
    ensures
        r.deep_view() == lookup_display_name(pairs.deep_view(), id@),
{
    let ghost ps = pairs.deep_view();
    let mut j: usize = pairs.len();
    assert(ps.take(pairs@.len() as int) =~= ps);
    while j > 0
        invariant
            ps == pairs.deep_view(),
            0 <= j <= pairs.len(),
            lookup_display_name(ps, id@) == lookup_display_name(ps.take(j as int), id@),
        decreases j,
    {
        j = j - 1;
        proof {
            assert(ps[j as int] == pairs@[j as int].deep_view());
            assert(ps.take(j + 1).last() == ps[j as int]);
            assert(ps.take(j + 1).drop_last() =~= ps.take(j as int));
        }
        if pairs[j].id == *id {
            return Some(pairs[j].name.clone());
        }
    }
    assert(ps.take(0) =~= Seq::<NamePairView>::empty());
    None
}

/// Takes the first element of a list of texts, if any.
fn first_owned(texts: Vec<String>) -> (r: Option<String>)
    ensures
        r.deep_view() == (if texts.deep_view().len() > 0 {
            Some(texts.deep_view()[0])
        } else {
            None::<Seq<char>>
        }),
{
    let mut texts = texts;
    if texts.len() == 0 {
        None
    } else {
        proof {
            assert(texts.deep_view()[0] == texts@[0].deep_view());
        }
        Some(texts.remove(0))
    }
}

/// Validates one raw entry: resolves its channel, parses its times, takes
/// its first title and first optional metadata, or reports why it drops.
pub fn decode_programme_entry(pairs: &Vec<NamePair>, entry: RawProgramme) -> (res: Result<
    Program,
    DropReason,
>)
    ensures
        res matches Ok(p) ==> decode_programme(pairs.deep_view(), entry@) == Some(p@),
        res matches Err(d) ==> decode_programme(pairs.deep_view(), entry@) is None
            && drop_reason_of(pairs.deep_view(), entry@) == Some(d),
{
    let name = match find_display_name(pairs, &entry.channel) {
        Some(n) => n,
        None => {
            return Err(DropReason::NoChannelName);
        },
    };
    let start = match parse_xmltv_datetime(entry.start.as_str()) {
        Some(t) => t,
        None => {
            return Err(DropReason::BadStart);
        },
    };
    let stop_text = match entry.stop {
        Some(s) => s,
        None => {
            return Err(DropReason::BadStop);
        },
    };
    let stop = match parse_xmltv_datetime(stop_text.as_str()) {
        Some(t) => t,
        None => {
            return Err(DropReason::BadStop);
        },
    };
    if entry.titles.len() == 0 {
        return Err(DropReason::NoTitle);
    }
    let mut titles = entry.titles;
    proof {
        assert(titles.deep_view()[0] == titles@[0].deep_view());
    }
    let title = titles.remove(0);
    Ok(
        Program {
            start,
            stop,
            title,
            desc: first_owned(entry.descs),
            channel: name,
            category: first_owned(entry.categories),
            icon: first_owned(entry.icons),
            language: entry.language,
        },
    )
}

/// Decodes a document's entries in order, returning the surviving programs
/// and the rejection reason of every dropped entry.
pub fn decode_programmes(pairs: &Vec<NamePair>, programmes: Vec<RawProgramme>) -> (r: (
    Vec<Program>,
    Vec<DropReason>,
))
    ensures
        r.0.deep_view() == decoded_programs(pairs.deep_view(), programmes.deep_view()),
        r.1@ == dropped_reasons(pairs.deep_view(), programmes.deep_view()),
{
    broadcast use Seq::lemma_filter_map_take_succ;

    let ghost rs = programmes.deep_view();
    let mut rest = programmes;
    let mut programs: Vec<Program> = Vec::new();
    let mut drops: Vec<DropReason> = Vec::new();
    let ghost mut done: int = 0;
    assert(rs.take(0) =~= Seq::<RawProgrammeView>::empty());
    assert(programs.deep_view() =~= Seq::<ProgramView>::empty());
    assert(drops@ =~= Seq::<DropReason>::empty());
    while rest.len() > 0
        invariant
            0 <= done <= rs.len(),
            rest.deep_view() =~= rs.skip(done),
            programs.deep_view() == decoded_programs(pairs.deep_view(), rs.take(done)),
            drops@ == dropped_reasons(pairs.deep_view(), rs.take(done)),
        decreases rest.len(),
    {
        let ghost rest_before = rest.deep_view();
        let ghost programs_before = programs.deep_view();
        let ghost drops_before = drops@;
        proof {
            assert(rest_before.len() == rest@.len());
            assert(rest_before.len() == rs.len() - done);
        }
        let entry = rest.remove(0);
        proof {
            assert(rest_before[0] == rs[done]);
            assert(entry.deep_view() == rs[done]);
            assert(rest.deep_view() =~= rest_before.skip(1));
            assert(rs.skip(done).skip(1) =~= rs.skip(done + 1));
        }
        match decode_programme_entry(pairs, entry) {
            Ok(p) => {
                programs.push(p);
                proof {
                    lemma_decode_or_drop(pairs.deep_view(), rs[done]);
                    assert(programs.deep_view() =~= programs_before.push(p@));
                    rs.lemma_filter_map_take_succ(program_fn(pairs.deep_view()), done);
                    rs.lemma_filter_map_take_succ(drop_fn(pairs.deep_view()), done);
                    assert(program_fn(pairs.deep_view())(rs[done]) == Some(p@));
                    assert(drop_fn(pairs.deep_view())(rs[done]) is None);
                    assert(decoded_programs(pairs.deep_view(), rs.take(done + 1))
                        =~= programs_before.push(p@));
                    assert(dropped_reasons(pairs.deep_view(), rs.take(done + 1)) =~= drops_before);
                }
            },
            Err(d) => {
                drops.push(d);
                proof {
                    lemma_decode_or_drop(pairs.deep_view(), rs[done]);
                    assert(drops@ =~= drops_before.push(d));
                    rs.lemma_filter_map_take_succ(program_fn(pairs.deep_view()), done);
                    rs.lemma_filter_map_take_succ(drop_fn(pairs.deep_view()), done);
                    assert(program_fn(pairs.deep_view())(rs[done]) is None);
                    assert(drop_fn(pairs.deep_view())(rs[done]) == Some(d));
                    assert(decoded_programs(pairs.deep_view(), rs.take(done + 1))
                        =~= programs_before);
                    assert(dropped_reasons(pairs.deep_view(), rs.take(done + 1))
                        =~= drops_before.push(d));
                }
            },
        }
        proof {
            done = done + 1;
        }
    }
    assert(rs.take(done) =~= rs);
    (programs, drops)
}

} // verus!
