//! The single-channel query: merge one channel's programs across all
//! sources, sorted by start time.

use vstd::multiset::Multiset;
use vstd::prelude::*;

use crate::program::{Program, ProgramView};
use crate::store::{ChannelPrograms, ChannelProgramsView, EpgSource, EpgStore, SourceView};

verus! {

/// Non-decreasing in start time.
pub open spec fn sorted_by_start(ps: Seq<ProgramView>) -> bool {
    forall|i: int, j: int| 0 <= i < j < ps.len() ==> ps[i].start <= ps[j].start
}

/// The program list of the first group keyed `key`, if any.
pub open spec fn find_channel(gs: Seq<ChannelProgramsView>, key: Seq<char>) -> Option<
    Seq<ProgramView>,
>
    decreases gs.len(),
{
    if gs.len() == 0 {
        None
    } else if gs[0].channel == key {
        Some(gs[0].programs)
    } else {
        find_channel(gs.drop_first(), key)
    }
}

/// All programs stored under `key`, source by source in store order, in
/// each source's stored order.
pub open spec fn channel_programs_spec(ss: Seq<SourceView>, key: Seq<char>) -> Seq<ProgramView>
    decreases ss.len(),
{
    if ss.len() == 0 {
        Seq::empty()
    } else {
        (match find_channel(ss[0].channels, key) {
            Some(ps) => ps,
            None => Seq::empty(),
        }) + channel_programs_spec(ss.drop_first(), key)
    }
}

/// The sources of a store that may not have been created yet.
pub open spec fn opt_sources(store: Option<&EpgStore>) -> Seq<SourceView> {
    match store {
        Some(st) => st@,
        None => Seq::empty(),
    }
}

/// Finds the group keyed `key` in one source.
pub(crate) fn find_group<'a>(source: &'a EpgSource, key: &String) -> (r: Option<
    &'a ChannelPrograms,
>)
    ensures
        match r {
            Some(g) => find_channel(source@.channels, key@) == Some(g.programs.deep_view()),
            None => find_channel(source@.channels, key@) is None,
        },
{
    let ghost gs = source@.channels;
    let mut j: usize = 0;
    assert(gs.skip(0) =~= gs);
    while j < source.channels.len()
        invariant
            gs == source@.channels,
            0 <= j <= source.channels.len(),
            find_channel(gs, key@) == find_channel(gs.skip(j as int), key@),
        decreases source.channels.len() - j,
    {
        proof {
            assert(gs[j as int] == source.channels@[j as int].deep_view());
            assert(gs.skip(j as int)[0] == gs[j as int]);
            assert(gs.skip(j as int).drop_first() =~= gs.skip(j + 1));
        }
        if source.channels[j].channel == *key {
            return Some(&source.channels[j]);
        }
        j += 1;
    }
    assert(gs.skip(source.channels@.len() as int) =~= Seq::<ChannelProgramsView>::empty());
    None
}

/// Appends a copy of every program of `progs` to `acc`.
pub(crate) fn extend_with_copies(acc: &mut Vec<Program>, progs: &Vec<Program>)
    ensures
        final(acc).deep_view() == old(acc).deep_view() + progs.deep_view(),
{
    let ghost base = old(acc).deep_view();
    let ghost ps = progs.deep_view();
    let mut j: usize = 0;
    while j < progs.len()
        invariant
            base == old(acc).deep_view(),
            ps == progs.deep_view(),
            0 <= j <= progs.len(),
            acc.deep_view() =~= base + ps.take(j as int),
        decreases progs.len() - j,
    {
        proof {
            assert(ps[j as int] == progs@[j as int].deep_view());
        }
        let ghost acc_before = acc.deep_view();
        acc.push(progs[j].duplicate());
        proof {
            assert(acc.deep_view() =~= acc_before.push(ps[j as int]));
            assert(base + ps.take(j + 1) =~= (base + ps.take(j as int)).push(ps[j as int]));
        }
        j += 1;
    }
    assert(ps.take(progs@.len() as int) =~= ps);
}

/// Places `p` after every program starting no later than it: a stable
/// insertion.
pub open spec fn insert_by_start(sorted: Seq<ProgramView>, p: ProgramView) -> Seq<ProgramView>
    decreases sorted.len(),
{
    if sorted.len() == 0 {
        seq![p]
    } else if sorted[0].start <= p.start {
        seq![sorted[0]] + insert_by_start(sorted.drop_first(), p)
    } else {
        seq![p] + sorted
    }
}

/// The stable sort of `ps` by start time: programs with equal starts keep
/// their input order.
pub open spec fn sort_by_start_spec(ps: Seq<ProgramView>) -> Seq<ProgramView>
    decreases ps.len(),
{
    if ps.len() == 0 {
        Seq::empty()
    } else {
        insert_by_start(sort_by_start_spec(ps.drop_last()), ps.last())
    }
}

/// When every program before `pos` starts no later than `p` and the one at
/// `pos`, if any, starts later, the stable insertion puts `p` at `pos`.
proof fn lemma_insert_by_start_at(sorted: Seq<ProgramView>, p: ProgramView, pos: int)
    requires
        0 <= pos <= sorted.len(),
        forall|i: int| 0 <= i < pos ==> (#[trigger] sorted[i]).start <= p.start,
        pos < sorted.len() ==> sorted[pos].start > p.start,
    ensures
        insert_by_start(sorted, p) =~= sorted.insert(pos, p),
    decreases pos,
{
    if pos == 0 {
        if sorted.len() == 0 {
            assert(insert_by_start(sorted, p) =~= sorted.insert(0, p));
        } else {
            assert(sorted[0].start > p.start);
            assert(insert_by_start(sorted, p) =~= sorted.insert(0, p));
        }
    } else {
        assert(sorted[0].start <= p.start);
        lemma_insert_by_start_at(sorted.drop_first(), p, pos - 1);
        assert(seq![sorted[0]] + sorted.drop_first().insert(pos - 1, p) =~= sorted.insert(pos, p));
    }
}

/// Stable insertion adds exactly the inserted program to the multiset.
proof fn lemma_insert_by_start_multiset(sorted: Seq<ProgramView>, p: ProgramView)
    ensures
        insert_by_start(sorted, p).to_multiset() == sorted.to_multiset().insert(p),
    decreases sorted.len(),
{
    broadcast use vstd::seq_lib::group_to_multiset_ensures;
    broadcast use vstd::seq_lib::lemma_multiset_commutative;
    broadcast use vstd::multiset::group_multiset_axioms;

    if sorted.len() == 0 {
        assert(insert_by_start(sorted, p) =~= Seq::<ProgramView>::empty().push(p));
        assert(Seq::<ProgramView>::empty().push(p).to_multiset()
            =~= Seq::<ProgramView>::empty().to_multiset().insert(p));
        assert(sorted.to_multiset() =~= Multiset::<ProgramView>::empty());
    } else if sorted[0].start <= p.start {
        lemma_insert_by_start_multiset(sorted.drop_first(), p);
        let rest = insert_by_start(sorted.drop_first(), p);
        let r = insert_by_start(sorted, p);
        assert(r == seq![sorted[0]] + rest);
        assert((seq![sorted[0]] + rest).to_multiset() =~= seq![sorted[0]].to_multiset().add(
            rest.to_multiset(),
        ));
        assert(sorted =~= seq![sorted[0]] + sorted.drop_first());
        assert((seq![sorted[0]] + sorted.drop_first()).to_multiset()
            =~= seq![sorted[0]].to_multiset().add(sorted.drop_first().to_multiset()));
        assert(r.to_multiset() =~= sorted.to_multiset().insert(p));
    } else {
        let r = insert_by_start(sorted, p);
        assert(r == seq![p] + sorted);
        assert((seq![p] + sorted).to_multiset() =~= seq![p].to_multiset().add(
            sorted.to_multiset(),
        ));
        assert(seq![p] =~= Seq::<ProgramView>::empty().push(p));
        assert(Seq::<ProgramView>::empty().push(p).to_multiset()
            =~= Seq::<ProgramView>::empty().to_multiset().insert(p));
        assert(Seq::<ProgramView>::empty().to_multiset() =~= Multiset::<ProgramView>::empty());
        assert(r.to_multiset() =~= sorted.to_multiset().insert(p));
    }
}

/// Stable insertion into a sorted sequence keeps it sorted.
proof fn lemma_insert_by_start_sorted(sorted: Seq<ProgramView>, p: ProgramView)
    requires
        sorted_by_start(sorted),
    ensures
        sorted_by_start(insert_by_start(sorted, p)),
    decreases sorted.len(),
{
    let r = insert_by_start(sorted, p);
    if sorted.len() == 0 {
    } else if sorted[0].start <= p.start {
        assert(sorted_by_start(sorted.drop_first())) by {
            assert(forall|i: int, j: int|
                0 <= i < j < sorted.drop_first().len() ==> (#[trigger] sorted.drop_first()[i]).start
                    <= (#[trigger] sorted.drop_first()[j]).start);
        }
        lemma_insert_by_start_sorted(sorted.drop_first(), p);
        let rest = insert_by_start(sorted.drop_first(), p);
        assert(r =~= seq![sorted[0]] + rest);
        assert forall|i: int, j: int| 0 <= i < j < r.len() implies (#[trigger] r[i]).start <= (
        #[trigger] r[j]).start by {
            if i == 0 {
                assert(r[j] == rest[j - 1]);
                lemma_insert_by_start_head(sorted.drop_first(), p, sorted[0], j - 1);
            } else {
                assert(r[i] == rest[i - 1]);
                assert(r[j] == rest[j - 1]);
            }
        }
    } else {
        assert forall|i: int, j: int| 0 <= i < j < r.len() implies (#[trigger] r[i]).start <= (
        #[trigger] r[j]).start by {
            if i == 0 {
                assert(r[j] == sorted[j - 1]);
                if j - 1 > 0 {
                    assert(sorted[0].start <= sorted[j - 1].start);
                }
            }
        }
    }
}

/// Every program of a stable insertion either was below the head bound
/// already or is the inserted one, itself above the head.
proof fn lemma_insert_by_start_head(sorted: Seq<ProgramView>, p: ProgramView, head: ProgramView, j: int)
    requires
        head.start <= p.start,
        forall|i: int| 0 <= i < sorted.len() ==> head.start <= (#[trigger] sorted[i]).start,
        0 <= j < insert_by_start(sorted, p).len(),
    ensures
        head.start <= insert_by_start(sorted, p)[j].start,
    decreases sorted.len(),
{
    let r = insert_by_start(sorted, p);
    if sorted.len() == 0 {
        assert(r =~= seq![p]);
    } else if sorted[0].start <= p.start {
        assert(r =~= seq![sorted[0]] + insert_by_start(sorted.drop_first(), p));
        if j > 0 {
            lemma_insert_by_start_head(sorted.drop_first(), p, head, j - 1);
        }
    } else {
        assert(r =~= seq![p] + sorted);
    }
}

/// The stable sort is sorted and keeps the multiset of programs.
pub proof fn lemma_sort_by_start_spec_props(ps: Seq<ProgramView>)
    ensures
        sorted_by_start(sort_by_start_spec(ps)),
        sort_by_start_spec(ps).to_multiset() == ps.to_multiset(),
        sort_by_start_spec(ps).len() == ps.len(),
    decreases ps.len(),
{
    broadcast use vstd::seq_lib::group_to_multiset_ensures;
    broadcast use vstd::multiset::group_multiset_axioms;

    if ps.len() == 0 {
        assert(ps.to_multiset() =~= Multiset::<ProgramView>::empty());
        assert(sort_by_start_spec(ps).to_multiset() =~= Multiset::<ProgramView>::empty());
    } else {
        lemma_sort_by_start_spec_props(ps.drop_last());
        lemma_insert_by_start_sorted(sort_by_start_spec(ps.drop_last()), ps.last());
        lemma_insert_by_start_multiset(sort_by_start_spec(ps.drop_last()), ps.last());
        assert(ps =~= ps.drop_last().push(ps.last()));
        assert(ps.drop_last().push(ps.last()).to_multiset() =~= ps.drop_last().to_multiset().insert(
            ps.last(),
        ));
    }
    assert(sort_by_start_spec(ps).len() == sort_by_start_spec(ps).to_multiset().len());
    assert(ps.len() == ps.to_multiset().len());
}

/// Sorts a program list by start time, ascending and stable: the result is
/// exactly the stable sort of the input, so programs with equal starts
/// keep their relative order.
pub fn sort_programs_by_start(v: &mut Vec<Program>)
    ensures
        final(v).deep_view() == sort_by_start_spec(old(v).deep_view()),
        sorted_by_start(final(v).deep_view()),
        final(v).deep_view().to_multiset() == old(v).deep_view().to_multiset(),
        final(v)@.len() == old(v)@.len(),
{
    let ghost input = old(v).deep_view();
    let mut out: Vec<Program> = Vec::new();
    let ghost mut done: int = 0;
    assert(input.take(0) =~= Seq::<ProgramView>::empty());
    assert(out.deep_view() =~= Seq::<ProgramView>::empty());
    assert(input.skip(0) =~= input);
    while v.len() > 0
        invariant
            input == old(v).deep_view(),
            0 <= done <= input.len(),
            v.deep_view() =~= input.skip(done),
            out.deep_view() == sort_by_start_spec(input.take(done)),
            out@.len() == done,
        decreases v@.len(),
    {
        let ghost v_before = v.deep_view();
        proof {
            assert(v_before.len() == v@.len());
            assert(v_before.len() == input.len() - done);
        }
        let p = v.remove(0);
        proof {
            assert(v_before[0] == input[done]);
            assert(p.deep_view() == input[done]);
            assert(v.deep_view() =~= v_before.skip(1));
            assert(input.skip(done).skip(1) =~= input.skip(done + 1));
        }
        let ghost sorted = out.deep_view();
        let mut pos: usize = 0;
        while pos < out.len() && out[pos].start <= p.start
            invariant
                sorted == out.deep_view(),
                0 <= pos <= out.len(),
                forall|i: int| 0 <= i < pos ==> (#[trigger] sorted[i]).start <= p@.start,
            decreases out.len() - pos,
        {
            proof {
                assert(sorted[pos as int] == out@[pos as int].deep_view());
            }
            pos += 1;
        }
        proof {
            if pos < out@.len() {
                assert(sorted[pos as int] == out@[pos as int].deep_view());
                assert(sorted[pos as int].start > p@.start);
            }
            lemma_insert_by_start_at(sorted, p@, pos as int);
        }
        let ghost out_before = out.deep_view();
        out.insert(pos, p);
        proof {
            broadcast use vstd::seq_lib::group_seq_properties;

            assert(out.deep_view() =~= out_before.insert(pos as int, p@));
            assert(input.take(done + 1).drop_last() =~= input.take(done));
            assert(input.take(done + 1).last() == input[done]);
            done = done + 1;
        }
    }
    assert(input.take(done) =~= input);
    proof {
        lemma_sort_by_start_spec_props(input);
    }
    *v = out;
}

/// Returns every program stored for the channel named exactly
/// `channel_name`, across all sources, sorted by start time.  An unknown
/// channel, or a store that was never created, yields the empty list; this
/// query never fails.
pub fn get_programs_by_channel(store: Option<&EpgStore>, channel_name: String) -> (r: Vec<Program>)
    ensures
        r.deep_view() == sort_by_start_spec(channel_programs_spec(opt_sources(store), channel_name@)),
        sorted_by_start(r.deep_view()),
        r.deep_view().to_multiset() == channel_programs_spec(
            opt_sources(store),
            channel_name@,
        ).to_multiset(),
{
    let mut acc: Vec<Program> = Vec::new();
    let ghost ss = opt_sources(store);
    match store {
        None => {
            assert(acc.deep_view() =~= Seq::<ProgramView>::empty());
        },
        Some(st) => {
            let mut i: usize = 0;
            assert(acc.deep_view() =~= Seq::<ProgramView>::empty());
            assert(ss.skip(0) =~= ss);
            while i < st.sources.len()
                invariant
                    ss == st@,
                    0 <= i <= st.sources.len(),
                    acc.deep_view() + channel_programs_spec(ss.skip(i as int), channel_name@)
                        =~= channel_programs_spec(ss, channel_name@),
                decreases st.sources.len() - i,
            {
                proof {
                    assert(ss[i as int] == st.sources@[i as int].deep_view());
                    assert(ss.skip(i as int)[0] == ss[i as int]);
                    assert(ss.skip(i as int).drop_first() =~= ss.skip(i + 1));
                }
                let src = &st.sources[i];
                let ghost acc_before = acc.deep_view();
                match find_group(src, &channel_name) {
                    Some(g) => {
                        extend_with_copies(&mut acc, &g.programs);
                        proof {
                            assert(acc.deep_view() + channel_programs_spec(
                                ss.skip(i + 1),
                                channel_name@,
                            ) =~= channel_programs_spec(ss, channel_name@));
                        }
                    },
                    None => {
                        proof {
                            assert(acc.deep_view() + channel_programs_spec(
                                ss.skip(i + 1),
                                channel_name@,
                            ) =~= channel_programs_spec(ss, channel_name@));
                        }
                    },
                }
                i += 1;
            }
            proof {
                assert(ss.skip(st.sources@.len() as int) =~= Seq::<SourceView>::empty());
                assert(acc.deep_view() + Seq::<ProgramView>::empty() =~= acc.deep_view());
            }
        },
    }
    assert(acc.deep_view() == channel_programs_spec(ss, channel_name@));
    sort_programs_by_start(&mut acc);
    acc
}

} // verus!
