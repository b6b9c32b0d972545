//! Grouping a decoded program list by channel display name.

use vstd::multiset::Multiset;
use vstd::prelude::*;

use crate::program::{Program, ProgramView};
use crate::store::{group_wf, ChannelPrograms, ChannelProgramsView};

verus! {

/// Adds `p` to the first group whose channel equals `p.channel`, or appends
/// a fresh group at the end.
pub open spec fn insert_grouped(gs: Seq<ChannelProgramsView>, p: ProgramView) -> Seq<
    ChannelProgramsView,
>
    decreases gs.len(),
{
    if gs.len() == 0 {
        seq![ChannelProgramsView { channel: p.channel, programs: seq![p] }]
    } else if gs[0].channel == p.channel {
        seq![
            ChannelProgramsView { channel: gs[0].channel, programs: gs[0].programs.push(p) },
        ] + gs.drop_first()
    } else {
        seq![gs[0]] + insert_grouped(gs.drop_first(), p)
    }
}

/// The grouping of `ps` by channel: channels in first-appearance order, the
/// programs of each channel in input order.
pub open spec fn group_by_channel_spec(ps: Seq<ProgramView>) -> Seq<ChannelProgramsView>
    decreases ps.len(),
{
    if ps.len() == 0 {
        Seq::empty()
    } else {
        insert_grouped(group_by_channel_spec(ps.drop_last()), ps.last())
    }
}

/// Every group is well formed and no two groups share a channel.
pub open spec fn groups_wf(gs: Seq<ChannelProgramsView>) -> bool {
    &&& forall|i: int| 0 <= i < gs.len() ==> group_wf(#[trigger] gs[i])
    &&& forall|i: int, j: int|
        0 <= i < j < gs.len() ==> (#[trigger] gs[i]).channel != (#[trigger] gs[j]).channel
}

/// All programs of all groups, in group order.
pub open spec fn flatten_groups(gs: Seq<ChannelProgramsView>) -> Seq<ProgramView>
    decreases gs.len(),
{
    if gs.len() == 0 {
        Seq::empty()
    } else {
        gs[0].programs + flatten_groups(gs.drop_first())
    }
}

/// When the first group carrying `p.channel` stands at `j`, inserting `p`
/// only extends that group.
proof fn lemma_insert_grouped_update(gs: Seq<ChannelProgramsView>, p: ProgramView, j: int)
    requires
        0 <= j < gs.len(),
        forall|i: int| 0 <= i < j ==> (#[trigger] gs[i]).channel != p.channel,
        gs[j].channel == p.channel,
    ensures
        insert_grouped(gs, p) =~= gs.update(
            j,
            ChannelProgramsView { channel: gs[j].channel, programs: gs[j].programs.push(p) },
        ),
    decreases j,
{
    if j == 0 {
    } else {
        assert(gs[0].channel != p.channel);
        lemma_insert_grouped_update(gs.drop_first(), p, j - 1);
        assert(gs.drop_first()[j - 1] == gs[j]);
        assert(seq![gs[0]] + gs.drop_first().update(
            j - 1,
            ChannelProgramsView { channel: gs[j].channel, programs: gs[j].programs.push(p) },
        ) =~= gs.update(
            j,
            ChannelProgramsView { channel: gs[j].channel, programs: gs[j].programs.push(p) },
        ));
    }
}

/// When no group carries `p.channel`, inserting `p` appends a fresh group.
proof fn lemma_insert_grouped_append(gs: Seq<ChannelProgramsView>, p: ProgramView)
    requires
        forall|i: int| 0 <= i < gs.len() ==> (#[trigger] gs[i]).channel != p.channel,
    ensures
        insert_grouped(gs, p) =~= gs.push(
            ChannelProgramsView { channel: p.channel, programs: seq![p] },
        ),
    decreases gs.len(),
{
    if gs.len() == 0 {
    } else {
        lemma_insert_grouped_append(gs.drop_first(), p);
        assert(seq![gs[0]] + gs.drop_first().push(
            ChannelProgramsView { channel: p.channel, programs: seq![p] },
        ) =~= gs.push(ChannelProgramsView { channel: p.channel, programs: seq![p] }));
    }
}

/// Inserting one program adds exactly that program to the flattened whole.
proof fn lemma_insert_grouped_flatten(gs: Seq<ChannelProgramsView>, p: ProgramView)
    ensures
        flatten_groups(insert_grouped(gs, p)).to_multiset() =~= flatten_groups(
            gs,
        ).to_multiset().insert(p),
    decreases gs.len(),
{
    broadcast use vstd::seq_lib::lemma_multiset_commutative;
    broadcast use vstd::seq_lib::group_to_multiset_ensures;
    broadcast use vstd::seq_lib::group_seq_properties;
    broadcast use vstd::multiset::group_multiset_axioms;

    if gs.len() == 0 {
        let g = ChannelProgramsView { channel: p.channel, programs: seq![p] };
        assert(insert_grouped(gs, p) =~= seq![g]);
        assert(seq![g].drop_first() =~= Seq::<ChannelProgramsView>::empty());
        assert(flatten_groups(seq![g]) == g.programs + flatten_groups(
            seq![g].drop_first(),
        ));
        assert(flatten_groups(seq![g]) =~= seq![p]);
        assert(seq![p] =~= Seq::<ProgramView>::empty().push(p));
        assert(flatten_groups(gs) =~= Seq::<ProgramView>::empty());
        assert(Seq::<ProgramView>::empty().to_multiset() =~= Multiset::<ProgramView>::empty());
    } else if gs[0].channel == p.channel {
        let g = ChannelProgramsView { channel: gs[0].channel, programs: gs[0].programs.push(p) };
        let r = insert_grouped(gs, p);
        assert(r =~= seq![g] + gs.drop_first());
        assert(r[0] == g);
        assert(r.drop_first() =~= gs.drop_first());
        assert(flatten_groups(r) == g.programs + flatten_groups(gs.drop_first()));
        assert((gs[0].programs.push(p) + flatten_groups(gs.drop_first())).to_multiset()
            =~= (gs[0].programs + flatten_groups(gs.drop_first())).to_multiset().insert(p));
    } else {
        lemma_insert_grouped_flatten(gs.drop_first(), p);
        let r = insert_grouped(gs, p);
        assert(r =~= seq![gs[0]] + insert_grouped(gs.drop_first(), p));
        assert(r[0] == gs[0]);
        assert(r.drop_first() =~= insert_grouped(gs.drop_first(), p));
        assert(flatten_groups(r) == gs[0].programs + flatten_groups(
            insert_grouped(gs.drop_first(), p),
        ));
        assert((gs[0].programs + flatten_groups(insert_grouped(gs.drop_first(), p))).to_multiset()
            =~= (gs[0].programs + flatten_groups(gs.drop_first())).to_multiset().insert(p));
    }
}

/// Grouping by channel then flattening yields the same multiset of programs:
/// nothing is lost and nothing is duplicated.
pub proof fn lemma_group_round_trip(ps: Seq<ProgramView>)
    ensures
        flatten_groups(group_by_channel_spec(ps)).to_multiset() == ps.to_multiset(),
    decreases ps.len(),
{
    broadcast use vstd::seq_lib::group_to_multiset_ensures;
    broadcast use vstd::seq_lib::group_seq_properties;
    broadcast use vstd::multiset::group_multiset_axioms;

    if ps.len() == 0 {
        assert(flatten_groups(group_by_channel_spec(ps)) =~= Seq::<ProgramView>::empty());
        assert(ps.to_multiset() =~= Multiset::<ProgramView>::empty());
        assert(Seq::<ProgramView>::empty().to_multiset() =~= Multiset::<ProgramView>::empty());
    } else {
        lemma_group_round_trip(ps.drop_last());
        lemma_insert_grouped_flatten(group_by_channel_spec(ps.drop_last()), ps.last());
        assert(ps =~= ps.drop_last().push(ps.last()));
        assert(ps.drop_last().push(ps.last()).to_multiset() =~= ps.drop_last().to_multiset().insert(
            ps.last(),
        ));
        assert(flatten_groups(group_by_channel_spec(ps)).to_multiset() =~= ps.to_multiset());
    }
}

/// Adds `p` to the group holding its channel, or opens a new group.
fn push_into_groups(groups: &mut Vec<ChannelPrograms>, p: Program)
    requires
        groups_wf(old(groups).deep_view()),
    ensures
        final(groups).deep_view() == insert_grouped(old(groups).deep_view(), p@),
        groups_wf(final(groups).deep_view()),
{
    let ghost gs = old(groups).deep_view();
    let mut j: usize = 0;
    while j < groups.len()
        invariant
            gs == old(groups).deep_view(),
            groups_wf(gs),
            0 <= j <= groups.len(),
            groups.deep_view() == gs,
            forall|i: int| 0 <= i < j ==> (#[trigger] gs[i]).channel != p@.channel,
        decreases groups.len() - j,
    {
        proof {
            assert(gs[j as int] == groups@[j as int].deep_view());
        }
        if groups[j].channel == p.channel {
            let ghost updated = ChannelProgramsView {
                channel: gs[j as int].channel,
                programs: gs[j as int].programs.push(p@),
            };
            let ghost shallow = groups@;
            let mut g = groups.remove(j);
            proof {
                assert(g.deep_view() == gs[j as int]);
            }
            g.programs.push(p);
            proof {
                assert(g.programs.deep_view() =~= gs[j as int].programs.push(p@));
                assert(g.deep_view() == updated);
            }
            groups.insert(j, g);
            proof {
                broadcast use vstd::seq_lib::group_seq_properties;

                lemma_insert_grouped_update(gs, p@, j as int);
                assert(groups@[j as int] == g);
                assert(groups@ =~= shallow.update(j as int, groups@[j as int]));
                assert(forall|i: int|
                    0 <= i < gs.len() ==> gs[i] == (#[trigger] shallow[i]).deep_view());
                assert(groups.deep_view() =~= gs.update(j as int, updated));
                assert(insert_grouped(gs, p@) =~= gs.update(j as int, updated));
                assert(groups.deep_view() == insert_grouped(gs, p@));
                assert forall|i: int| 0 <= i < gs.len() implies group_wf(
                    #[trigger] groups.deep_view()[i],
                ) by {
                    assert(group_wf(gs[i]));
                    if i == j as int {
                        assert(forall|k: int|
                            0 <= k < updated.programs.len() ==> #[trigger] updated.programs[k].channel
                                == updated.channel);
                    }
                }
            }
            return ;
        }
        j += 1;
    }
    proof {
        lemma_insert_grouped_append(gs, p@);
    }
    let key = p.channel.clone();
    let mut fresh: Vec<Program> = Vec::new();
    fresh.push(p);
    groups.push(ChannelPrograms { channel: key, programs: fresh });
    proof {
        let added = ChannelProgramsView { channel: p@.channel, programs: seq![p@] };
        assert(fresh.deep_view() =~= seq![p@]);
        assert(groups.deep_view() =~= gs.push(added));
        assert forall|i: int| 0 <= i < groups.deep_view().len() implies group_wf(
            #[trigger] groups.deep_view()[i],
        ) by {
            if i < gs.len() {
                assert(group_wf(gs[i]));
            }
        }
    }
}

/// Groups the decoded programs by their channel display name: channels in
/// first-appearance order, each channel's programs in input order.
pub fn group_by_channel(programs: Vec<Program>) -> (r: Vec<ChannelPrograms>)
    ensures
        r.deep_view() == group_by_channel_spec(programs.deep_view()),
        groups_wf(r.deep_view()),
{
    let ghost all = programs.deep_view();
    let mut rest = programs;
    let mut groups: Vec<ChannelPrograms> = Vec::new();
    let ghost mut done: int = 0;
    assert(all.take(0) =~= Seq::<ProgramView>::empty());
    assert(groups.deep_view() =~= Seq::<ChannelProgramsView>::empty());
    while rest.len() > 0
        invariant
            0 <= done <= all.len(),
            rest.deep_view() =~= all.skip(done),
            groups.deep_view() == group_by_channel_spec(all.take(done)),
            groups_wf(groups.deep_view()),
        decreases rest.len(),
    {
        let ghost rest_before = rest.deep_view();
        proof {
            assert(rest_before.len() == rest@.len());
            assert(rest_before.len() == all.len() - done);
        }
        let p = rest.remove(0);
        proof {
            assert(rest_before[0] == all[done]);
            assert(p.deep_view() == all[done]);
            assert(rest.deep_view() =~= rest_before.skip(1));
            assert(all.skip(done).skip(1) =~= all.skip(done + 1));
        }
        push_into_groups(&mut groups, p);
        proof {
            assert(all.take(done + 1).drop_last() =~= all.take(done));
            assert(all.take(done + 1).last() == all[done]);
            assert(groups.deep_view() == insert_grouped(
                group_by_channel_spec(all.take(done)),
                all[done],
            ));
            done = done + 1;
        }
    }
    assert(all.take(done) =~= all);
    groups
}

} // verus!
