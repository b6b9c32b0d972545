//! The windowed grid query: channels from an allowlist whose stored
//! programs overlap a requested time window, sorted by display name and
//! paginated, each with its overlapping programs sorted by start time.

use vstd::multiset::Multiset;
use vstd::prelude::*;

use crate::program::{clone_opt_string, Program, ProgramView};
use crate::query::{
    channel_programs_spec, find_channel, opt_sources, sort_programs_by_start, sorted_by_start,
};
use crate::store::{store_wf, ChannelProgramsView, EpgStore, SourceView};
use crate::text::{lemma_seq_char_le_total, lemma_seq_char_le_trans, seq_char_le};
use crate::trusted::{parse_xmltv_datetime, str_le, trim_of, trim_owned, xmltv_instant_of};

verus! {

/// Model of one grid row.
pub ghost struct RowView {
    pub id: Seq<char>,
    pub name: Seq<char>,
    pub icon: Option<Seq<char>>,
    pub programs: Seq<ProgramView>,
}

/// One grid row: a channel (keyed by its stored id, shown under its
/// trimmed display name, with the icon of its first overlapping program)
/// and its programs overlapping the window, sorted by start time.
#[derive(Debug)]
pub struct EpgChannelWithPrograms {
    pub id: String,
    pub name: String,
    pub icon: Option<String>,
    pub programs: Vec<Program>,
}

impl View for EpgChannelWithPrograms {
    type V = RowView;

    open spec fn view(&self) -> RowView {
        RowView {
            id: self.id@,
            name: self.name@,
            icon: self.icon.deep_view(),
            programs: self.programs.deep_view(),
        }
    }
}

impl DeepView for EpgChannelWithPrograms {
    type V = RowView;

    open spec fn deep_view(&self) -> RowView {
        self.view()
    }
}

impl EpgChannelWithPrograms {
    /// A field-by-field copy whose model equals this row's.
    pub fn duplicate(&self) -> (r: EpgChannelWithPrograms)
        ensures
            r@ == self@,
    {
        let mut programs: Vec<Program> = Vec::new();
        crate::query::extend_with_copies(&mut programs, &self.programs);
        assert(programs.deep_view() =~= self.programs.deep_view());
        EpgChannelWithPrograms {
            id: self.id.clone(),
            name: self.name.clone(),
            icon: clone_opt_string(&self.icon),
            programs,
        }
    }
}

/// The program's interval intersects the window: it starts no later than
/// the window ends and stops no earlier than the window starts.
pub open spec fn overlaps(p: ProgramView, s: int, e: int) -> bool {
    p.start <= e && p.stop >= s
}

/// The overlap test as a predicate on programs.
pub open spec fn overlap_pred(s: int, e: int) -> spec_fn(ProgramView) -> bool {
    |p: ProgramView| overlaps(p, s, e)
}

/// All programs stored under `key`, merged across sources in store order,
/// keeping exactly those overlapping the window.
pub open spec fn window_programs(ss: Seq<SourceView>, key: Seq<char>, s: int, e: int) -> Seq<
    ProgramView,
> {
    channel_programs_spec(ss, key).filter(overlap_pred(s, e))
}

/// Some source stores a group under `key`.
pub open spec fn key_present(ss: Seq<SourceView>, key: Seq<char>) -> bool {
    exists|i: int| 0 <= i < ss.len() && find_channel((#[trigger] ss[i]).channels, key) is Some
}

/// Some allowlisted name matches `key` after trimming both.
pub open spec fn name_allowed(names: Seq<Seq<char>>, key: Seq<char>) -> bool {
    exists|i: int| 0 <= i < names.len() && trim_of(#[trigger] names[i]) == trim_of(key)
}

/// The row correctly presents its channel: trimmed name, the icon of the
/// first overlapping program in store order, and exactly the overlapping
/// programs, sorted by start time.
pub open spec fn grid_row_ok(ss: Seq<SourceView>, s: int, e: int, row: RowView) -> bool {
    let f = window_programs(ss, row.id, s, e);
    &&& row.name == trim_of(row.id)
    &&& f.len() > 0
    &&& row.icon == f[0].icon
    &&& row.programs == crate::query::sort_by_start_spec(f)
    &&& sorted_by_start(row.programs)
    &&& row.programs.to_multiset() == f.to_multiset()
}

/// `rows` is the full (unpaginated) grid: one correct row per allowlisted,
/// present channel with at least one overlapping program, no channel
/// twice, sorted by display name.
pub open spec fn grid_rows_complete(
    ss: Seq<SourceView>,
    names: Seq<Seq<char>>,
    s: int,
    e: int,
    rows: Seq<RowView>,
) -> bool {
    &&& forall|i: int| 0 <= i < rows.len() ==> key_present(ss, (#[trigger] rows[i]).id)
    &&& forall|i: int| 0 <= i < rows.len() ==> name_allowed(names, (#[trigger] rows[i]).id)
    &&& forall|i: int| 0 <= i < rows.len() ==> grid_row_ok(ss, s, e, #[trigger] rows[i])
    &&& forall|i: int, j: int|
        0 <= i < j < rows.len() ==> (#[trigger] rows[i]).id != (#[trigger] rows[j]).id
    &&& forall|key: Seq<char>|
        key_present(ss, key) && name_allowed(names, key) && #[trigger] window_programs(
            ss,
            key,
            s,
            e,
        ).len() > 0 ==> exists|i: int| 0 <= i < rows.len() && (#[trigger] rows[i]).id == key
    &&& forall|i: int, j: int|
        0 <= i < j < rows.len() ==> seq_char_le((#[trigger] rows[i]).name, (#[trigger] rows[j]).name)
}

/// The page `[skip, skip + limit)` of the full grid, both bounds clamped
/// to the number of rows.
pub open spec fn grid_page(rows: Seq<RowView>, skip: int, limit: int) -> Seq<RowView> {
    let lo = if skip <= rows.len() {
        skip
    } else {
        rows.len() as int
    };
    let hi = if skip + limit <= rows.len() {
        skip + limit
    } else {
        rows.len() as int
    };
    rows.subrange(lo, if lo <= hi { hi } else { lo })
}

/// A group keyed `key` exists exactly when some index holds it.
proof fn lemma_find_channel_exists(gs: Seq<ChannelProgramsView>, key: Seq<char>)
    ensures
        (find_channel(gs, key) is Some) <==> exists|j: int|
            0 <= j < gs.len() && (#[trigger] gs[j]).channel == key,
    decreases gs.len(),
{
    if gs.len() == 0 {
    } else {
        lemma_find_channel_exists(gs.drop_first(), key);
        if gs[0].channel == key {
        } else {
            assert forall|j: int| 0 <= j < gs.len() && (#[trigger] gs[j]).channel == key implies (
            find_channel(gs, key) is Some) by {
                assert(gs.drop_first()[j - 1] == gs[j]);
            }
            if find_channel(gs, key) is Some {
                let j = choose|j: int|
                    0 <= j < gs.drop_first().len() && (#[trigger] gs.drop_first()[j]).channel
                        == key;
                assert(gs[j + 1] == gs.drop_first()[j]);
            }
        }
    }
}

/// Whether some allowlisted name matches `key` after trimming.
fn name_allowed_exec(names: &Vec<String>, key: &String) -> (r: bool)
    ensures
        r == name_allowed(names.deep_view(), key@),
{
    let key_trim = trim_owned(key.as_str());
    let ghost ns = names.deep_view();
    let mut i: usize = 0;
    while i < names.len()
        invariant
            ns == names.deep_view(),
            key_trim@ == trim_of(key@),
            0 <= i <= names.len(),
            forall|a: int| 0 <= a < i ==> trim_of(#[trigger] ns[a]) != trim_of(key@),
        decreases names.len() - i,
    {
        proof {
            assert(ns[i as int] == names@[i as int].deep_view());
        }
        let name_trim = trim_owned(names[i].as_str());
        if name_trim == key_trim {
            return true;
        }
        i += 1;
    }
    false
}

/// Whether `keys` already holds `key`.
fn contains_key(keys: &Vec<String>, key: &String) -> (r: bool)
    ensures
        r == keys.deep_view().contains(key@),
{
    let ghost ks = keys.deep_view();
    let mut i: usize = 0;
    while i < keys.len()
        invariant
            ks == keys.deep_view(),
            0 <= i <= keys.len(),
            forall|a: int| 0 <= a < i ==> #[trigger] ks[a] != key@,
        decreases keys.len() - i,
    {
        proof {
            assert(ks[i as int] == keys@[i as int].deep_view());
        }
        if keys[i] == *key {
            assert(ks.contains(key@));
            return true;
        }
        i += 1;
    }
    assert(!ks.contains(key@));
    false
}

/// Collects, source by source, a copy of every stored program of `key`
/// that overlaps the window, in store order.
fn collect_window_programs(st: &EpgStore, key: &String, s: i64, e: i64) -> (r: Vec<Program>)
    ensures
        r.deep_view() == window_programs(st@, key@, s as int, e as int),
{
    broadcast use Seq::lemma_filter_push;
    broadcast use Seq::filter_distributes_over_add;

    let ghost ss = st@;
    let ghost ov = overlap_pred(s as int, e as int);
    let mut acc: Vec<Program> = Vec::new();
    let ghost mut prefix: Seq<ProgramView> = Seq::empty();
    let mut i: usize = 0;
    assert(Seq::<ProgramView>::empty().filter(ov) =~= Seq::<ProgramView>::empty()) by {
        reveal(Seq::filter);
    }
    assert(acc.deep_view() =~= Seq::<ProgramView>::empty());
    assert(ss.skip(0) =~= ss);
    while i < st.sources.len()
        invariant
            ss == st@,
            ov == overlap_pred(s as int, e as int),
            0 <= i <= st.sources.len(),
            prefix + channel_programs_spec(ss.skip(i as int), key@) =~= channel_programs_spec(
                ss,
                key@,
            ),
            acc.deep_view() =~= prefix.filter(ov),
        decreases st.sources.len() - i,
    {
        proof {
            assert(ss[i as int] == st.sources@[i as int].deep_view());
            assert(ss.skip(i as int)[0] == ss[i as int]);
            assert(ss.skip(i as int).drop_first() =~= ss.skip(i + 1));
        }
        let src = &st.sources[i];
        match crate::query::find_group(src, key) {
            Some(g) => {
                let ghost gp = g.programs.deep_view();
                let mut j: usize = 0;
                assert(gp.take(0) =~= Seq::<ProgramView>::empty());
                assert(Seq::<ProgramView>::empty().filter(ov) =~= Seq::<ProgramView>::empty())
                    by {
                    reveal(Seq::filter);
                }
                while j < g.programs.len()
                    invariant
                        gp == g.programs.deep_view(),
                        ov == overlap_pred(s as int, e as int),
                        0 <= j <= g.programs.len(),
                        acc.deep_view() =~= prefix.filter(ov) + gp.take(j as int).filter(ov),
                    decreases g.programs.len() - j,
                {
                    proof {
                        assert(gp[j as int] == g.programs@[j as int].deep_view());
                        assert(gp.take(j + 1) =~= gp.take(j as int).push(gp[j as int]));
                    }
                    let ghost acc_before = acc.deep_view();
                    proof {
                        gp.take(j as int).lemma_filter_push(gp[j as int], ov);
                        assert(gp.take(j as int).push(gp[j as int]).filter(ov) == gp.take(
                            j + 1,
                        ).filter(ov));
                    }
                    let p = &g.programs[j];
                    if p.start <= e && p.stop >= s {
                        acc.push(p.duplicate());
                        proof {
                            assert(ov(gp[j as int]));
                            assert(acc.deep_view() =~= acc_before.push(gp[j as int]));
                            assert((prefix.filter(ov) + gp.take(j as int).filter(ov)).push(
                                gp[j as int],
                            ) =~= prefix.filter(ov) + gp.take(j as int).filter(ov).push(
                                gp[j as int],
                            ));
                        }
                    } else {
                        proof {
                            assert(!ov(gp[j as int]));
                        }
                    }
                    proof {
                        assert(acc.deep_view() =~= prefix.filter(ov) + gp.take(j + 1).filter(ov));
                    }
                    j += 1;
                }
                proof {
                    assert(gp.take(g.programs@.len() as int) =~= gp);
                    prefix = prefix + gp;
                }
            },
            None => {
                proof {
                    prefix = prefix + Seq::<ProgramView>::empty();
                    assert(prefix.filter(ov) =~= acc.deep_view());
                }
            },
        }
        i += 1;
    }
    proof {
        assert(ss.skip(st.sources@.len() as int) =~= Seq::<SourceView>::empty());
        assert(prefix + Seq::<ProgramView>::empty() =~= prefix);
        assert(prefix =~= channel_programs_spec(ss, key@));
    }
    acc
}

/// Extends `acc` with every not yet collected, allowlisted key of the
/// groups, in group order.
pub open spec fn scan_groups(
    acc: Seq<Seq<char>>,
    gs: Seq<ChannelProgramsView>,
    names: Seq<Seq<char>>,
) -> Seq<Seq<char>>
    decreases gs.len(),
{
    if gs.len() == 0 {
        acc
    } else {
        let key = gs[0].channel;
        let acc2 = if !acc.contains(key) && name_allowed(names, key) {
            acc.push(key)
        } else {
            acc
        };
        scan_groups(acc2, gs.drop_first(), names)
    }
}

/// Extends `acc` source by source with the allowlisted keys.
pub open spec fn scan_sources(
    acc: Seq<Seq<char>>,
    ss: Seq<SourceView>,
    names: Seq<Seq<char>>,
) -> Seq<Seq<char>>
    decreases ss.len(),
{
    if ss.len() == 0 {
        acc
    } else {
        scan_sources(scan_groups(acc, ss[0].channels, names), ss.drop_first(), names)
    }
}

/// The distinct allowlisted channel keys of the store, in first-appearance
/// order over sources and groups.
pub open spec fn candidate_keys_spec(ss: Seq<SourceView>, names: Seq<Seq<char>>) -> Seq<Seq<char>> {
    scan_sources(Seq::empty(), ss, names)
}

/// One row per candidate key with at least one overlapping program, in key
/// order, before sorting by name.
pub open spec fn rows_for_keys(
    ss: Seq<SourceView>,
    s: int,
    e: int,
    keys: Seq<Seq<char>>,
) -> Seq<RowView>
    decreases keys.len(),
{
    if keys.len() == 0 {
        Seq::empty()
    } else {
        let f = window_programs(ss, keys[0], s, e);
        let rest = rows_for_keys(ss, s, e, keys.drop_first());
        if f.len() > 0 {
            seq![
                RowView {
                    id: keys[0],
                    name: trim_of(keys[0]),
                    icon: f[0].icon,
                    programs: crate::query::sort_by_start_spec(f),
                },
            ] + rest
        } else {
            rest
        }
    }
}

/// The full, name-sorted grid of a store and allowlist over a window.
pub open spec fn grid_full_spec(
    ss: Seq<SourceView>,
    names: Seq<Seq<char>>,
    s: int,
    e: int,
) -> Seq<RowView> {
    sort_by_name_spec(rows_for_keys(ss, s, e, candidate_keys_spec(ss, names)))
}

/// Keys already handled by the candidate scan: every key of a group in a
/// source before `i`, or of a group before `j` in source `i`.
spec fn scanned_key(ss: Seq<SourceView>, i: int, j: int, key: Seq<char>) -> bool {
    ||| exists|a: int| 0 <= a < i && find_channel((#[trigger] ss[a]).channels, key) is Some
    ||| (0 <= i < ss.len() && exists|b: int|
        0 <= b < j && (#[trigger] ss[i].channels[b]).channel == key)
}

/// Collects each distinct stored channel key whose trimmed name stands in
/// the trimmed allowlist, in first-appearance order over sources and
/// groups.
fn collect_candidate_keys(st: &EpgStore, names: &Vec<String>) -> (keys: Vec<String>)
    ensures
        keys.deep_view() == candidate_keys_spec(st@, names.deep_view()),
        forall|k: int|
            0 <= k < keys.deep_view().len() ==> key_present(st@, #[trigger] keys.deep_view()[k])
                && name_allowed(names.deep_view(), keys.deep_view()[k]),
        forall|k1: int, k2: int|
            0 <= k1 < k2 < keys.deep_view().len() ==> keys.deep_view()[k1] != keys.deep_view()[k2],
        forall|key: Seq<char>|
            key_present(st@, key) && #[trigger] name_allowed(names.deep_view(), key)
                ==> keys.deep_view().contains(key),
{
    broadcast use vstd::seq_lib::group_seq_properties;

    let ghost ss = st@;
    let ghost ns = names.deep_view();
    let mut keys: Vec<String> = Vec::new();
    let mut i: usize = 0;
    assert(keys.deep_view() =~= Seq::<Seq<char>>::empty());
    assert(ss.skip(0) =~= ss);
    while i < st.sources.len()
        invariant
            ss == st@,
            ns == names.deep_view(),
            0 <= i <= st.sources.len(),
            scan_sources(keys.deep_view(), ss.skip(i as int), ns) == candidate_keys_spec(ss, ns),
            forall|k: int|
                0 <= k < keys.deep_view().len() ==> key_present(ss, #[trigger] keys.deep_view()[k])
                    && name_allowed(ns, keys.deep_view()[k]),
            forall|k1: int, k2: int|
                0 <= k1 < k2 < keys.deep_view().len() ==> keys.deep_view()[k1]
                    != keys.deep_view()[k2],
            forall|key: Seq<char>|
                scanned_key(ss, i as int, 0, key) && #[trigger] name_allowed(ns, key)
                    ==> keys.deep_view().contains(key),
        decreases st.sources.len() - i,
    {
        proof {
            assert(ss[i as int] == st.sources@[i as int].deep_view());
        }
        let src = &st.sources[i];
        let ghost gs = ss[i as int].channels;
        proof {
            assert(ss.skip(i as int)[0] == ss[i as int]);
            assert(ss.skip(i as int).drop_first() =~= ss.skip(i + 1));
            assert(gs.skip(0) =~= gs);
        }
        let mut j: usize = 0;
        while j < src.channels.len()
            invariant
                ss == st@,
                ns == names.deep_view(),
                0 <= i < st.sources@.len(),
                gs == ss[i as int].channels,
                gs == src@.channels,
                src == st.sources@[i as int],
                0 <= i < ss.len(),
                0 <= j <= src.channels.len(),
                scan_sources(
                    scan_groups(keys.deep_view(), gs.skip(j as int), ns),
                    ss.skip(i + 1),
                    ns,
                ) == candidate_keys_spec(ss, ns),
                forall|k: int|
                    0 <= k < keys.deep_view().len() ==> key_present(
                        ss,
                        #[trigger] keys.deep_view()[k],
                    ) && name_allowed(ns, keys.deep_view()[k]),
                forall|k1: int, k2: int|
                    0 <= k1 < k2 < keys.deep_view().len() ==> keys.deep_view()[k1]
                        != keys.deep_view()[k2],
                forall|key: Seq<char>|
                    scanned_key(ss, i as int, j as int, key) && #[trigger] name_allowed(ns, key)
                        ==> keys.deep_view().contains(key),
            decreases src.channels.len() - j,
        {
            proof {
                assert(gs[j as int] == src.channels@[j as int].deep_view());
            }
            let key = &src.channels[j].channel;
            let ghost keys_before = keys.deep_view();
            let known = contains_key(&keys, key);
            if !known {
                if name_allowed_exec(names, key) {
                    keys.push(key.clone());
                    proof {
                        assert(keys.deep_view() =~= keys_before.push(key@));
                        lemma_find_channel_exists(gs, key@);
                        assert(gs[j as int].channel == key@);
                        assert(key_present(ss, key@));
                    }
                }
            }
            proof {
                let ghost pushed = !known && name_allowed(ns, gs[j as int].channel);
                if pushed {
                    assert(keys.deep_view() =~= keys_before.push(gs[j as int].channel));
                } else {
                    assert(keys.deep_view() == keys_before);
                }
                assert(gs.skip(j as int)[0] == gs[j as int]);
                assert(gs.skip(j as int).drop_first() =~= gs.skip(j + 1));
                assert(scan_groups(keys_before, gs.skip(j as int), ns) == scan_groups(
                    keys.deep_view(),
                    gs.skip(j + 1),
                    ns,
                ));
                assert forall|key2: Seq<char>|
                    scanned_key(ss, i as int, j + 1, key2) && #[trigger] name_allowed(ns, key2)
                        implies keys.deep_view().contains(key2) by {
                    if scanned_key(ss, i as int, j as int, key2) {
                        assert(keys_before.contains(key2));
                        if pushed {
                            vstd::seq_lib::lemma_seq_contains_after_push(
                                keys_before,
                                gs[j as int].channel,
                                key2,
                            );
                            assert(keys_before.push(gs[j as int].channel).contains(key2));
                        }
                    } else {
                        assert(key2 == gs[j as int].channel);
                        if known {
                            assert(keys_before.contains(key2));
                        } else {
                            assert(pushed);
                            let n = keys.deep_view().len();
                            assert(keys.deep_view()[n - 1] == key2);
                        }
                    }
                }
            }
            j += 1;
        }
        proof {
            assert(gs.skip(src.channels@.len() as int) =~= Seq::<ChannelProgramsView>::empty());
            assert(scan_groups(keys.deep_view(), Seq::<ChannelProgramsView>::empty(), ns)
                == keys.deep_view());
            assert forall|key2: Seq<char>|
                scanned_key(ss, i + 1, 0, key2) && #[trigger] name_allowed(ns, key2)
                    implies keys.deep_view().contains(key2) by {
                let a = choose|a: int|
                    0 <= a < i + 1 && find_channel((#[trigger] ss[a]).channels, key2) is Some;
                if a < i {
                    assert(scanned_key(ss, i as int, 0, key2));
                } else {
                    lemma_find_channel_exists(gs, key2);
                    assert(scanned_key(ss, i as int, src.channels@.len() as int, key2));
                }
            }
        }
        i += 1;
    }
    proof {
        assert(ss.skip(st.sources@.len() as int) =~= Seq::<SourceView>::empty());
        assert(scan_sources(keys.deep_view(), Seq::<SourceView>::empty(), ns) == keys.deep_view());
        assert forall|key: Seq<char>|
            key_present(ss, key) && #[trigger] name_allowed(ns, key)
                implies keys.deep_view().contains(key) by {
            assert(scanned_key(ss, st.sources@.len() as int, 0, key));
        }
    }
    keys
}

/// Places `row` after every row whose name comes no later: a stable
/// insertion.
pub open spec fn insert_by_name(sorted: Seq<RowView>, row: RowView) -> Seq<RowView>
    decreases sorted.len(),
{
    if sorted.len() == 0 {
        seq![row]
    } else if seq_char_le(sorted[0].name, row.name) {
        seq![sorted[0]] + insert_by_name(sorted.drop_first(), row)
    } else {
        seq![row] + sorted
    }
}

/// The stable sort of grid rows by display name: rows with equal names
/// keep their input order.
pub open spec fn sort_by_name_spec(rows: Seq<RowView>) -> Seq<RowView>
    decreases rows.len(),
{
    if rows.len() == 0 {
        Seq::empty()
    } else {
        insert_by_name(sort_by_name_spec(rows.drop_last()), rows.last())
    }
}

/// Rows pairwise in name order.
pub open spec fn rows_sorted_by_name(rows: Seq<RowView>) -> bool {
    forall|a: int, b: int|
        0 <= a < b < rows.len() ==> seq_char_le((#[trigger] rows[a]).name, (#[trigger] rows[b]).name)
}

/// When every row before `pos` sorts no later than `row` and the one at
/// `pos`, if any, sorts later, the stable insertion puts `row` at `pos`.
proof fn lemma_insert_by_name_at(sorted: Seq<RowView>, row: RowView, pos: int)
    requires
        0 <= pos <= sorted.len(),
        forall|i: int| 0 <= i < pos ==> seq_char_le((#[trigger] sorted[i]).name, row.name),
        pos < sorted.len() ==> !seq_char_le(sorted[pos].name, row.name),
    ensures
        insert_by_name(sorted, row) =~= sorted.insert(pos, row),
    decreases pos,
{
    if pos == 0 {
        if sorted.len() == 0 {
            assert(insert_by_name(sorted, row) =~= sorted.insert(0, row));
        } else {
            assert(insert_by_name(sorted, row) =~= sorted.insert(0, row));
        }
    } else {
        assert(seq_char_le(sorted[0].name, row.name));
        lemma_insert_by_name_at(sorted.drop_first(), row, pos - 1);
        assert(seq![sorted[0]] + sorted.drop_first().insert(pos - 1, row) =~= sorted.insert(
            pos,
            row,
        ));
    }
}

/// Stable insertion adds exactly the inserted row to the multiset.
proof fn lemma_insert_by_name_multiset(sorted: Seq<RowView>, row: RowView)
    ensures
        insert_by_name(sorted, row).to_multiset() == sorted.to_multiset().insert(row),
    decreases sorted.len(),
{
    broadcast use vstd::seq_lib::group_to_multiset_ensures;
    broadcast use vstd::seq_lib::lemma_multiset_commutative;
    broadcast use vstd::multiset::group_multiset_axioms;

    if sorted.len() == 0 {
        assert(insert_by_name(sorted, row) =~= Seq::<RowView>::empty().push(row));
        assert(Seq::<RowView>::empty().push(row).to_multiset()
            =~= Seq::<RowView>::empty().to_multiset().insert(row));
        assert(sorted.to_multiset() =~= Multiset::<RowView>::empty());
    } else if seq_char_le(sorted[0].name, row.name) {
        lemma_insert_by_name_multiset(sorted.drop_first(), row);
        let rest = insert_by_name(sorted.drop_first(), row);
        let r = insert_by_name(sorted, row);
        assert(r == seq![sorted[0]] + rest);
        assert((seq![sorted[0]] + rest).to_multiset() =~= seq![sorted[0]].to_multiset().add(
            rest.to_multiset(),
        ));
        assert(sorted =~= seq![sorted[0]] + sorted.drop_first());
        assert((seq![sorted[0]] + sorted.drop_first()).to_multiset()
            =~= seq![sorted[0]].to_multiset().add(sorted.drop_first().to_multiset()));
        assert(r.to_multiset() =~= sorted.to_multiset().insert(row));
    } else {
        let r = insert_by_name(sorted, row);
        assert(r == seq![row] + sorted);
        assert((seq![row] + sorted).to_multiset() =~= seq![row].to_multiset().add(
            sorted.to_multiset(),
        ));
        assert(seq![row] =~= Seq::<RowView>::empty().push(row));
        assert(Seq::<RowView>::empty().push(row).to_multiset()
            =~= Seq::<RowView>::empty().to_multiset().insert(row));
        assert(Seq::<RowView>::empty().to_multiset() =~= Multiset::<RowView>::empty());
        assert(r.to_multiset() =~= sorted.to_multiset().insert(row));
    }
}

/// Every row of a stable insertion sorts no earlier than a bound that both
/// the old rows and the inserted row respect.
proof fn lemma_insert_by_name_head(sorted: Seq<RowView>, row: RowView, head: RowView, j: int)
    requires
        seq_char_le(head.name, row.name),
        forall|i: int| 0 <= i < sorted.len() ==> seq_char_le(head.name, (#[trigger] sorted[i]).name),
        0 <= j < insert_by_name(sorted, row).len(),
    ensures
        seq_char_le(head.name, insert_by_name(sorted, row)[j].name),
    decreases sorted.len(),
{
    let r = insert_by_name(sorted, row);
    if sorted.len() == 0 {
        assert(r =~= seq![row]);
    } else if seq_char_le(sorted[0].name, row.name) {
        assert(r =~= seq![sorted[0]] + insert_by_name(sorted.drop_first(), row));
        if j > 0 {
            lemma_insert_by_name_head(sorted.drop_first(), row, head, j - 1);
        }
    } else {
        assert(r =~= seq![row] + sorted);
    }
}

/// Stable insertion into a name-sorted sequence keeps it sorted.
proof fn lemma_insert_by_name_sorted(sorted: Seq<RowView>, row: RowView)
    requires
        rows_sorted_by_name(sorted),
    ensures
        rows_sorted_by_name(insert_by_name(sorted, row)),
    decreases sorted.len(),
{
    let r = insert_by_name(sorted, row);
    if sorted.len() == 0 {
    } else if seq_char_le(sorted[0].name, row.name) {
        assert(rows_sorted_by_name(sorted.drop_first())) by {
            assert(forall|i: int, j: int|
                0 <= i < j < sorted.drop_first().len() ==> seq_char_le(
                    (#[trigger] sorted.drop_first()[i]).name,
                    (#[trigger] sorted.drop_first()[j]).name,
                ));
        }
        lemma_insert_by_name_sorted(sorted.drop_first(), row);
        let rest = insert_by_name(sorted.drop_first(), row);
        assert(r =~= seq![sorted[0]] + rest);
        assert forall|i: int, j: int| 0 <= i < j < r.len() implies seq_char_le(
            (#[trigger] r[i]).name,
            (#[trigger] r[j]).name,
        ) by {
            if i == 0 {
                assert(r[j] == rest[j - 1]);
                lemma_insert_by_name_head(sorted.drop_first(), row, sorted[0], j - 1);
            } else {
                assert(r[i] == rest[i - 1]);
                assert(r[j] == rest[j - 1]);
            }
        }
    } else {
        lemma_seq_char_le_total(sorted[0].name, row.name);
        assert(seq_char_le(row.name, sorted[0].name));
        assert forall|i: int, j: int| 0 <= i < j < r.len() implies seq_char_le(
            (#[trigger] r[i]).name,
            (#[trigger] r[j]).name,
        ) by {
            if i == 0 {
                assert(r[j] == sorted[j - 1]);
                if j - 1 > 0 {
                    assert(seq_char_le(sorted[0].name, sorted[j - 1].name));
                    lemma_seq_char_le_trans(row.name, sorted[0].name, sorted[j - 1].name);
                }
            }
        }
    }
}

/// The stable sort of rows is sorted by name and keeps the multiset.
pub proof fn lemma_sort_by_name_spec_props(rows: Seq<RowView>)
    ensures
        rows_sorted_by_name(sort_by_name_spec(rows)),
        sort_by_name_spec(rows).to_multiset() == rows.to_multiset(),
        sort_by_name_spec(rows).len() == rows.len(),
    decreases rows.len(),
{
    broadcast use vstd::seq_lib::group_to_multiset_ensures;
    broadcast use vstd::multiset::group_multiset_axioms;

    if rows.len() == 0 {
        assert(rows.to_multiset() =~= Multiset::<RowView>::empty());
        assert(sort_by_name_spec(rows).to_multiset() =~= Multiset::<RowView>::empty());
    } else {
        lemma_sort_by_name_spec_props(rows.drop_last());
        lemma_insert_by_name_sorted(sort_by_name_spec(rows.drop_last()), rows.last());
        lemma_insert_by_name_multiset(sort_by_name_spec(rows.drop_last()), rows.last());
        assert(rows =~= rows.drop_last().push(rows.last()));
        assert(rows.drop_last().push(rows.last()).to_multiset()
            =~= rows.drop_last().to_multiset().insert(rows.last()));
    }
    assert(sort_by_name_spec(rows).len() == sort_by_name_spec(rows).to_multiset().len());
    assert(rows.len() == rows.to_multiset().len());
}

/// Sorts grid rows by display name, ascending and stable: the result is
/// exactly the stable sort of the input, so rows with equal names keep
/// their relative order.
fn sort_rows_by_name(v: &mut Vec<EpgChannelWithPrograms>)
    ensures
        final(v).deep_view() == sort_by_name_spec(old(v).deep_view()),
        final(v).deep_view().to_multiset() == old(v).deep_view().to_multiset(),
        rows_sorted_by_name(final(v).deep_view()),
{
    let ghost input = old(v).deep_view();
    let mut out: Vec<EpgChannelWithPrograms> = Vec::new();
    let ghost mut done: int = 0;
    assert(input.take(0) =~= Seq::<RowView>::empty());
    assert(out.deep_view() =~= Seq::<RowView>::empty());
    assert(input.skip(0) =~= input);
    while v.len() > 0
        invariant
            input == old(v).deep_view(),
            0 <= done <= input.len(),
            v.deep_view() =~= input.skip(done),
            out.deep_view() == sort_by_name_spec(input.take(done)),
            out@.len() == done,
        decreases v@.len(),
    {
        let ghost v_before = v.deep_view();
        proof {
            assert(v_before.len() == v@.len());
            assert(v_before.len() == input.len() - done);
        }
        let row = v.remove(0);
        proof {
            assert(v_before[0] == input[done]);
            assert(row.deep_view() == input[done]);
            assert(v.deep_view() =~= v_before.skip(1));
            assert(input.skip(done).skip(1) =~= input.skip(done + 1));
        }
        let ghost sorted = out.deep_view();
        let mut pos: usize = 0;
        while pos < out.len() && str_le(out[pos].name.as_str(), row.name.as_str())
            invariant
                sorted == out.deep_view(),
                0 <= pos <= out.len(),
                forall|i: int|
                    0 <= i < pos ==> seq_char_le((#[trigger] sorted[i]).name, row@.name),
            decreases out.len() - pos,
        {
            proof {
                assert(sorted[pos as int] == out@[pos as int].deep_view());
            }
            pos += 1;
        }
        proof {
            if pos < out@.len() {
                assert(sorted[pos as int] == out@[pos as int].deep_view());
                assert(!seq_char_le(sorted[pos as int].name, row@.name));
            }
            lemma_insert_by_name_at(sorted, row@, pos as int);
        }
        let ghost out_before = out.deep_view();
        out.insert(pos, row);
        proof {
            broadcast use vstd::seq_lib::group_seq_properties;

            assert(out.deep_view() =~= out_before.insert(pos as int, row@));
            assert(input.take(done + 1).drop_last() =~= input.take(done));
            assert(input.take(done + 1).last() == input[done]);
            done = done + 1;
        }
    }
    assert(input.take(done) =~= input);
    proof {
        lemma_sort_by_name_spec_props(input);
    }
    *v = out;
}

/// A permutation of a full grid keeps every property of it but the order:
/// correct rows, allowlisted present channels, no channel twice, and one
/// row per channel owed one.
proof fn lemma_rows_permutation_props(
    ss: Seq<SourceView>,
    names: Seq<Seq<char>>,
    s: int,
    e: int,
    a: Seq<RowView>,
    b: Seq<RowView>,
)
    requires
        a.to_multiset() == b.to_multiset(),
        forall|i: int| 0 <= i < a.len() ==> key_present(ss, (#[trigger] a[i]).id),
        forall|i: int| 0 <= i < a.len() ==> name_allowed(names, (#[trigger] a[i]).id),
        forall|i: int| 0 <= i < a.len() ==> grid_row_ok(ss, s, e, #[trigger] a[i]),
        forall|i: int, j: int| 0 <= i < j < a.len() ==> (#[trigger] a[i]).id != (#[trigger] a[j]).id,
        forall|key: Seq<char>|
            key_present(ss, key) && name_allowed(names, key) && #[trigger] window_programs(
                ss,
                key,
                s,
                e,
            ).len() > 0 ==> exists|i: int| 0 <= i < a.len() && (#[trigger] a[i]).id == key,
    ensures
        forall|i: int| 0 <= i < b.len() ==> key_present(ss, (#[trigger] b[i]).id),
        forall|i: int| 0 <= i < b.len() ==> name_allowed(names, (#[trigger] b[i]).id),
        forall|i: int| 0 <= i < b.len() ==> grid_row_ok(ss, s, e, #[trigger] b[i]),
        forall|i: int, j: int| 0 <= i < j < b.len() ==> (#[trigger] b[i]).id != (#[trigger] b[j]).id,
        forall|key: Seq<char>|
            key_present(ss, key) && name_allowed(names, key) && #[trigger] window_programs(
                ss,
                key,
                s,
                e,
            ).len() > 0 ==> exists|i: int| 0 <= i < b.len() && (#[trigger] b[i]).id == key,
{
    broadcast use vstd::seq_lib::group_to_multiset_ensures;
    broadcast use vstd::multiset::group_multiset_axioms;

    assert forall|i: int| 0 <= i < b.len() implies key_present(ss, (#[trigger] b[i]).id)
        && name_allowed(names, b[i].id) && grid_row_ok(ss, s, e, b[i]) by {
        assert(b.contains(b[i]));
        assert(b.to_multiset().count(b[i]) > 0);
        assert(a.to_multiset().count(b[i]) > 0);
        assert(a.contains(b[i]));
        let p = choose|p: int| 0 <= p < a.len() && a[p] == b[i];
        assert(key_present(ss, a[p].id));
    }
    assert(a.no_duplicates()) by {
        assert forall|i: int, j: int| 0 <= i < j < a.len() implies a[i] != a[j] by {
            assert(a[i].id != a[j].id);
        }
    }
    a.lemma_multiset_has_no_duplicates();
    assert forall|i: int, j: int| 0 <= i < j < b.len() implies (#[trigger] b[i]).id != (
    #[trigger] b[j]).id by {
        if b[i].id == b[j].id {
            if b[i] == b[j] {
                vstd::seq_lib::to_multiset_remove(b, i);
                assert(b.remove(i)[j - 1] == b[j]);
                assert(b.remove(i).contains(b[j]));
                assert(b.remove(i).to_multiset().count(b[j]) > 0);
                assert(b.to_multiset().count(b[i]) >= 2);
                assert(a.to_multiset().contains(b[i]));
                assert(false);
            } else {
                assert(b.contains(b[i]));
                assert(b.to_multiset().count(b[i]) > 0);
                assert(a.to_multiset().count(b[i]) > 0);
                assert(a.contains(b[i]));
                assert(b.contains(b[j]));
                assert(b.to_multiset().count(b[j]) > 0);
                assert(a.to_multiset().count(b[j]) > 0);
                assert(a.contains(b[j]));
                let p = choose|p: int| 0 <= p < a.len() && a[p] == b[i];
                let q = choose|q: int| 0 <= q < a.len() && a[q] == b[j];
                assert(p != q);
                assert(a[p].id != a[q].id);
                assert(false);
            }
        }
    }
    assert forall|key: Seq<char>|
        key_present(ss, key) && name_allowed(names, key) && #[trigger] window_programs(
            ss,
            key,
            s,
            e,
        ).len() > 0 implies exists|i: int| 0 <= i < b.len() && (#[trigger] b[i]).id == key by {
        let p = choose|p: int| 0 <= p < a.len() && (#[trigger] a[p]).id == key;
        assert(a.contains(a[p]));
        assert(a.to_multiset().count(a[p]) > 0);
        assert(b.to_multiset().count(a[p]) > 0);
        assert(b.contains(a[p]));
        let q = choose|q: int| 0 <= q < b.len() && b[q] == a[p];
        assert(b[q].id == key);
    }
}

/// A program stands in the window merge of a channel exactly when it is
/// stored for that channel and its interval overlaps the window.
pub proof fn lemma_window_membership(
    ss: Seq<SourceView>,
    key: Seq<char>,
    s: int,
    e: int,
    p: ProgramView,
)
    ensures
        window_programs(ss, key, s, e).contains(p) <==> (channel_programs_spec(
            ss,
            key,
        ).contains(p) && overlaps(p, s, e)),
{
    let cp = channel_programs_spec(ss, key);
    let ov = overlap_pred(s, e);
    cp.filter_lemma(ov);
    if cp.filter(ov).contains(p) {
        let i = choose|i: int| 0 <= i < cp.filter(ov).len() && cp.filter(ov)[i] == p;
        assert(ov(cp.filter(ov)[i]));
        cp.lemma_filter_contains_rev(ov, p);
    }
    if cp.contains(p) && overlaps(p, s, e) {
        let i = choose|i: int| 0 <= i < cp.len() && cp[i] == p;
        assert(ov(cp[i]));
        assert(cp.filter(ov).contains(cp[i]));
    }
}

/// A program appears in a grid row exactly when it is stored for the
/// row's channel and its interval overlaps the requested window.
pub proof fn lemma_grid_row_membership(
    ss: Seq<SourceView>,
    s: int,
    e: int,
    row: RowView,
    p: ProgramView,
)
    requires
        grid_row_ok(ss, s, e, row),
    ensures
        row.programs.contains(p) <==> (channel_programs_spec(ss, row.id).contains(p) && overlaps(
            p,
            s,
            e,
        )),
{
    broadcast use vstd::seq_lib::group_to_multiset_ensures;
    broadcast use vstd::multiset::group_multiset_axioms;

    let f = window_programs(ss, row.id, s, e);
    assert(row.programs.contains(p) <==> row.programs.to_multiset().count(p) > 0);
    assert(f.contains(p) <==> f.to_multiset().count(p) > 0);
    lemma_window_membership(ss, row.id, s, e, p);
}

/// A page that starts at or past the last row is empty, and one that
/// reaches past the last row holds exactly the remaining tail: pagination
/// never fails.
pub proof fn lemma_grid_page_bounds(rows: Seq<RowView>, skip: int, limit: int)
    requires
        0 <= skip,
        0 <= limit,
    ensures
        skip >= rows.len() ==> grid_page(rows, skip, limit) == Seq::<RowView>::empty(),
        skip <= rows.len() && skip + limit >= rows.len() ==> grid_page(rows, skip, limit)
            == rows.skip(skip),
{
    if skip >= rows.len() {
        assert(grid_page(rows, skip, limit) =~= Seq::<RowView>::empty());
    }
    if skip <= rows.len() && skip + limit >= rows.len() {
        assert(grid_page(rows, skip, limit) =~= rows.skip(skip));
    }
}

/// Answers the windowed grid query.  The window bounds are date-time
/// strings in the XMLTV format; `skip` and `limit` select a page of the
/// name-sorted channel rows.  Fails when the store was never created or a
/// bound does not parse; a page beyond the last channel is empty, not an
/// error.
pub fn get_epg_by_range(
    store: Option<&EpgStore>,
    start_time: String,
    end_time: String,
    skip: usize,
    limit: usize,
    playlist_channel_names: Vec<String>,
) -> (r: Result<Vec<EpgChannelWithPrograms>, String>)
    requires
        store matches Some(st) ==> store_wf(st@),
    ensures
        r is Ok <==> (store is Some && xmltv_instant_of(start_time@) is Some && xmltv_instant_of(
            end_time@,
        ) is Some),
        store is None ==> (r matches Err(m) && m@ == "EPG data not initialized"@),
        (store is Some && xmltv_instant_of(start_time@) is None) ==> (r matches Err(m) && m@
            == "invalid start time"@),
        (store is Some && xmltv_instant_of(start_time@) is Some && xmltv_instant_of(end_time@)
            is None) ==> (r matches Err(m) && m@ == "invalid end time"@),
        r matches Ok(rows) ==> ({
            let ws = xmltv_instant_of(start_time@)->Some_0;
            let we = xmltv_instant_of(end_time@)->Some_0;
            let full = grid_full_spec(
                opt_sources(store),
                playlist_channel_names.deep_view(),
                ws,
                we,
            );
            &&& grid_rows_complete(
                opt_sources(store),
                playlist_channel_names.deep_view(),
                ws,
                we,
                full,
            )
            &&& rows.deep_view() == grid_page(full, skip as int, limit as int)
        }),
{
    let st = match store {
        Some(st) => st,
        None => {
            return Err("EPG data not initialized".to_owned());
        },
    };
    let s: i64 = match parse_xmltv_datetime(start_time.as_str()) {
        Some(t) => t,
        None => {
            return Err("invalid start time".to_owned());
        },
    };
    let e: i64 = match parse_xmltv_datetime(end_time.as_str()) {
        Some(t) => t,
        None => {
            return Err("invalid end time".to_owned());
        },
    };
    let ghost ss = st@;
    let ghost ns = playlist_channel_names.deep_view();
    let keys = collect_candidate_keys(st, &playlist_channel_names);
    let ghost ks = keys.deep_view();
    let mut rows: Vec<EpgChannelWithPrograms> = Vec::new();
    let mut idx: usize = 0;
    assert(rows.deep_view() =~= Seq::<RowView>::empty());
    assert(ks.skip(0) =~= ks);
    while idx < keys.len()
        invariant
            ss == st@,
            ns == playlist_channel_names.deep_view(),
            ks == keys.deep_view(),
            0 <= idx <= keys.len(),
            rows.deep_view() + rows_for_keys(ss, s as int, e as int, ks.skip(idx as int))
                =~= rows_for_keys(ss, s as int, e as int, ks),
            forall|k: int|
                0 <= k < ks.len() ==> key_present(ss, #[trigger] ks[k]) && name_allowed(ns, ks[k]),
            forall|k1: int, k2: int| 0 <= k1 < k2 < ks.len() ==> ks[k1] != ks[k2],
            forall|r: int| 0 <= r < rows.deep_view().len() ==> key_present(
                ss,
                (#[trigger] rows.deep_view()[r]).id,
            ) && name_allowed(ns, rows.deep_view()[r].id) && grid_row_ok(
                ss,
                s as int,
                e as int,
                rows.deep_view()[r],
            ),
            forall|r1: int, r2: int|
                0 <= r1 < r2 < rows.deep_view().len() ==> (#[trigger] rows.deep_view()[r1]).id != (
                #[trigger] rows.deep_view()[r2]).id,
            forall|r: int|
                0 <= r < rows.deep_view().len() ==> exists|k: int|
                    0 <= k < idx && (#[trigger] rows.deep_view()[r]).id == ks[k],
            forall|k: int|
                0 <= k < idx && #[trigger] window_programs(ss, ks[k], s as int, e as int).len() > 0
                    ==> exists|r: int|
                    0 <= r < rows.deep_view().len() && (#[trigger] rows.deep_view()[r]).id == ks[k],
        decreases keys.len() - idx,
    {
        proof {
            assert(ks[idx as int] == keys@[idx as int].deep_view());
            assert(ks.skip(idx as int)[0] == ks[idx as int]);
            assert(ks.skip(idx as int).drop_first() =~= ks.skip(idx + 1));
        }
        let ghost rows_before = rows.deep_view();
        let mut progs = collect_window_programs(st, &keys[idx], s, e);
        let ghost f = window_programs(ss, ks[idx as int], s as int, e as int);
        proof {
            assert(progs.deep_view() == f);
            assert(progs.deep_view().len() == progs@.len());
        }
        if progs.len() > 0 {
            proof {
                assert(progs.deep_view()[0] == progs@[0].deep_view());
            }
            let icon = clone_opt_string(&progs[0].icon);
            sort_programs_by_start(&mut progs);
            let ghost sorted_progs = progs.deep_view();
            let name = trim_owned(keys[idx].as_str());
            let id = keys[idx].clone();
            rows.push(EpgChannelWithPrograms { id, name, icon, programs: progs });
            proof {
                let rv = RowView {
                    id: ks[idx as int],
                    name: trim_of(ks[idx as int]),
                    icon: f[0].icon,
                    programs: sorted_progs,
                };
                assert(rows@[rows@.len() - 1].deep_view() == rv);
                assert(rows.deep_view() =~= rows_before.push(rv));
                assert(grid_row_ok(ss, s as int, e as int, rv));
                assert forall|r: int| 0 <= r < rows.deep_view().len() implies exists|k: int|
                    0 <= k < idx + 1 && (#[trigger] rows.deep_view()[r]).id == ks[k] by {
                    if r < rows_before.len() {
                        assert(rows.deep_view()[r] == rows_before[r]);
                        let k = choose|k: int|
                            0 <= k < idx && (#[trigger] rows_before[r]).id == ks[k];
                        assert(rows.deep_view()[r].id == ks[k]);
                    } else {
                        assert(rows.deep_view()[r].id == ks[idx as int]);
                    }
                }
                assert forall|k: int|
                    0 <= k < idx + 1 && #[trigger] window_programs(
                        ss,
                        ks[k],
                        s as int,
                        e as int,
                    ).len() > 0 implies exists|r: int|
                    0 <= r < rows.deep_view().len() && (#[trigger] rows.deep_view()[r]).id
                        == ks[k] by {
                    if k < idx {
                        let r = choose|r: int|
                            0 <= r < rows_before.len() && (#[trigger] rows_before[r]).id == ks[k];
                        assert(rows.deep_view()[r] == rows_before[r]);
                        assert(rows.deep_view()[r].id == ks[k]);
                    } else {
                        let last = rows.deep_view().len() - 1;
                        assert(rows.deep_view()[last].id == ks[idx as int]);
                    }
                }
                assert(rows_for_keys(ss, s as int, e as int, ks.skip(idx as int)) == seq![rv]
                    + rows_for_keys(ss, s as int, e as int, ks.skip(idx + 1)));
                assert(rows_before + (seq![rv] + rows_for_keys(ss, s as int, e as int, ks.skip(
                    idx + 1,
                ))) =~= rows.deep_view() + rows_for_keys(ss, s as int, e as int, ks.skip(idx + 1)));
            }
        } else {
            proof {
                assert(f.len() == 0);
                assert(rows_for_keys(ss, s as int, e as int, ks.skip(idx as int)) == rows_for_keys(
                    ss,
                    s as int,
                    e as int,
                    ks.skip(idx + 1),
                ));
                assert forall|k: int|
                    0 <= k < idx + 1 && #[trigger] window_programs(
                        ss,
                        ks[k],
                        s as int,
                        e as int,
                    ).len() > 0 implies exists|r: int|
                    0 <= r < rows.deep_view().len() && (#[trigger] rows.deep_view()[r]).id
                        == ks[k] by {
                    assert(k < idx);
                }
            }
        }
        idx += 1;
    }
    let ghost presort = rows.deep_view();
    proof {
        assert(ks.skip(keys@.len() as int) =~= Seq::<Seq<char>>::empty());
        assert(rows_for_keys(ss, s as int, e as int, Seq::<Seq<char>>::empty())
            == Seq::<RowView>::empty());
        assert(presort + Seq::<RowView>::empty() =~= presort);
        assert(presort == rows_for_keys(ss, s as int, e as int, ks));
        assert forall|key: Seq<char>|
            key_present(ss, key) && name_allowed(ns, key) && #[trigger] window_programs(
                ss,
                key,
                s as int,
                e as int,
            ).len() > 0 implies exists|r: int|
            0 <= r < presort.len() && (#[trigger] presort[r]).id == key by {
            assert(ks.contains(key));
            let k = choose|k: int| 0 <= k < ks.len() && ks[k] == key;
            assert(window_programs(ss, ks[k], s as int, e as int).len() > 0);
        }
    }
    sort_rows_by_name(&mut rows);
    proof {
        lemma_rows_permutation_props(ss, ns, s as int, e as int, presort, rows.deep_view());
    }
    let ghost full = rows.deep_view();
    assert(grid_rows_complete(ss, ns, s as int, e as int, full));
    let total = rows.len();
    let lo = if skip < total {
        skip
    } else {
        total
    };
    let avail = total - lo;
    let cnt = if limit < avail {
        limit
    } else {
        avail
    };
    let mut page: Vec<EpgChannelWithPrograms> = Vec::new();
    let mut m: usize = 0;
    assert(page.deep_view() =~= full.subrange(lo as int, lo as int));
    while m < cnt
        invariant
            full == rows.deep_view(),
            lo + cnt <= rows@.len(),
            rows@.len() <= usize::MAX,
            0 <= m <= cnt,
            page.deep_view() =~= full.subrange(lo as int, lo + m),
        decreases cnt - m,
    {
        proof {
            assert(full[lo + m] == rows@[lo + m].deep_view());
        }
        let ghost page_before = page.deep_view();
        page.push(rows[lo + m].duplicate());
        proof {
            assert(page.deep_view() =~= page_before.push(full[lo + m]));
            assert(full.subrange(lo as int, lo + m + 1) =~= full.subrange(lo as int, lo + m).push(
                full[lo + m],
            ));
        }
        m += 1;
    }
    proof {
        assert(page.deep_view() == grid_page(full, skip as int, limit as int));
        assert(full == sort_by_name_spec(presort));
        assert(ks == candidate_keys_spec(ss, ns));
        assert(full == grid_full_spec(ss, ns, s as int, e as int));
        assert(full == grid_full_spec(
            opt_sources(store),
            playlist_channel_names.deep_view(),
            xmltv_instant_of(start_time@)->Some_0,
            xmltv_instant_of(end_time@)->Some_0,
        ));
        assert(grid_rows_complete(
            opt_sources(store),
            playlist_channel_names.deep_view(),
            xmltv_instant_of(start_time@)->Some_0,
            xmltv_instant_of(end_time@)->Some_0,
            full,
        ));
    }
    Ok(page)
}

} // verus!
