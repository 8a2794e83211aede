//! What the lines of an answer say.
use crate::ingress::{IngressId, IngressInfo};
use crate::net::Prefix;
use crate::payload::{RotondaPaMap, RouteStatus};
use crate::units::rib_unit::http_ng::QueryFilter;
use crate::units::rib_unit::lines::{
    is_stream_part, lines_for, lines_for_all, lines_of, opt_lines, JsonlLine, Section,
};
use crate::units::rib_unit::records::{PrefixRecord, RouteRecord};
use crate::units::rib_unit::rib::{
    entries, is_selected_from, listed_for, live, live_entries, live_records_are_live,
    live_routes_listed, Rib,
};
use crate::units::rib_unit::rib_laws::{meets_every_criterion, selection_meets_criteria};
use crate::units::rib_unit::table::{prefixes_of, routes_stored, RouteTable, TableMatch};
use vstd::prelude::*;

verus! {

//------------ Live routes ---------------------------------------------------

/// The live ones of some records are all of them, in their order, but for those
/// that are withdrawn.
pub proof fn live_is_all_but_withdrawn(records: Seq<RouteRecord>)
    ensures
        live(records) == records.filter(|r: RouteRecord| r.status != RouteStatus::Withdrawn),
    decreases records.len(),
{
    reveal(Seq::filter);
    if records.len() > 0 {
        live_is_all_but_withdrawn(records.drop_last());
    }
}

/// The live entries of a table are, in their order, those that have a route that
/// is not withdrawn, each with all such routes and with no other.
pub proof fn live_entries_have_all_live_routes(all: Seq<(Prefix, Seq<RouteRecord>)>)
    ensures
        live_entries(all) == all.map_values(
            |e: (Prefix, Seq<RouteRecord>)|
                (e.0, e.1.filter(|r: RouteRecord| r.status != RouteStatus::Withdrawn)),
        ).filter(|e: (Prefix, Seq<RouteRecord>)| e.1.len() > 0),
    decreases all.len(),
{
    let f = |e: (Prefix, Seq<RouteRecord>)|
        (e.0, e.1.filter(|r: RouteRecord| r.status != RouteStatus::Withdrawn));
    let mapped = all.map_values(f);
    reveal(Seq::filter);
    if all.len() > 0 {
        live_entries_have_all_live_routes(all.drop_last());
        live_is_all_but_withdrawn(all.last().1);
        assert(mapped.drop_last() =~= all.drop_last().map_values(f));
        assert(mapped.last() == (all.last().0, live(all.last().1)));
    } else {
        assert(mapped =~= Seq::empty());
    }
}

//------------ Lines ---------------------------------------------------------

/// Whether a line states a route: its prefix, its status, its source and what is
/// known of that, and its path attributes, under a section.
pub open spec fn states_route(
    line: JsonlLine,
    section: Section,
    prefix: Prefix,
    r: RouteRecord,
    sources: Map<IngressId, IngressInfo>,
) -> bool {
    &&& line.section == section
    &&& line.prefix == prefix
    &&& line.status == r.status
    &&& line.ingress_id == r.multi_uniq_id
    &&& line.meta == r.meta
    &&& line.ingress is Some <==> sources.contains_key(r.multi_uniq_id)
    &&& line.ingress matches Some(info) ==> info == sources[r.multi_uniq_id]
}

/// The records of entries, one after the other, each with its prefix.
pub open spec fn flat_records(prs: Seq<PrefixRecord>) -> Seq<(Prefix, RouteRecord)> {
    prs.map_values(
        |pr: PrefixRecord| pr.meta@.map_values(|r: RouteRecord| (pr.prefix, r)),
    ).flatten()
}

proof fn entry_lines(
    prs: Seq<PrefixRecord>,
    section: Section,
    sources: Map<IngressId, IngressInfo>,
)
    ensures
        ({
            let lines = lines_for_all(entries(prs), section, sources);
            let flat = flat_records(prs);
            &&& lines.len() == flat.len()
            &&& forall|i: int|
                0 <= i < lines.len() ==> states_route(
                    #[trigger] lines[i],
                    section,
                    flat[i].0,
                    flat[i].1,
                    sources,
                )
        }),
    decreases prs.len(),
{
    let f = |pr: PrefixRecord| pr.meta@.map_values(|r: RouteRecord| (pr.prefix, r));
    let parts = prs.map_values(f);
    if prs.len() > 0 {
        let init = prs.drop_last();
        entry_lines(init, section, sources);
        assert(entries(prs).drop_last() =~= entries(init));
        assert(entries(prs).last() == (prs.last().prefix, prs.last().meta@));
        assert(parts =~= init.map_values(f).push(f(prs.last())));
        init.map_values(f).lemma_flatten_push(f(prs.last()));
        let early = lines_for_all(entries(init), section, sources);
        let lines = lines_for_all(entries(prs), section, sources);
        let flat = flat_records(prs);
        assert forall|i: int| 0 <= i < lines.len() implies states_route(
            #[trigger] lines[i],
            section,
            flat[i].0,
            flat[i].1,
            sources,
        ) by {
            if i < early.len() {
                assert(lines[i] == early[i]);
                assert(flat[i] == flat_records(init)[i]);
            } else {
                let k = i - early.len();
                assert(flat[i] == f(prs.last())[k]);
            }
        }
    } else {
        assert(parts =~= Seq::empty());
        assert(parts.flatten() =~= Seq::empty());
    }
}

/// The lines of an answer state its routes, one line for each and in order:
/// first those of the prefix asked for, under the section for the data, then
/// those of the more specific prefixes and then those of the less specific
/// ones, each under their own section.
pub proof fn lines_state_the_answer(
    answer: TableMatch,
    sources: Map<IngressId, IngressInfo>,
    i: int,
)
    requires
        0 <= i < lines_of(answer, sources).len(),
    ensures
        ({
            let lines = lines_of(answer, sources);
            let n = if answer.prefix is Some {
                answer.records@.len() as int
            } else {
                0
            };
            let more = if answer.more_specifics is Some {
                flat_records((answer.more_specifics->0)@)
            } else {
                Seq::empty()
            };
            let less = if answer.less_specifics is Some {
                flat_records((answer.less_specifics->0)@)
            } else {
                Seq::empty()
            };
            &&& lines.len() == n + more.len() + less.len()
            &&& i < n ==> states_route(
                lines[i],
                Section::Data,
                answer.prefix->0,
                answer.records@[i],
                sources,
            )
            &&& n <= i < n + more.len() ==> states_route(
                lines[i],
                Section::MoreSpecifics,
                more[i - n].0,
                more[i - n].1,
                sources,
            )
            &&& n + more.len() <= i ==> states_route(
                lines[i],
                Section::LessSpecifics,
                less[i - n - more.len()].0,
                less[i - n - more.len()].1,
                sources,
            )
        }),
{
    let data = match answer.prefix {
        Some(p) => lines_for(p, answer.records@, Section::Data, sources),
        None => Seq::empty(),
    };
    let more = opt_lines(answer.more_specifics, Section::MoreSpecifics, sources);
    let less = opt_lines(answer.less_specifics, Section::LessSpecifics, sources);
    if let Some(prs) = answer.more_specifics {
        entry_lines(prs@, Section::MoreSpecifics, sources);
    }
    if let Some(prs) = answer.less_specifics {
        entry_lines(prs@, Section::LessSpecifics, sources);
    }
    let lines = lines_of(answer, sources);
    if i < data.len() {
        assert(lines[i] == data[i]);
    } else if i < data.len() + more.len() {
        assert(lines[i] == more[i - data.len()]);
    } else {
        assert(lines[i] == less[i - data.len() - more.len()]);
    }
}

//------------ Streams -------------------------------------------------------

/// Each line of a stream states a route that is filed under its prefix, is not
/// withdrawn, neither itself nor with its source, and meets every criterion that
/// the query sets. The lines of the prefix asked for stand under the section for
/// the data, all others under that for more specific prefixes.
pub proof fn stream_lines_meet_the_criteria<F: Fn(&RotondaPaMap) -> bool>(
    table: RouteTable,
    query_prefix: Prefix,
    prefix: Prefix,
    filter: QueryFilter,
    function: Option<F>,
    sources: Map<IngressId, IngressInfo>,
    lines: Seq<JsonlLine>,
    i: int,
) -> (r: RouteRecord)
    requires
        is_stream_part(table, query_prefix, prefix, filter, function, sources, lines),
        0 <= i < lines.len(),
    ensures
        prefix == query_prefix ==> states_route(lines[i], Section::Data, prefix, r, sources),
        prefix != query_prefix ==> states_route(
            lines[i],
            Section::MoreSpecifics,
            prefix,
            r,
            sources,
        ),
        meets_every_criterion(filter, sources, r),
        prefix.len_spec() > 0,
        table.routes().contains_key((prefix, r.multi_uniq_id)),
        !table.withdrawn().contains((prefix.addr_spec() is V4, r.multi_uniq_id)),
        r.status == table.routes()[(prefix, r.multi_uniq_id)].status,
        r.status != RouteStatus::Withdrawn,
        r.ltime == table.routes()[(prefix, r.multi_uniq_id)].ltime,
        r.meta@ == table.routes()[(prefix, r.multi_uniq_id)].value,
        function matches Some(f) ==> call_ensures(f, (&r.meta,), true),
{
    let (all, kept) = choose|all: Seq<RouteRecord>, kept: Seq<RouteRecord>|
        {
            &&& #[trigger] listed_for(table, prefix, all)
            &&& #[trigger] is_selected_from(function, filter, sources, live(all), kept)
            &&& lines == lines_for(
                prefix,
                kept,
                if prefix == query_prefix {
                    Section::Data
                } else {
                    Section::MoreSpecifics
                },
                sources,
            )
        };
    selection_meets_criteria(function, filter, sources, live(all), kept);
    live_records_are_live(all);
    let r = kept[i];
    assert(live(all).contains(r));
    let j = choose|j: int| 0 <= j < all.len() && all[j] == r;
    assert(all[j] == r);
    r
}

/// The lines of a stream for a prefix are complete: without a function, every
/// route to it that is filed, is not withdrawn, neither itself nor with its
/// source, and meets every criterion has its line.
pub proof fn stream_lines_are_complete<F: Fn(&RotondaPaMap) -> bool>(
    table: RouteTable,
    query_prefix: Prefix,
    prefix: Prefix,
    filter: QueryFilter,
    function: Option<F>,
    sources: Map<IngressId, IngressInfo>,
    lines: Seq<JsonlLine>,
    r: RouteRecord,
)
    requires
        is_stream_part(table, query_prefix, prefix, filter, function, sources, lines),
        function is None,
        prefix.len_spec() > 0,
        table.routes().contains_key((prefix, r.multi_uniq_id)),
        !table.withdrawn().contains((prefix.addr_spec() is V4, r.multi_uniq_id)),
        table.routes()[(prefix, r.multi_uniq_id)].status != RouteStatus::Withdrawn,
        r.meta@ == table.routes()[(prefix, r.multi_uniq_id)].value,
        meets_every_criterion(filter, sources, r),
    ensures
        exists|i: int|
            {
                &&& 0 <= i < lines.len()
                &&& (#[trigger] lines[i]).prefix == prefix
                &&& lines[i].ingress_id == r.multi_uniq_id
                &&& lines[i].meta@ == r.meta@
                &&& lines[i].status == table.routes()[(prefix, r.multi_uniq_id)].status
            },
{
    let (all, kept) = choose|all: Seq<RouteRecord>, kept: Seq<RouteRecord>|
        {
            &&& #[trigger] listed_for(table, prefix, all)
            &&& #[trigger] is_selected_from(function, filter, sources, live(all), kept)
            &&& lines == lines_for(
                prefix,
                kept,
                if prefix == query_prefix {
                    Section::Data
                } else {
                    Section::MoreSpecifics
                },
                sources,
            )
        };
    let s = table.sight(None, true);
    selection_meets_criteria(function, filter, sources, live(all), kept);
    live_records_are_live(all);
    let m = r.multi_uniq_id;
    assert(s.at(prefix, m) is Some);
    let j = choose|j: int| 0 <= j < all.len() && (#[trigger] all[j]).multi_uniq_id == m;
    let q = all[j];
    assert(all.contains(q));
    assert(live(all).contains(q));
    let k = choose|k: int| 0 <= k < live(all).len() && live(all)[k] == q;
    assert(meets_every_criterion(filter, sources, live(all)[k]));
    assert(kept.contains(q));
    let i = choose|i: int| 0 <= i < kept.len() && kept[i] == q;
    assert(lines[i].ingress_id == m);
}

//------------ The list of live routes ---------------------------------------

/// Whether no prefix has two entries.
spec fn told_apart(all: Seq<(Prefix, Seq<RouteRecord>)>) -> bool {
    forall|i: int, j: int|
        #![trigger all[i], all[j]]
        0 <= i < j < all.len() ==> all[i].0 != all[j].0
}

/// The place of a live entry among all.
proof fn live_entry_is_among_all(all: Seq<(Prefix, Seq<RouteRecord>)>, i: int) -> (j: int)
    requires
        0 <= i < live_entries(all).len(),
    ensures
        0 <= j < all.len(),
        live_entries(all)[i] == (all[j].0, live(all[j].1)),
        live(all[j].1).len() > 0,
    decreases all.len(),
{
    let init = all.drop_last();
    if i < live_entries(init).len() {
        live_entry_is_among_all(init, i)
    } else {
        all.len() - 1
    }
}

/// The place of an entry that has live routes among the live ones.
proof fn entry_is_among_live(all: Seq<(Prefix, Seq<RouteRecord>)>, j: int) -> (i: int)
    requires
        0 <= j < all.len(),
        live(all[j].1).len() > 0,
    ensures
        0 <= i < live_entries(all).len(),
        live_entries(all)[i] == (all[j].0, live(all[j].1)),
    decreases all.len(),
{
    let init = all.drop_last();
    if j < init.len() {
        entry_is_among_live(init, j)
    } else {
        live_entries(all).len() - 1
    }
}

proof fn live_entries_are_told_apart(all: Seq<(Prefix, Seq<RouteRecord>)>)
    requires
        told_apart(all),
    ensures
        told_apart(live_entries(all)),
    decreases all.len(),
{
    if all.len() > 0 {
        let init = all.drop_last();
        live_entries_are_told_apart(init);
        let few = live_entries(all);
        assert forall|i: int, j: int|
            #![trigger few[i], few[j]]
            0 <= i < j < few.len() implies few[i].0 != few[j].0 by {
            if j >= live_entries(init).len() {
                let k = live_entry_is_among_all(init, i);
                assert(init[k] == all[k]);
                assert(all[k].0 != all[all.len() - 1].0);
            } else {
                assert(few[i] == live_entries(init)[i] && few[j] == live_entries(init)[j]);
            }
        }
    }
}

/// The list of live routes has, under each prefix of at least one bit, a record
/// of every unicast route that is filed as other than withdrawn and whose source
/// is not withdrawn in the family, with what is filed of it. It has no other
/// record, no entry without records, and no prefix twice.
pub proof fn listed_are_the_live_routes(
    rib: Rib,
    prs: Seq<PrefixRecord>,
    i: int,
    k: int,
    p: Prefix,
    id: IngressId,
)
    requires
        live_routes_listed(rib, prs),
    ensures
        prefixes_of(prs).no_duplicates(),
        0 <= i < prs.len() ==> prs[i].meta@.len() > 0,
        0 <= i < prs.len() && 0 <= k < prs[i].meta@.len() ==> {
            let r = prs[i].meta@[k];
            let key = (prs[i].prefix, r.multi_uniq_id);
            let routes = rib.unicast_spec().routes();
            &&& prs[i].prefix.len_spec() > 0
            &&& routes.contains_key(key)
            &&& r.status == routes[key].status
            &&& r.status != RouteStatus::Withdrawn
            &&& r.ltime == routes[key].ltime
            &&& r.meta@ == routes[key].value
            &&& !rib.unicast_spec().withdrawn().contains((key.0.addr_spec() is V4, key.1))
        },
        p.len_spec() > 0 && rib.unicast_spec().routes().contains_key((p, id))
            && rib.unicast_spec().routes()[(p, id)].status != RouteStatus::Withdrawn
            && !rib.unicast_spec().withdrawn().contains((p.addr_spec() is V4, id)) ==> exists|
            a: int,
            b: int,
        |
            #![trigger prs[a].meta@[b]]
            0 <= a < prs.len() && prs[a].prefix == p && 0 <= b < prs[a].meta@.len()
                && prs[a].meta@[b].multi_uniq_id == id,
{
    let table = rib.unicast_spec();
    let s = table.sight(None, true);
    let all = choose|all: Seq<PrefixRecord>| #[trigger]
        routes_stored(s, true, true, all) && entries(prs) == live_entries(entries(all));
    let whole = entries(all);
    assert(told_apart(whole)) by {
        assert forall|x: int, y: int|
            #![trigger whole[x], whole[y]]
            0 <= x < y < whole.len() implies whole[x].0 != whole[y].0 by {
            assert(prefixes_of(all)[x] == all[x].prefix);
            assert(prefixes_of(all)[y] == all[y].prefix);
        }
    }
    live_entries_are_told_apart(whole);
    assert forall|x: int, y: int|
        0 <= x < prefixes_of(prs).len() && 0 <= y < prefixes_of(prs).len() && x != y implies prefixes_of(
        prs,
    )[x] != prefixes_of(prs)[y] by {
        assert(entries(prs)[x].0 == prs[x].prefix);
        assert(entries(prs)[y].0 == prs[y].prefix);
    }
    if 0 <= i < prs.len() {
        assert(entries(prs)[i] == (prs[i].prefix, prs[i].meta@));
        let j = live_entry_is_among_all(whole, i);
        assert(whole[j] == (all[j].prefix, all[j].meta@));
        let records = all[j].meta@;
        if 0 <= k < prs[i].meta@.len() {
            live_records_are_live(records);
            let r = prs[i].meta@[k];
            assert(live(records)[k] == r);
            live_is_all_but_withdrawn(records);
            let x = kept_record_is_among_all(records, k);
            assert(s.lists_routes(all[j].prefix, records));
            assert(s.at(all[j].prefix, records[x].multi_uniq_id) is Some);
            assert(prefixes_of(all)[j] == all[j].prefix);
            assert(prefixes_of(all).contains(all[j].prefix));
        }
    }
    if p.len_spec() > 0 && table.routes().contains_key((p, id)) && table.routes()[(p, id)].status
        != RouteStatus::Withdrawn && !table.withdrawn().contains((p.addr_spec() is V4, id)) {
        assert(s.at(p, id) is Some);
        assert(s.shows(p));
        assert(prefixes_of(all).contains(p));
        let j = choose|j: int| 0 <= j < prefixes_of(all).len() && prefixes_of(all)[j] == p;
        let records = all[j].meta@;
        assert(s.lists_routes(p, records));
        let x = choose|x: int|
            0 <= x < records.len() && (#[trigger] records[x]).multi_uniq_id == id;
        let b = record_is_kept(records, x);
        let a = entry_is_among_live(whole, j);
        assert(entries(prs)[a] == (prs[a].prefix, prs[a].meta@));
        assert(prs[a].meta@[b].multi_uniq_id == id);
    }
}

proof fn kept_record_is_among_all(records: Seq<RouteRecord>, k: int) -> (x: int)
    requires
        0 <= k < live(records).len(),
    ensures
        0 <= x < records.len(),
        live(records)[k] == records[x],
        records[x].status != RouteStatus::Withdrawn,
    decreases records.len(),
{
    let init = records.drop_last();
    if k < live(init).len() {
        kept_record_is_among_all(init, k)
    } else {
        records.len() - 1
    }
}

proof fn record_is_kept(records: Seq<RouteRecord>, x: int) -> (k: int)
    requires
        0 <= x < records.len(),
        records[x].status != RouteStatus::Withdrawn,
    ensures
        0 <= k < live(records).len(),
        live(records)[k] == records[x],
    decreases records.len(),
{
    let init = records.drop_last();
    if x < init.len() {
        record_is_kept(init, x)
    } else {
        live(records).len() - 1
    }
}

} // verus!
