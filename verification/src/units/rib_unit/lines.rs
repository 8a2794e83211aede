//! The lines of an answer that is written one route per line.
use crate::ingress::{IngressId, IngressInfo};
use crate::net::{prefix_by_parts, prefix_is_valid, AfiSafiType, Prefix};
use crate::payload::{RotondaPaMap, RouteStatus};
use crate::text::opt_text;
use crate::units::rib_unit::filter::{
    all_readable, apply_filter, are_verdicts, asks_for_attributes, has_no_criteria, one_per_source,
    open_query_keeps_everything, selection, selection_keeps_one_per_source,
};
use crate::units::rib_unit::http_ng::{Include, QueryFilter};
use crate::units::rib_unit::records::{PrefixRecord, RouteRecord};
use crate::units::rib_unit::rib::{
    entries, entry, is_answer, is_multicast, is_selected_from, is_supported, listed_for, live,
    live_records_are_live, opt_selected_from, search_error, seen_is_readable, selected_entries,
    Rib, SearchResult,
};
use crate::units::rib_unit::store::{is_match, is_stored, Sight};
use crate::units::rib_unit::table::{
    is_found, prefixes_of, routes_readable, RouteTable, TableMatch,
};
use std::collections::HashMap;
use vstd::arithmetic::div_mod::lemma_fundamental_div_mod;
use vstd::arithmetic::power2::{lemma_pow2_pos, pow2};
use vstd::prelude::*;
use vstd::std_specs::hash::*;
use vstd::string::*;

verus! {

/// Where a route stands in an answer.
#[derive(Clone, Copy, Debug, PartialEq, Eq, Structural)]
pub enum Section {
    Data,
    MoreSpecifics,
    LessSpecifics,
}

impl Section {
    /// The word for the section.
    pub open spec fn word(self) -> Seq<char> {
        match self {
            Section::Data => "data"@,
            Section::MoreSpecifics => "moreSpecifics"@,
            Section::LessSpecifics => "lessSpecifics"@,
        }
    }

    /// The word for the section.
    pub fn name(self) -> (name: &'static str)
        ensures
            name@ == self.word(),
    {
        match self {
            Section::Data => "data",
            Section::MoreSpecifics => "moreSpecifics",
            Section::LessSpecifics => "lessSpecifics",
        }
    }
}

/// One route of an answer that is written line by line. A line is identified by
/// its prefix and its source.
#[derive(Debug)]
pub struct JsonlLine {
    pub prefix: Prefix,
    pub section: Section,
    pub status: RouteStatus,
    pub ingress_id: IngressId,
    pub ingress: Option<IngressInfo>,
    pub meta: RotondaPaMap,
}

/// What is known of a source, if anything is.
pub open spec fn known_of(sources: Map<IngressId, IngressInfo>, id: IngressId) -> Option<
    IngressInfo,
> {
    if sources.contains_key(id) {
        Some(sources[id])
    } else {
        None
    }
}

/// The line for a route.
pub open spec fn line_for(
    prefix: Prefix,
    record: RouteRecord,
    section: Section,
    sources: Map<IngressId, IngressInfo>,
) -> JsonlLine {
    JsonlLine {
        prefix,
        section,
        status: record.status,
        ingress_id: record.multi_uniq_id,
        ingress: known_of(sources, record.multi_uniq_id),
        meta: record.meta,
    }
}

/// The lines for the routes to a prefix.
pub open spec fn lines_for(
    prefix: Prefix,
    records: Seq<RouteRecord>,
    section: Section,
    sources: Map<IngressId, IngressInfo>,
) -> Seq<JsonlLine> {
    records.map_values(|r: RouteRecord| line_for(prefix, r, section, sources))
}

/// The lines for the routes of entries.
pub open spec fn lines_for_all(
    all: Seq<(Prefix, Seq<RouteRecord>)>,
    section: Section,
    sources: Map<IngressId, IngressInfo>,
) -> Seq<JsonlLine>
    decreases all.len(),
{
    if all.len() == 0 {
        Seq::empty()
    } else {
        lines_for_all(all.drop_last(), section, sources) + lines_for(
            all.last().0,
            all.last().1,
            section,
            sources,
        )
    }
}

/// The lines for optional entries.
pub open spec fn opt_lines(
    prs: Option<Vec<PrefixRecord>>,
    section: Section,
    sources: Map<IngressId, IngressInfo>,
) -> Seq<JsonlLine> {
    match prs {
        Some(v) => lines_for_all(entries(v@), section, sources),
        None => Seq::empty(),
    }
}

/// The lines of an answer: those of the matching prefix, then those of the more
/// specific prefixes, then those of the less specific ones.
pub open spec fn lines_of(answer: TableMatch, sources: Map<IngressId, IngressInfo>) -> Seq<
    JsonlLine,
> {
    (match answer.prefix {
        Some(p) => lines_for(p, answer.records@, Section::Data, sources),
        None => Seq::empty(),
    }) + opt_lines(answer.more_specifics, Section::MoreSpecifics, sources) + opt_lines(
        answer.less_specifics,
        Section::LessSpecifics,
        sources,
    )
}

/// Appends the lines for the routes to a prefix.
fn push_lines(
    lines: &mut Vec<JsonlLine>,
    prefix: Prefix,
    records: &Vec<RouteRecord>,
    section: Section,
    ingress_info: &HashMap<IngressId, IngressInfo>,
)
    ensures
        final(lines)@ == old(lines)@ + lines_for(prefix, records@, section, ingress_info@),
{
    let ghost want = lines_for(prefix, records@, section, ingress_info@);
    let mut i: usize = 0;
    assert(old(lines)@ + want.take(0) =~= old(lines)@);
    while i < records.len()
        invariant
            i <= records@.len(),
            want == lines_for(prefix, records@, section, ingress_info@),
            lines@ == old(lines)@ + want.take(i as int),
        decreases records@.len() - i,
    {
        let record = &records[i];
        let ingress = match ingress_info.get(&record.multi_uniq_id) {
            Some(info) => Some(info.clone()),
            None => None,
        };
        lines.push(
            JsonlLine {
                prefix,
                section,
                status: record.status,
                ingress_id: record.multi_uniq_id,
                ingress,
                meta: record.meta.clone(),
            },
        );
        i += 1;
        assert(lines@ =~= old(lines)@ + want.take(i as int));
    }
    assert(want.take(i as int) =~= want);
}

/// Appends the lines for the routes of entries.
fn push_all_lines(
    lines: &mut Vec<JsonlLine>,
    prs: &Vec<PrefixRecord>,
    section: Section,
    ingress_info: &HashMap<IngressId, IngressInfo>,
)
    ensures
        final(lines)@ == old(lines)@ + lines_for_all(entries(prs@), section, ingress_info@),
{
    let ghost all = entries(prs@);
    let mut i: usize = 0;
    proof {
        assert(all.take(0) =~= Seq::empty());
        assert(old(lines)@ + lines_for_all(all.take(0), section, ingress_info@) =~= old(lines)@);
    }
    while i < prs.len()
        invariant
            i <= prs@.len(),
            all == entries(prs@),
            lines@ == old(lines)@ + lines_for_all(all.take(i as int), section, ingress_info@),
        decreases prs@.len() - i,
    {
        push_lines(lines, prs[i].prefix, &prs[i].meta, section, ingress_info);
        proof {
            assert(all.take(i + 1).drop_last() =~= all.take(i as int));
            assert(all[i as int] == entry(prs@[i as int]));
            assert(lines@ =~= old(lines)@ + lines_for_all(all.take(i + 1), section, ingress_info@));
        }
        i += 1;
    }
    assert(all.take(i as int) =~= all);
}

impl SearchResult {
    /// The lines of the answer: those of the matching prefix, then those of the
    /// more specific prefixes, then those of the less specific ones.
    pub fn write_jsonl(&self) -> (lines: Vec<JsonlLine>)
        ensures
            lines@ == lines_of(self.query_result, self.ingress_info@),
    {
        let mut lines: Vec<JsonlLine> = Vec::new();
        if let Some(prefix) = self.query_result.prefix {
            push_lines(
                &mut lines,
                prefix,
                &self.query_result.records,
                Section::Data,
                &self.ingress_info,
            );
        }
        let ghost data = lines@;
        proof {
            assert(data =~= match self.query_result.prefix {
                Some(p) => lines_for(
                    p,
                    self.query_result.records@,
                    Section::Data,
                    self.ingress_info@,
                ),
                None => Seq::empty(),
            });
        }
        if let Some(prs) = &self.query_result.more_specifics {
            push_all_lines(&mut lines, prs, Section::MoreSpecifics, &self.ingress_info);
        }
        assert(lines@ =~= data + opt_lines(
            self.query_result.more_specifics,
            Section::MoreSpecifics,
            self.ingress_info@,
        ));
        let ghost more = lines@;
        if let Some(prs) = &self.query_result.less_specifics {
            push_all_lines(&mut lines, prs, Section::LessSpecifics, &self.ingress_info);
        }
        assert(lines@ =~= more + opt_lines(
            self.query_result.less_specifics,
            Section::LessSpecifics,
            self.ingress_info@,
        ));
        lines
    }
}

/// Whether these are the lines of a stream for one prefix: for its routes that
/// are not withdrawn, narrowed by the criteria of the query. The prefix asked
/// for stands apart from those that are more specific.
pub open spec fn is_stream_part<F: Fn(&RotondaPaMap) -> bool>(
    table: RouteTable,
    query_prefix: Prefix,
    prefix: Prefix,
    filter: QueryFilter,
    function: Option<F>,
    sources: Map<IngressId, IngressInfo>,
    lines: Seq<JsonlLine>,
) -> bool {
    exists|all: Seq<RouteRecord>, kept: Seq<RouteRecord>|
        {
            &&& #[trigger] listed_for(table, prefix, all)
            &&& #[trigger] is_selected_from(function, filter, sources, live(all), kept)
            &&& lines == lines_for(
                prefix,
                kept,
                if prefix == query_prefix {
                    Section::Data
                } else {
                    Section::MoreSpecifics
                },
                sources,
            )
        }
}

impl Rib {
    /// Starts to stream all routes: checks the query, and lists the prefixes
    /// whose lines are to be written one after the other. The prefixes are
    /// those of the family of the prefix asked for.
    pub fn start_jsonl_stream(
        &self,
        afisafi: AfiSafiType,
        query_prefix: Prefix,
        filter: &QueryFilter,
        roto_defined: bool,
    ) -> (res: Result<Vec<Prefix>, String>)
        requires
            self.wf(),
        ensures
            match search_error(afisafi, opt_text(filter.roto_function), roto_defined) {
                Some(text) => res matches Err(e) && e@ == text,
                None => {
                    &&& res matches Ok(prefixes)
                    &&& (res->Ok_0)@.no_duplicates()
                    &&& forall|p: Prefix| #[trigger]
                        (res->Ok_0)@.contains(p) <==> (is_stored(
                            self.table(is_multicast(afisafi)).routes(),
                            p,
                        ) && p.len_spec() > 0 && p.addr_spec() is V4
                            == query_prefix.addr_spec() is V4)
                },
            },
    {
        if let Err(e) = self.check_filter_and_store(afisafi, filter, roto_defined) {
            return Err(e);
        }
        let multicast = matches!(
            afisafi,
            AfiSafiType::Ipv4Multicast | AfiSafiType::Ipv6Multicast
        );
        Ok(self.stored_prefixes(multicast, query_prefix.is_v4()))
    }

    /// The lines for one prefix of a stream: its routes that are not withdrawn,
    /// narrowed by the criteria of the query. The prefix asked for stands apart
    /// from those that are more specific.
    pub fn write_jsonl_stream<F: Fn(&RotondaPaMap) -> bool>(
        &self,
        afisafi: AfiSafiType,
        query_prefix: Prefix,
        prefix: Prefix,
        filter: &QueryFilter,
        roto_function: &Option<F>,
        ingress_info: &HashMap<IngressId, IngressInfo>,
    ) -> (lines: Vec<JsonlLine>)
        requires
            self.wf(),
            asks_for_attributes(*filter) ==> routes_readable(
                self.table(is_multicast(afisafi)).routes(),
            ),
            is_supported(afisafi),
            roto_function matches Some(f) ==> forall|meta: &RotondaPaMap|
                call_requires(f, (meta,)),
        ensures
            is_stream_part(
                self.table(is_multicast(afisafi)),
                query_prefix,
                prefix,
                *filter,
                *roto_function,
                ingress_info@,
                lines@,
            ),
    {
        let multicast = matches!(
            afisafi,
            AfiSafiType::Ipv4Multicast | AfiSafiType::Ipv6Multicast
        );
        let mut records = self.live_records(multicast, prefix);
        let ghost all = choose|all: Seq<RouteRecord>| #[trigger]
            listed_for(self.table(multicast), prefix, all) && records@ == live(all);
        proof {
            let s = self.table(multicast).sight(None, true);
            if asks_for_attributes(*filter) {
                if prefix.len_spec() > 0 {
                    seen_is_readable(s, prefix, all);
                }
                live_is_readable(all);
            }
        }
        apply_filter(&mut records, filter, roto_function, ingress_info);
        assert(is_selected_from(
            *roto_function,
            *filter,
            ingress_info@,
            live(all),
            records@,
        ));
        let section = if prefix == query_prefix {
            Section::Data
        } else {
            Section::MoreSpecifics
        };
        let mut lines: Vec<JsonlLine> = Vec::new();
        push_lines(&mut lines, prefix, &records, section, ingress_info);
        proof {
            assert(multicast == is_multicast(afisafi));
            assert(lines@ =~= lines_for(prefix, records@, section, ingress_info@));
            assert(listed_for(self.table(is_multicast(afisafi)), prefix, all));
        }
        lines
    }
}

proof fn live_is_readable(records: Seq<RouteRecord>)
    requires
        all_readable(records),
    ensures
        all_readable(live(records)),
{
    live_records_are_live(records);
    assert forall|i: int| 0 <= i < live(records).len() implies (
    #[trigger] live(records)[i]).meta@.len() >= 2 by {
        assert(live(records).contains(live(records)[i]));
        let j = choose|j: int| 0 <= j < records.len() && records[j] == live(records)[i];
        assert(records[j].meta@.len() >= 2);
    }
}

//------------ Lines are told apart ------------------------------------------

/// No two lines have the same prefix and source.
pub open spec fn told_apart(lines: Seq<JsonlLine>) -> bool {
    forall|i: int, j: int|
        0 <= i < j < lines.len() ==> (#[trigger] lines[i]).prefix != (#[trigger] lines[j]).prefix
            || lines[i].ingress_id != lines[j].ingress_id
}

/// Whether entries have different prefixes and each at most one route of a
/// source.
pub open spec fn entries_told_apart(all: Seq<(Prefix, Seq<RouteRecord>)>) -> bool {
    &&& forall|i: int, j: int|
        0 <= i < j < all.len() ==> (#[trigger] all[i]).0 != (#[trigger] all[j]).0
    &&& forall|i: int| 0 <= i < all.len() ==> one_per_source((#[trigger] all[i]).1)
}

/// Whether one of the entries is that of a prefix.
spec fn is_among(all: Seq<(Prefix, Seq<RouteRecord>)>, prefix: Prefix) -> bool {
    exists|i: int| 0 <= i < all.len() && (#[trigger] all[i]).0 == prefix
}

proof fn entry_lines_told_apart(
    all: Seq<(Prefix, Seq<RouteRecord>)>,
    section: Section,
    sources: Map<IngressId, IngressInfo>,
)
    requires
        entries_told_apart(all),
    ensures
        told_apart(lines_for_all(all, section, sources)),
        forall|i: int|
            0 <= i < lines_for_all(all, section, sources).len() ==> is_among(
                all,
                (#[trigger] lines_for_all(all, section, sources)[i]).prefix,
            ),
    decreases all.len(),
{
    if all.len() > 0 {
        let init = all.drop_last();
        let last = all.last();
        entry_lines_told_apart(init, section, sources);
        let a = lines_for_all(init, section, sources);
        let b = lines_for(last.0, last.1, section, sources);
        let lines = lines_for_all(all, section, sources);
        assert forall|i: int| 0 <= i < lines.len() implies is_among(
            all,
            (#[trigger] lines[i]).prefix,
        ) by {
            if i < a.len() {
                assert(lines[i] == a[i]);
                let k = choose|k: int| 0 <= k < init.len() && (#[trigger] init[k]).0 == a[i].prefix;
                assert(all[k].0 == a[i].prefix);
            } else {
                assert(all[all.len() - 1].0 == lines[i].prefix);
            }
        }
        assert forall|i: int, j: int| 0 <= i < j < lines.len() implies (
        #[trigger] lines[i]).prefix != (#[trigger] lines[j]).prefix || lines[i].ingress_id
            != lines[j].ingress_id by {
            if j < a.len() {
                assert(lines[i] == a[i] && lines[j] == a[j]);
            } else if i < a.len() {
                assert(is_among(init, a[i].prefix));
                let k = choose|k: int| 0 <= k < init.len() && (#[trigger] init[k]).0 == a[i].prefix;
                assert(all[k].0 != all[all.len() - 1].0);
            } else {
                assert(last.1[i - a.len()].multi_uniq_id != last.1[j - a.len()].multi_uniq_id);
            }
        }
    }
}

/// Selection keeps entries apart, and adds no prefix.
proof fn selected_entries_told_apart(
    filter: QueryFilter,
    sources: Map<IngressId, IngressInfo>,
    all: Seq<(Prefix, Seq<RouteRecord>)>,
    verdicts: Seq<Seq<bool>>,
)
    requires
        entries_told_apart(all),
        verdicts.len() == all.len(),
        forall|i: int| 0 <= i < all.len() ==> (#[trigger] verdicts[i]).len() == all[i].1.len(),
    ensures
        entries_told_apart(selected_entries(filter, sources, all, verdicts)),
        forall|i: int|
            0 <= i < selected_entries(filter, sources, all, verdicts).len() ==> is_among(
                all,
                (#[trigger] selected_entries(filter, sources, all, verdicts)[i]).0,
            ),
    decreases all.len(),
{
    if all.len() > 0 {
        let init = all.drop_last();
        let last = all.last();
        let early = verdicts.drop_last();
        assert forall|i: int| 0 <= i < init.len() implies (#[trigger] early[i]).len()
            == init[i].1.len() by {
            assert(early[i] == verdicts[i]);
        }
        selected_entries_told_apart(filter, sources, init, early);
        assert(verdicts[all.len() - 1].len() == last.1.len());
        selection_keeps_one_per_source(filter, sources, last.1, verdicts.last());
        let rest = selected_entries(filter, sources, init, early);
        let kept = selected_entries(filter, sources, all, verdicts);
        assert forall|i: int| 0 <= i < kept.len() implies is_among(all, (#[trigger] kept[i]).0) by {
            if i < rest.len() {
                assert(kept[i] == rest[i]);
                let k = choose|k: int| 0 <= k < init.len() && (#[trigger] init[k]).0 == rest[i].0;
                assert(all[k].0 == rest[i].0);
            } else {
                assert(all[all.len() - 1].0 == kept[i].0);
            }
        }
        assert forall|i: int, j: int| 0 <= i < j < kept.len() implies (#[trigger] kept[i]).0 != (
        #[trigger] kept[j]).0 by {
            if j < rest.len() {
                assert(kept[i] == rest[i] && kept[j] == rest[j]);
            } else {
                assert(kept[i] == rest[i]);
                let k = choose|k: int| 0 <= k < init.len() && (#[trigger] init[k]).0 == rest[i].0;
                assert(all[k].0 != all[all.len() - 1].0);
            }
        }
        assert forall|i: int| 0 <= i < kept.len() implies one_per_source((#[trigger] kept[i]).1) by {
            if i < rest.len() {
                assert(kept[i] == rest[i]);
            }
        }
    }
}

/// What is seen of prefixes is told apart.
proof fn seen_entries_told_apart(s: Sight<Seq<u8>>, prs: Seq<PrefixRecord>)
    requires
        s.lists_prefixes(prs),
    ensures
        entries_told_apart(entries(prs)),
        forall|i: int|
            0 <= i < entries(prs).len() ==> prefixes_of(prs).contains((#[trigger] entries(prs)[i]).0),
{
    let all = entries(prs);
    assert forall|i: int| 0 <= i < all.len() implies one_per_source((#[trigger] all[i]).1)
        && prefixes_of(prs).contains(all[i].0) by {
        assert(s.lists_routes(prs[i].prefix, prs[i].meta@));
        assert(prefixes_of(prs)[i] == all[i].0);
    }
    assert forall|i: int, j: int| 0 <= i < j < all.len() implies (#[trigger] all[i]).0 != (
    #[trigger] all[j]).0 by {
        assert(prefixes_of(prs)[i] != prefixes_of(prs)[j]);
    }
}

/// Two prefixes that cover each other are the same.
proof fn covering_each_other(a: Prefix, b: Prefix)
    requires
        a.wf(),
        b.wf(),
        a.covers(b),
        b.covers(a),
    ensures
        a == b,
{
    prefix_is_valid(a);
    prefix_is_valid(b);
    let m = a.addr_spec().number();
    let n = b.addr_spec().number();
    let p = pow2((a.addr_spec().width() - a.len_spec()) as nat);
    lemma_pow2_pos((a.addr_spec().width() - a.len_spec()) as nat);
    lemma_fundamental_div_mod(m as int, p as int);
    lemma_fundamental_div_mod(n as int, p as int);
    assert(m == n);
    prefix_by_parts(a, b);
}

/// The lines for optional entries that are left after selection are told apart,
/// and their prefixes are among those that were found.
proof fn opt_lines_told_apart<F: Fn(&RotondaPaMap) -> bool>(
    s: Sight<Seq<u8>>,
    function: Option<F>,
    filter: QueryFilter,
    sources: Map<IngressId, IngressInfo>,
    found: Option<Vec<PrefixRecord>>,
    kept: Option<Vec<PrefixRecord>>,
    section: Section,
)
    requires
        found matches Some(prs) ==> s.lists_prefixes(prs@),
        opt_selected_from(function, filter, sources, found, kept),
    ensures
        told_apart(opt_lines(kept, section, sources)),
        forall|i: int|
            0 <= i < opt_lines(kept, section, sources).len() ==> found is Some && prefixes_of(
                (found->0)@,
            ).contains((#[trigger] opt_lines(kept, section, sources)[i]).prefix),
{
    if let (Some(all), Some(left)) = (found, kept) {
        seen_entries_told_apart(s, all@);
        let verdicts = choose|verdicts: Seq<Seq<bool>>|
            {
                &&& verdicts.len() == entries(all@).len()
                &&& forall|i: int|
                    0 <= i < entries(all@).len() ==> are_verdicts(
                        function,
                        filter,
                        sources,
                        entries(all@)[i].1,
                        #[trigger] verdicts[i],
                    )
                &&& entries(left@) == #[trigger] selected_entries(
                    filter,
                    sources,
                    entries(all@),
                    verdicts,
                )
            };
        selected_entries_told_apart(filter, sources, entries(all@), verdicts);
        entry_lines_told_apart(entries(left@), section, sources);
        let lines = opt_lines(kept, section, sources);
        assert forall|i: int| 0 <= i < lines.len() implies prefixes_of(all@).contains(
            (#[trigger] lines[i]).prefix,
        ) by {
            assert(is_among(entries(left@), lines[i].prefix));
            let k = choose|k: int|
                0 <= k < entries(left@).len() && (#[trigger] entries(left@)[k]).0
                    == lines[i].prefix;
            assert(is_among(entries(all@), entries(left@)[k].0));
            let j = choose|j: int|
                0 <= j < entries(all@).len() && (#[trigger] entries(all@)[j]).0
                    == entries(left@)[k].0;
            assert(prefixes_of(all@).contains(entries(all@)[j].0));
        }
    }
}

/// Each line of an answer is identified by its prefix and its source.
pub proof fn lines_are_identified<F: Fn(&RotondaPaMap) -> bool>(
    table: RouteTable,
    prefix: Prefix,
    filter: QueryFilter,
    function: Option<F>,
    sources: Map<IngressId, IngressInfo>,
    answer: TableMatch,
)
    requires
        prefix.wf(),
        forall|p: Prefix| #[trigger] is_stored(table.routes(), p) ==> p.wf(),
        is_answer(table, prefix, filter, function, sources, answer),
    ensures
        told_apart(lines_of(answer, sources)),
{
    let s = table.sight(filter.ingress_id, false);
    let found = choose|found: TableMatch|
        {
            &&& #[trigger] is_found(
                s,
                prefix,
                false,
                filter.included@.contains(Include::LessSpecifics),
                filter.included@.contains(Include::MoreSpecifics),
                found,
            )
            &&& answer.prefix == found.prefix
            &&& is_selected_from(function, filter, sources, found.records@, answer.records@)
            &&& opt_selected_from(
                function,
                filter,
                sources,
                found.more_specifics,
                answer.more_specifics,
            )
            &&& opt_selected_from(
                function,
                filter,
                sources,
                found.less_specifics,
                answer.less_specifics,
            )
        };
    let data = match answer.prefix {
        Some(p) => lines_for(p, answer.records@, Section::Data, sources),
        None => Seq::empty(),
    };
    let more = opt_lines(answer.more_specifics, Section::MoreSpecifics, sources);
    let less = opt_lines(answer.less_specifics, Section::LessSpecifics, sources);
    if let Some(p) = answer.prefix {
        assert(is_match(s.routes, false, prefix, p));
        assert(p == prefix);
        let verdicts = choose|verdicts: Seq<bool>| #[trigger]
            are_verdicts(function, filter, sources, found.records@, verdicts) && answer.records@
                == selection(filter, sources, found.records@, verdicts);
        assert(s.lists_routes(p, found.records@));
        selection_keeps_one_per_source(filter, sources, found.records@, verdicts);
        assert(told_apart(data)) by {
            assert forall|i: int, j: int| 0 <= i < j < data.len() implies (
            #[trigger] data[i]).ingress_id != (#[trigger] data[j]).ingress_id by {
                assert(answer.records@[i].multi_uniq_id != answer.records@[j].multi_uniq_id);
            }
        }
    }
    opt_lines_told_apart(
        s,
        function,
        filter,
        sources,
        found.more_specifics,
        answer.more_specifics,
        Section::MoreSpecifics,
    );
    opt_lines_told_apart(
        s,
        function,
        filter,
        sources,
        found.less_specifics,
        answer.less_specifics,
        Section::LessSpecifics,
    );
    assert forall|i: int| 0 <= i < more.len() implies (#[trigger] more[i]).prefix != prefix
        && prefix.covers(more[i].prefix) && s.shows(more[i].prefix) by {
        assert(prefixes_of((found.more_specifics->0)@).contains(more[i].prefix));
    }
    assert forall|i: int| 0 <= i < less.len() implies (#[trigger] less[i]).prefix != prefix
        && less[i].prefix.covers(prefix) && s.shows(less[i].prefix) by {
        assert(prefixes_of((found.less_specifics->0)@).contains(less[i].prefix));
    }
    let lines = lines_of(answer, sources);
    assert(lines == data + more + less);
    assert forall|i: int, j: int| 0 <= i < j < lines.len() implies (#[trigger] lines[i]).prefix != (
    #[trigger] lines[j]).prefix || lines[i].ingress_id != lines[j].ingress_id by {
        let d = data.len();
        let m = data.len() + more.len();
        if j < d {
            assert(lines[i] == data[i] && lines[j] == data[j]);
        } else if j < m {
            assert(lines[j] == more[j - d]);
            if i < d {
                assert(lines[i] == data[i]);
                assert(data[i].prefix == prefix);
            } else {
                assert(lines[i] == more[i - d]);
            }
        } else {
            assert(lines[j] == less[j - m]);
            if i < d {
                assert(lines[i] == data[i]);
                assert(data[i].prefix == prefix);
            } else if i < m {
                assert(lines[i] == more[i - d]);
                if more[i - d].prefix == less[j - m].prefix {
                    let p = more[i - d].prefix;
                    let id = choose|id: u32| #[trigger] s.at(p, id) is Some;
                    assert(table.routes().contains_key((p, id)));
                    assert(is_stored(table.routes(), p));
                    covering_each_other(prefix, p);
                }
            } else {
                assert(lines[i] == less[i - m]);
            }
        }
    }
}

//------------ Streams -------------------------------------------------------

/// Whether these are the lines of a stream, prefix by prefix.
pub open spec fn is_stream<F: Fn(&RotondaPaMap) -> bool>(
    table: RouteTable,
    query_prefix: Prefix,
    prefixes: Seq<Prefix>,
    filter: QueryFilter,
    function: Option<F>,
    sources: Map<IngressId, IngressInfo>,
    parts: Seq<Seq<JsonlLine>>,
) -> bool {
    &&& parts.len() == prefixes.len()
    &&& forall|i: int|
        0 <= i < parts.len() ==> is_stream_part(
            table,
            query_prefix,
            prefixes[i],
            filter,
            function,
            sources,
            #[trigger] parts[i],
        )
}

/// Of records with one per source, the live ones have one per source.
pub proof fn live_keeps_one_per_source(records: Seq<RouteRecord>)
    requires
        one_per_source(records),
    ensures
        one_per_source(live(records)),
    decreases records.len(),
{
    if records.len() > 0 {
        let init = records.drop_last();
        live_keeps_one_per_source(init);
        live_records_are_live(init);
        let kept = live(init);
        assert forall|i: int| 0 <= i < kept.len() implies (#[trigger] kept[i]).multi_uniq_id
            != records.last().multi_uniq_id by {
            assert(kept.contains(kept[i]));
            let j = choose|j: int| 0 <= j < init.len() && init[j] == kept[i];
            assert(records[j] == kept[i]);
        }
    }
}

/// Each line of a stream is identified by its prefix and its source, within the
/// lines of a prefix and across prefixes.
pub proof fn stream_lines_are_identified<F: Fn(&RotondaPaMap) -> bool>(
    table: RouteTable,
    query_prefix: Prefix,
    prefixes: Seq<Prefix>,
    filter: QueryFilter,
    function: Option<F>,
    sources: Map<IngressId, IngressInfo>,
    parts: Seq<Seq<JsonlLine>>,
)
    requires
        prefixes.no_duplicates(),
        is_stream(table, query_prefix, prefixes, filter, function, sources, parts),
    ensures
        forall|i: int| 0 <= i < parts.len() ==> told_apart(#[trigger] parts[i]),
        forall|i: int, j: int, k: int, l: int|
            #![trigger parts[i][k], parts[j][l]]
            0 <= i < j < parts.len() && 0 <= k < parts[i].len() && 0 <= l < parts[j].len()
                ==> parts[i][k].prefix != parts[j][l].prefix,
{
    assert forall|i: int| 0 <= i < parts.len() implies told_apart(#[trigger] parts[i]) by {
        let lines = parts[i];
        let p = prefixes[i];
        assert(is_stream_part(table, query_prefix, p, filter, function, sources, lines));
        let (all, kept) = choose|all: Seq<RouteRecord>, kept: Seq<RouteRecord>|
            {
                &&& #[trigger] listed_for(table, p, all)
                &&& #[trigger] is_selected_from(function, filter, sources, live(all), kept)
                &&& lines == lines_for(
                    p,
                    kept,
                    if p == query_prefix {
                        Section::Data
                    } else {
                        Section::MoreSpecifics
                    },
                    sources,
                )
            };
        assert(one_per_source(all));
        live_keeps_one_per_source(all);
        let verdicts = choose|verdicts: Seq<bool>| #[trigger]
            are_verdicts(function, filter, sources, live(all), verdicts) && kept == selection(
                filter,
                sources,
                live(all),
                verdicts,
            );
        selection_keeps_one_per_source(filter, sources, live(all), verdicts);
        assert forall|k: int, l: int| 0 <= k < l < lines.len() implies (
        #[trigger] lines[k]).ingress_id != (#[trigger] lines[l]).ingress_id by {
            assert(kept[k].multi_uniq_id != kept[l].multi_uniq_id);
        }
    }
    assert forall|i: int, j: int, k: int, l: int|
        #![trigger parts[i][k], parts[j][l]]
        0 <= i < j < parts.len() && 0 <= k < parts[i].len() && 0 <= l < parts[j].len() implies parts[i][k].prefix
        != parts[j][l].prefix by {
        assert(is_stream_part(
            table,
            query_prefix,
            prefixes[i],
            filter,
            function,
            sources,
            parts[i],
        ));
        assert(is_stream_part(
            table,
            query_prefix,
            prefixes[j],
            filter,
            function,
            sources,
            parts[j],
        ));
        assert(prefixes[i] != prefixes[j]);
    }
}

/// A stream of a query without criteria and without function shows every stored
/// route that is not withdrawn, but for those of the prefix without bits.
pub proof fn open_stream_shows_every_live_route<F: Fn(&RotondaPaMap) -> bool>(
    table: RouteTable,
    query_prefix: Prefix,
    prefixes: Seq<Prefix>,
    filter: QueryFilter,
    sources: Map<IngressId, IngressInfo>,
    parts: Seq<Seq<JsonlLine>>,
    prefix: Prefix,
    id: IngressId,
)
    requires
        has_no_criteria(filter),
        is_stream(table, query_prefix, prefixes, filter, None::<F>, sources, parts),
        prefixes.contains(prefix),
        prefix.len_spec() > 0,
        table.sight(None, true).at(prefix, id) matches Some(route) && route.status
            != RouteStatus::Withdrawn,
    ensures
        exists|i: int, k: int|
            {
                &&& 0 <= i < parts.len()
                &&& 0 <= k < parts[i].len()
                &&& (#[trigger] parts[i][k]).prefix == prefix
                &&& parts[i][k].ingress_id == id
                &&& parts[i][k].status == (table.sight(None, true).at(prefix, id)->0).status
                &&& parts[i][k].meta@ == (table.sight(None, true).at(prefix, id)->0).value
            },
{
    let s = table.sight(None, true);
    let i = choose|i: int| 0 <= i < prefixes.len() && prefixes[i] == prefix;
    let lines = parts[i];
    assert(is_stream_part(table, query_prefix, prefix, filter, None::<F>, sources, lines));
    let (all, kept) = choose|all: Seq<RouteRecord>, kept: Seq<RouteRecord>|
        {
            &&& #[trigger] listed_for(table, prefix, all)
            &&& #[trigger] is_selected_from(None::<F>, filter, sources, live(all), kept)
            &&& lines == lines_for(
                prefix,
                kept,
                if prefix == query_prefix {
                    Section::Data
                } else {
                    Section::MoreSpecifics
                },
                sources,
            )
        };
    let verdicts = choose|verdicts: Seq<bool>| #[trigger]
        are_verdicts(None::<F>, filter, sources, live(all), verdicts) && kept == selection(
            filter,
            sources,
            live(all),
            verdicts,
        );
    open_query_keeps_everything(filter, sources, live(all), verdicts);
    assert(s.at(prefix, id) is Some);
    let j = choose|j: int| 0 <= j < all.len() && (#[trigger] all[j]).multi_uniq_id == id;
    live_records_are_live(all);
    assert(all.contains(all[j]));
    assert(live(all).contains(all[j]));
    let k = choose|k: int| 0 <= k < kept.len() && kept[k] == all[j];
    assert(parts[i][k] == lines_for(
        prefix,
        kept,
        if prefix == query_prefix {
            Section::Data
        } else {
            Section::MoreSpecifics
        },
        sources,
    )[k]);
}

} // verus!
