//! Queries over HTTP: what they ask for, and how they are answered.
use crate::ingress::{IngressId, PeerRibType};
use crate::net::{
    checked_prefix, default_route_covers, default_route_is_unique, Asn, IpAddr, Prefix, PrefixError,
};
use crate::text::same_text;
use crate::units::bmp_tcp_in::io::{ErrorKind, IoError};
use crate::units::rib_unit::rpki::RovStatus;
use crate::wire::push_bytes;
use vstd::prelude::*;
use vstd::string::*;

verus! {

//------------ Routes of the API ---------------------------------------------

/// What answers a request.
#[derive(Clone, Copy, Debug, PartialEq, Eq, Structural)]
pub enum Handler {
    SearchIpv4Unicast,
    SearchIpv4UnicastAll,
    SearchIpv6Unicast,
    SearchIpv6UnicastAll,
    GenericAfiSafiAll,
}

/// A path of the API and what answers it.
#[derive(Clone, Copy, Debug)]
pub struct ApiRoute {
    pub path: &'static str,
    pub handler: Handler,
}

/// The paths of an API that answer GET requests.
#[derive(Debug)]
pub struct Api {
    pub routes: Vec<ApiRoute>,
}

impl View for Api {
    type V = Seq<(Seq<char>, Handler)>;

    open spec fn view(&self) -> Seq<(Seq<char>, Handler)> {
        self.routes@.map_values(|r: ApiRoute| (r.path@, r.handler))
    }
}

impl Api {
    /// An API without paths.
    pub fn new() -> (api: Self)
        ensures
            api@ == Seq::<(Seq<char>, Handler)>::empty(),
    {
        let api = Api { routes: Vec::new() };
        assert(api@ =~= Seq::<(Seq<char>, Handler)>::empty());
        api
    }

    /// Adds a path.
    pub fn add_get(&mut self, path: &'static str, handler: Handler)
        ensures
            final(self)@ == old(self)@.push((path@, handler)),
    {
        self.routes.push(ApiRoute { path, handler });
        assert(self@ =~= old(self)@.push((path@, handler)));
    }
}

/// The paths for routes. Those that name an address family come before the one
/// for any family, and take precedence over it.
pub open spec fn rib_routes() -> Seq<(Seq<char>, Handler)> {
    seq![
        ("/ribs/ipv4unicast/routes/{prefix}/{prefix_len}"@, Handler::SearchIpv4Unicast),
        ("/ribs/ipv4unicast/routes"@, Handler::SearchIpv4UnicastAll),
        ("/ribs/ipv6unicast/routes/{prefix}/{prefix_len}"@, Handler::SearchIpv6Unicast),
        ("/ribs/ipv6unicast/routes"@, Handler::SearchIpv6UnicastAll),
        ("/ribs/{afisafi}/routes"@, Handler::GenericAfiSafiAll),
    ]
}

/// Adds the paths for routes to an API.
pub fn register_routes(router: &mut Api)
    ensures
        final(router)@ == old(router)@ + rib_routes(),
{
    router.add_get("/ribs/ipv4unicast/routes/{prefix}/{prefix_len}", Handler::SearchIpv4Unicast);
    router.add_get("/ribs/ipv4unicast/routes", Handler::SearchIpv4UnicastAll);
    router.add_get("/ribs/ipv6unicast/routes/{prefix}/{prefix_len}", Handler::SearchIpv6Unicast);
    router.add_get("/ribs/ipv6unicast/routes", Handler::SearchIpv6UnicastAll);
    router.add_get("/ribs/{afisafi}/routes", Handler::GenericAfiSafiAll);
    assert(router@ =~= old(router)@ + rib_routes());
}

//------------ QueryFilter ---------------------------------------------------

/// What else a query is to return.
#[derive(Clone, Copy, Debug, PartialEq, Eq, Structural)]
pub enum Include {
    MoreSpecifics,
    LessSpecifics,
}

/// A word that names nothing that a query could return.
#[derive(Clone, Copy, Debug, PartialEq, Eq, Structural)]
pub struct UnknownInclude;

impl UnknownInclude {
    /// What is said of the error.
    pub fn message(&self) -> (text: &'static str)
        ensures
            text@ == "unknown include"@,
    {
        "unknown include"
    }
}

/// What a word names, if it names something that a query could return.
pub open spec fn include_named(word: Seq<char>) -> Result<Include, UnknownInclude> {
    if word == "moreSpecifics"@ {
        Ok(Include::MoreSpecifics)
    } else if word == "lessSpecifics"@ {
        Ok(Include::LessSpecifics)
    } else {
        Err(UnknownInclude)
    }
}

impl Include {
    /// Reads what a word names.
    pub fn parse(s: &str) -> (res: Result<Include, UnknownInclude>)
        ensures
            res == include_named(s@),
    {
        proof {
            reveal_strlit("moreSpecifics");
            reveal_strlit("lessSpecifics");
            assert("moreSpecifics"@[0] != "lessSpecifics"@[0]);
        }
        if same_text(s, "moreSpecifics") {
            Ok(Include::MoreSpecifics)
        } else if same_text(s, "lessSpecifics") {
            Ok(Include::LessSpecifics)
        } else {
            Err(UnknownInclude)
        }
    }
}

impl std::str::FromStr for Include {
    type Err = UnknownInclude;

    fn from_str(s: &str) -> (res: Result<Include, UnknownInclude>)
        ensures
            res == include_named(s@),
    {
        Include::parse(s)
    }
}

/// How an answer is written.
#[derive(Clone, Copy, Debug, PartialEq, Eq, Structural)]
pub enum OutputFormat {
    /// One document.
    Json,
    /// One document per line, which can be streamed.
    Jsonl,
}

/// What a query asks for. Each criterion that is set narrows the answer.
#[derive(Debug)]
pub struct QueryFilter {
    pub included: Vec<Include>,
    pub ingress_id: Option<IngressId>,
    pub origin_asn: Option<Asn>,
    pub otc: Option<Asn>,
    pub community: Option<u32>,
    pub large_community: Option<(u32, u32, u32)>,
    pub rib_type: Option<PeerRibType>,
    pub rov_status: Option<RovStatus>,
    pub peer_asn: Option<Asn>,
    pub peer_addr: Option<IpAddr>,
    pub fields_path_attributes: Option<Vec<u8>>,
    pub roto_function: Option<String>,
    pub format: OutputFormat,
}

impl Default for QueryFilter {
    fn default() -> (filter: Self)
        ensures
            filter.included@ == Seq::<Include>::empty(),
            filter.ingress_id is None,
            filter.origin_asn is None,
            filter.otc is None,
            filter.community is None,
            filter.large_community is None,
            filter.rib_type is None,
            filter.rov_status is None,
            filter.peer_asn is None,
            filter.peer_addr is None,
            filter.fields_path_attributes is None,
            filter.roto_function is None,
            filter.format == OutputFormat::Json,
    {
        QueryFilter {
            included: Vec::new(),
            ingress_id: None,
            origin_asn: None,
            otc: None,
            community: None,
            large_community: None,
            rib_type: None,
            rov_status: None,
            peer_asn: None,
            peer_addr: None,
            fields_path_attributes: None,
            roto_function: None,
            format: OutputFormat::Json,
        }
    }
}

impl QueryFilter {
    /// Whether a query is to return something.
    pub fn includes(&self, what: Include) -> (yes: bool)
        ensures
            yes == self.included@.contains(what),
    {
        let mut i: usize = 0;
        while i < self.included.len()
            invariant
                i <= self.included@.len(),
                forall|j: int| 0 <= j < i ==> self.included@[j] != what,
            decreases self.included@.len() - i,
        {
            if self.included[i] == what {
                assert(self.included@[i as int] == what);
                return true;
            }
            i += 1;
        }
        false
    }

    /// Lets the query return the more specific prefixes too.
    pub fn enable_more_specifics(&mut self)
        ensures
            final(self).included@ == with_more_specifics(old(self).included@),
            final(self).included@.contains(Include::MoreSpecifics),
            *final(self) == (QueryFilter { included: final(self).included, ..*old(self) }),
    {
        if !self.includes(Include::MoreSpecifics) {
            self.included.push(Include::MoreSpecifics);
            assert(self.included@[self.included@.len() - 1] == Include::MoreSpecifics);
        }
    }
}

/// What is to be returned, with the more specific prefixes.
pub open spec fn with_more_specifics(included: Seq<Include>) -> Seq<Include> {
    if included.contains(Include::MoreSpecifics) {
        included
    } else {
        included.push(Include::MoreSpecifics)
    }
}

/// To ask for the more specific prefixes twice is to ask for them once.
pub proof fn enabling_twice(included: Seq<Include>)
    ensures
        with_more_specifics(with_more_specifics(included)) == with_more_specifics(included),
{
    let once = with_more_specifics(included);
    if !included.contains(Include::MoreSpecifics) {
        assert(once[once.len() - 1] == Include::MoreSpecifics);
    }
}

//------------ Answers -------------------------------------------------------

/// Why a request is refused.
#[derive(Debug)]
pub enum ApiError {
    BadRequest(String),
    InternalServerError(String),
    ServiceUnavailable(String),
}

/// What is said of an address and a length that do not make a prefix.
pub open spec fn prefix_error_text(e: PrefixError) -> Seq<char> {
    match e {
        PrefixError::LenOverflow => "prefix length too large"@,
        PrefixError::NonZeroHost => "non-zero host portion"@,
    }
}

/// How a search is carried out.
#[derive(Clone, Copy, Debug, PartialEq, Eq, Structural)]
pub enum SearchPlan {
    /// All routes of the address family are streamed.
    StreamAll,
    /// The prefix is looked up.
    LookUp,
}

/// Whether a search returns every prefix: it asks for what is more specific
/// than a prefix without bits.
pub open spec fn asks_for_everything(len: u8, included: Seq<Include>) -> bool {
    len == 0 && included.contains(Include::MoreSpecifics)
}

/// Decides how a search for a prefix is carried out.
///
/// A search for everything has to be streamed: to collect the whole table in
/// memory first could exhaust it.
pub fn plan_search(addr: IpAddr, prefix_len: u8, store_available: bool, filter: &QueryFilter) -> (res:
    Result<(Prefix, SearchPlan), ApiError>)
    ensures
        match checked_prefix(addr, prefix_len) {
            Err(e) => res matches Err(ApiError::BadRequest(text)) && text@ == prefix_error_text(e),
            Ok(_) => if !store_available {
                res matches Err(ApiError::InternalServerError(text)) && text@
                    == "store unavailable"@
            } else if asks_for_everything(prefix_len, filter.included@) && filter.format
                != OutputFormat::Jsonl {
                res matches Err(ApiError::BadRequest(text)) && text@
                    == "full-RIB dump (/0 with moreSpecifics) requires format=jsonl so it can be streamed within bounded memory"@
            } else {
                res matches Ok(plan) && plan.0.addr_spec() == addr && plan.0.len_spec()
                    == prefix_len && plan.1 == if asks_for_everything(
                    prefix_len,
                    filter.included@,
                ) {
                    SearchPlan::StreamAll
                } else {
                    SearchPlan::LookUp
                }
            },
        },
{
    let prefix = match Prefix::new(addr, prefix_len) {
        Ok(prefix) => prefix,
        Err(PrefixError::LenOverflow) => {
            return Err(ApiError::BadRequest("prefix length too large".to_owned()));
        },
        Err(PrefixError::NonZeroHost) => {
            return Err(ApiError::BadRequest("non-zero host portion".to_owned()));
        },
    };
    if !store_available {
        return Err(ApiError::InternalServerError("store unavailable".to_owned()));
    }
    if prefix.len() == 0 && filter.includes(Include::MoreSpecifics) {
        if filter.format != OutputFormat::Jsonl {
            return Err(
                ApiError::BadRequest(
                    "full-RIB dump (/0 with moreSpecifics) requires format=jsonl so it can be streamed within bounded memory".to_owned(),
                ),
            );
        }
        return Ok((prefix, SearchPlan::StreamAll));
    }
    Ok((prefix, SearchPlan::LookUp))
}

/// Decides how a search for all routes of an address family is carried out: as
/// a search for what is more specific than the prefix without bits.
pub fn plan_search_all(v4: bool, store_available: bool, filter: &mut QueryFilter) -> (res: Result<
    (Prefix, SearchPlan),
    ApiError,
>)
    ensures
        final(filter).included@ == with_more_specifics(old(filter).included@),
        *final(filter) == (QueryFilter { included: final(filter).included, ..*old(filter) }),
        if !store_available {
            res matches Err(ApiError::InternalServerError(text)) && text@ == "store unavailable"@
        } else if old(filter).format != OutputFormat::Jsonl {
            res matches Err(ApiError::BadRequest(text)) && text@
                == "full-RIB dump (/0 with moreSpecifics) requires format=jsonl so it can be streamed within bounded memory"@
        } else {
            res matches Ok(plan) && plan.0.len_spec() == 0 && plan.0.addr_spec() is V4 == v4
                && plan.1 == SearchPlan::StreamAll
        },
{
    filter.enable_more_specifics();
    let addr = if v4 {
        IpAddr::V4(0)
    } else {
        IpAddr::V6(0)
    };
    proof {
        vstd::arithmetic::power2::lemma_pow2_pos(addr.width());
        vstd::arithmetic::div_mod::lemma_small_mod(0, vstd::arithmetic::power2::pow2(addr.width()));
    }
    plan_search(addr, 0, store_available, filter)
}

/// Answers a search in any address family: it is not supported yet.
pub fn generic_afisafi_all() -> (error: ApiError)
    ensures
        error matches ApiError::InternalServerError(text) && text@ == "TODO"@,
{
    ApiError::InternalServerError("TODO".to_owned())
}

//------------ Concurrent dumps ----------------------------------------------

/// Counts the dumps in progress. A dump takes a thread and memory in
/// proportion to the table, so there is a cap on how many run at once.
#[derive(Debug)]
pub struct DumpGuard {
    active: usize,
    cap: usize,
}

impl DumpGuard {
    /// The number of dumps in progress.
    pub closed spec fn running(&self) -> nat {
        self.active as nat
    }

    /// The most that may run at once.
    pub closed spec fn limit(&self) -> nat {
        self.cap as nat
    }

    /// No more dumps run than may.
    pub open spec fn wf(&self) -> bool {
        self.running() <= self.limit()
    }

    /// No dump is in progress.
    pub fn new(cap: usize) -> (guard: Self)
        ensures
            guard.wf(),
            guard.running() == 0,
            guard.limit() == cap,
    {
        DumpGuard { active: 0, cap }
    }

    /// The number of dumps in progress.
    pub fn active(&self) -> (n: usize)
        ensures
            n == self.running(),
    {
        self.active
    }

    /// Starts a dump, unless the cap is reached.
    pub fn try_enter(&mut self) -> (res: Result<(), ApiError>)
        requires
            old(self).wf(),
        ensures
            final(self).wf(),
            final(self).limit() == old(self).limit(),
            if old(self).running() < old(self).limit() {
                res is Ok && final(self).running() == old(self).running() + 1
            } else {
                &&& final(self).running() == old(self).running()
                &&& res matches Err(ApiError::ServiceUnavailable(text)) && text@
                    == "too many concurrent RIB dumps in progress; retry shortly"@
            },
    {
        if self.active < self.cap {
            self.active = self.active + 1;
            Ok(())
        } else {
            Err(
                ApiError::ServiceUnavailable(
                    "too many concurrent RIB dumps in progress; retry shortly".to_owned(),
                ),
            )
        }
    }

    /// Ends a dump.
    pub fn leave(&mut self)
        requires
            old(self).wf(),
            old(self).running() > 0,
        ensures
            final(self).wf(),
            final(self).limit() == old(self).limit(),
            final(self).running() == old(self).running() - 1,
    {
        self.active = self.active - 1;
    }
}

//------------ Streaming -----------------------------------------------------

/// The size from which buffered octets are sent on.
pub const STREAM_CHUNK_SIZE: usize = 262_144;

/// For how many seconds a consumer may leave the stream full before it is given
/// up.
pub const STREAM_WRITE_STALL_SECS: u64 = 60;

/// Collects what is written into chunks.
#[derive(Debug)]
pub struct StreamResponseWriter {
    buffer: Vec<u8>,
}

impl StreamResponseWriter {
    /// What was written and not sent yet.
    pub closed spec fn pending(&self) -> Seq<u8> {
        self.buffer@
    }

    /// Less than a chunk waits.
    pub open spec fn wf(&self) -> bool {
        self.pending().len() < STREAM_CHUNK_SIZE
    }

    /// Nothing was written yet.
    pub fn new() -> (writer: Self)
        ensures
            writer.wf(),
            writer.pending() == Seq::<u8>::empty(),
    {
        StreamResponseWriter { buffer: Vec::new() }
    }

    /// Takes what waits, if anything does: a chunk to be sent.
    fn take_buffer(&mut self) -> (chunk: Option<Vec<u8>>)
        ensures
            final(self).pending() == Seq::<u8>::empty(),
            match chunk {
                Some(c) => c@ == old(self).pending() && c@.len() > 0,
                None => old(self).pending().len() == 0,
            },
    {
        if self.buffer.len() == 0 {
            return None;
        }
        let mut chunk: Vec<u8> = Vec::new();
        std::mem::swap(&mut chunk, &mut self.buffer);
        Some(chunk)
    }

    /// Writes octets. Returns a chunk to be sent once enough is buffered: all
    /// that waited and all that was written.
    pub fn write(&mut self, buf: &[u8]) -> (chunk: Option<Vec<u8>>)
        requires
            old(self).wf(),
        ensures
            final(self).wf(),
            chunk_octets(chunk) == sent_and_kept(old(self).pending(), buf@).0,
            chunk is Some == (old(self).pending().len() + buf@.len() >= STREAM_CHUNK_SIZE),
            final(self).pending() == sent_and_kept(old(self).pending(), buf@).1,
    {
        push_bytes(&mut self.buffer, buf);
        if self.buffer.len() >= STREAM_CHUNK_SIZE {
            self.take_buffer()
        } else {
            None
        }
    }

    /// Returns all that waits as a last chunk.
    pub fn flush(&mut self) -> (chunk: Option<Vec<u8>>)
        requires
            old(self).wf(),
        ensures
            final(self).wf(),
            final(self).pending() == Seq::<u8>::empty(),
            match chunk {
                Some(c) => c@ == old(self).pending() && c@.len() > 0,
                None => old(self).pending().len() == 0,
            },
    {
        self.take_buffer()
    }
}

/// The octets of an optional chunk.
pub open spec fn chunk_octets(chunk: Option<Vec<u8>>) -> Seq<u8> {
    match chunk {
        Some(c) => c@,
        None => Seq::empty(),
    }
}

/// What a write sends, given what waited before, and what waits after it.
pub open spec fn sent_and_kept(pending: Seq<u8>, written: Seq<u8>) -> (Seq<u8>, Seq<u8>) {
    if pending.len() + written.len() >= STREAM_CHUNK_SIZE {
        (pending + written, Seq::empty())
    } else {
        (Seq::empty(), pending + written)
    }
}

/// What some writes send together, from nothing, and what waits after them.
pub open spec fn stream_of(writes: Seq<Seq<u8>>) -> (Seq<u8>, Seq<u8>)
    decreases writes.len(),
{
    if writes.len() == 0 {
        (Seq::empty(), Seq::empty())
    } else {
        let before = stream_of(writes.drop_last());
        let step = sent_and_kept(before.1, writes.last());
        (before.0 + step.0, step.1)
    }
}

/// What was written, in a row.
pub open spec fn all_written(writes: Seq<Seq<u8>>) -> Seq<u8>
    decreases writes.len(),
{
    if writes.len() == 0 {
        Seq::empty()
    } else {
        all_written(writes.drop_last()) + writes.last()
    }
}

/// However the writes fall, what was sent and what still waits make up what was
/// written, in order, and less than a chunk waits.
pub proof fn chunks_keep_order(writes: Seq<Seq<u8>>)
    ensures
        stream_of(writes).0 + stream_of(writes).1 == all_written(writes),
        stream_of(writes).1.len() < STREAM_CHUNK_SIZE,
    decreases writes.len(),
{
    if writes.len() > 0 {
        chunks_keep_order(writes.drop_last());
        let before = stream_of(writes.drop_last());
        assert(stream_of(writes).0 + stream_of(writes).1 =~= (before.0 + before.1) + writes.last());
    } else {
        assert(stream_of(writes).0 + stream_of(writes).1 =~= all_written(writes));
    }
}

/// Why a chunk was not taken.
#[derive(Clone, Copy, Debug, PartialEq, Eq, Structural)]
pub enum SendTimeoutError {
    /// The consumer left the stream full for too long.
    Timeout,
    /// The consumer is gone.
    Closed,
}

/// The error that a writer reports for a chunk that was not taken.
pub fn send_failure(e: SendTimeoutError) -> (error: IoError)
    ensures
        error.kind_spec() == match e {
            SendTimeoutError::Timeout => ErrorKind::TimedOut,
            SendTimeoutError::Closed => ErrorKind::BrokenPipe,
        },
        error.text() == match e {
            SendTimeoutError::Timeout => "client stalled draining response"@,
            SendTimeoutError::Closed => "receiver dropped"@,
        },
{
    match e {
        SendTimeoutError::Timeout => IoError::new(
            ErrorKind::TimedOut,
            "client stalled draining response",
        ),
        SendTimeoutError::Closed => IoError::new(ErrorKind::BrokenPipe, "receiver dropped"),
    }
}

/// A search asks for everything exactly where it asks for what is more specific
/// than a prefix that covers every prefix of its family.
pub proof fn everything_is_below_the_default_route(
    prefix: Prefix,
    included: Seq<Include>,
    top: Prefix,
)
    requires
        prefix.wf(),
        top.wf(),
        top.len_spec() == 0,
        top.addr_spec() is V4 == prefix.addr_spec() is V4,
    ensures
        asks_for_everything(prefix.len_spec(), included) <==> included.contains(
            Include::MoreSpecifics,
        ) && prefix.covers(top),
        asks_for_everything(prefix.len_spec(), included) ==> forall|p: Prefix|
            p.wf() && p.addr_spec() is V4 == prefix.addr_spec() is V4 ==> #[trigger] prefix.covers(
                p,
            ),
{
    default_route_is_unique(top);
    if prefix.len_spec() == 0 {
        default_route_is_unique(prefix);
        assert forall|p: Prefix|
            p.wf() && p.addr_spec() is V4 == prefix.addr_spec() is V4 implies #[trigger] prefix.covers(
            p,
        ) by {
            default_route_covers(prefix, p);
        }
    }
}

} // verus!
