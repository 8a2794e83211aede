use rotonda::net::IpAddr;
use rotonda::units::bmp_tcp_in::io::ErrorKind;
use rotonda::units::rib_unit::http_ng::{
    generic_afisafi_all, plan_search, plan_search_all, register_routes, send_failure, Api,
    ApiError, DumpGuard, Handler, Include, OutputFormat, QueryFilter, SearchPlan,
    SendTimeoutError, StreamResponseWriter, UnknownInclude, STREAM_CHUNK_SIZE,
};

#[test]
fn the_api_has_its_paths() {
    let mut api = Api::new();
    register_routes(&mut api);
    let routes: Vec<(&str, Handler)> = api.routes.iter().map(|r| (r.path, r.handler)).collect();
    assert_eq!(
        routes,
        vec![
            ("/ribs/ipv4unicast/routes/{prefix}/{prefix_len}", Handler::SearchIpv4Unicast),
            ("/ribs/ipv4unicast/routes", Handler::SearchIpv4UnicastAll),
            ("/ribs/ipv6unicast/routes/{prefix}/{prefix_len}", Handler::SearchIpv6Unicast),
            ("/ribs/ipv6unicast/routes", Handler::SearchIpv6UnicastAll),
            ("/ribs/{afisafi}/routes", Handler::GenericAfiSafiAll),
        ]
    );
}

#[test]
fn words_for_what_is_returned() {
    assert_eq!("moreSpecifics".parse::<Include>(), Ok(Include::MoreSpecifics));
    assert_eq!("lessSpecifics".parse::<Include>(), Ok(Include::LessSpecifics));
    assert_eq!(Include::parse("morespecifics"), Err(UnknownInclude));
    assert_eq!(Include::parse(""), Err(UnknownInclude));
    assert_eq!(UnknownInclude.message(), "unknown include");
}

#[test]
fn more_specifics_are_enabled_once() {
    let mut filter = QueryFilter::default();
    assert!(!filter.includes(Include::MoreSpecifics));
    filter.enable_more_specifics();
    filter.enable_more_specifics();
    assert_eq!(filter.included, vec![Include::MoreSpecifics]);
}

fn refusal<T>(res: Result<T, ApiError>) -> (u16, String) {
    match res {
        Ok(_) => (200, String::new()),
        Err(ApiError::BadRequest(text)) => (400, text),
        Err(ApiError::InternalServerError(text)) => (500, text),
        Err(ApiError::ServiceUnavailable(text)) => (503, text),
    }
}

const FULL: &str = "full-RIB dump (/0 with moreSpecifics) requires format=jsonl so it can be streamed within bounded memory";

#[test]
fn searches_are_planned() {
    let filter = QueryFilter::default();
    let (prefix, plan) = plan_search(IpAddr::V4(0x0a000000), 8, true, &filter).unwrap();
    assert_eq!((prefix.addr(), prefix.len()), (IpAddr::V4(0x0a000000), 8));
    assert_eq!(plan, SearchPlan::LookUp);
    assert_eq!(plan_search(IpAddr::V6(0), 0, true, &filter).unwrap().1, SearchPlan::LookUp);

    let err = plan_search(IpAddr::V4(1), 8, true, &filter);
    assert_eq!(refusal(err), (400, "non-zero host portion".to_string()));
    let err = plan_search(IpAddr::V4(0), 33, true, &filter);
    assert_eq!(refusal(err), (400, "prefix length too large".to_string()));
    let err = plan_search(IpAddr::V4(0), 8, false, &filter);
    assert_eq!(refusal(err), (500, "store unavailable".to_string()));
}

#[test]
fn everything_is_only_streamed() {
    for v4 in [true, false] {
        let mut filter = QueryFilter::default();
        let err = plan_search_all(v4, true, &mut filter);
        assert_eq!(refusal(err), (400, FULL.to_string()));
        assert!(filter.includes(Include::MoreSpecifics));
        filter.format = OutputFormat::Jsonl;
        let (prefix, plan) = plan_search_all(v4, true, &mut filter).unwrap();
        assert_eq!((prefix.is_v4(), prefix.len()), (v4, 0));
        assert_eq!(plan, SearchPlan::StreamAll);
        let err = plan_search_all(v4, false, &mut filter);
        assert_eq!(refusal(err), (500, "store unavailable".to_string()));
    }
    assert_eq!(refusal::<()>(Err(generic_afisafi_all())), (500, "TODO".to_string()));
}

#[test]
fn dumps_are_capped() {
    let mut guard = DumpGuard::new(2);
    assert!(guard.try_enter().is_ok());
    assert!(guard.try_enter().is_ok());
    assert_eq!(
        refusal(guard.try_enter()),
        (503, "too many concurrent RIB dumps in progress; retry shortly".to_string())
    );
    assert_eq!(guard.active(), 2);
    guard.leave();
    assert!(guard.try_enter().is_ok());
}

#[test]
fn chunks_make_up_what_was_written() {
    let mut writer = StreamResponseWriter::new();
    assert!(writer.flush().is_none());
    let mut sent = Vec::new();
    let mut written = Vec::new();
    let mut chunks = 0;
    for i in 0..1000usize {
        let buf = vec![i as u8; 777];
        written.extend_from_slice(&buf);
        if let Some(chunk) = writer.write(&buf) {
            assert!(chunk.len() >= STREAM_CHUNK_SIZE);
            chunks += 1;
            sent.extend_from_slice(&chunk);
        }
    }
    assert_eq!(chunks, 2);
    sent.extend_from_slice(&writer.flush().unwrap());
    assert!(writer.flush().is_none());
    assert_eq!(sent, written);
}

#[test]
fn consumers_that_stall_are_given_up() {
    let e = send_failure(SendTimeoutError::Timeout);
    assert_eq!((e.kind(), e.message()), (ErrorKind::TimedOut, "client stalled draining response"));
    let e = send_failure(SendTimeoutError::Closed);
    assert_eq!((e.kind(), e.message()), (ErrorKind::BrokenPipe, "receiver dropped"));
}
