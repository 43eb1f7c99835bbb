use copernica::hbfi::HBFI;
use copernica::link::LinkId;
use copernica::link::ReplyTo;
use copernica::packets::Data;
use copernica::packets::LinkPacket;
use copernica::packets::NarrowWaistPacket;
use copernica::requestor::CopernicaRequestor;
use copernica::requestor::RequestStatus;

fn requestor() -> CopernicaRequestor {
    let link = LinkId::listen(ReplyTo::Mpsc(1)).remote(ReplyTo::Mpsc(2));
    CopernicaRequestor::new(link, "namable_id0".to_string())
}

fn request(hbfi: HBFI) -> LinkPacket {
    LinkPacket { reply_to: ReplyTo::Mpsc(1), nw: NarrowWaistPacket::Request { hbfi } }
}

fn response(hbfi: HBFI, byte: u8) -> LinkPacket {
    let data = Data::new(&[byte]).unwrap();
    LinkPacket {
        reply_to: ReplyTo::Mpsc(2),
        nw: NarrowWaistPacket::Response { hbfi, data, offset: 0, total: 1 },
    }
}

#[test]
fn identifiers_are_those_of_the_names_under_the_publisher() {
    let r = requestor();
    let names = vec!["namable0".to_string(), "9".to_string()];
    assert_eq!(
        r.identifiers(&names),
        vec![HBFI::new("namable0", "namable_id0"), HBFI::new("9", "namable_id0")]
    );
    assert_eq!(r.identifiers(&vec![]), vec![]);
}

#[test]
fn begin_asks_once_for_what_is_not_known() {
    let mut r = requestor();
    let a = HBFI::new("a", "namable_id0");
    let b = HBFI::new("b", "namable_id0");
    assert_eq!(r.status(&a), RequestStatus::Idle);
    let out = r.begin(&vec![a, b, a, b.offset(1), a]);
    assert_eq!(out, vec![request(a), request(b), request(b.offset(1))]);
    assert_eq!(r.status(&a), RequestStatus::Sent);
    assert_eq!(r.begin(&vec![a, b]), vec![]);
}

#[test]
fn receive_says_when_everything_arrived() {
    let mut r = requestor();
    let a = HBFI::new("a", "namable_id0");
    let b = HBFI::new("b", "namable_id0");
    r.begin(&vec![a, b]);
    assert!(!r.receive(&request(a)));
    assert!(!r.receive(&response(a, 1)));
    assert_eq!(r.status(&a), RequestStatus::Cached);
    assert!(!r.receive(&response(a, 1)));
    assert!(r.receive(&response(b, 2)));
    let results = r.finish(&vec![a, b, a]);
    assert_eq!(results, vec![Some(response(a, 1).nw), Some(response(b, 2).nw), Some(response(a, 1).nw)]);
}

#[test]
fn timeout_answers_none_and_forgets_the_wait() {
    let mut r = requestor();
    let a = HBFI::new("a", "namable_id0");
    let b = HBFI::new("b", "namable_id0");
    r.begin(&vec![a, b]);
    assert!(!r.receive(&response(a, 1)));
    assert_eq!(r.finish(&vec![a, b]), vec![Some(response(a, 1).nw), None]);
    assert_eq!(r.status(&b), RequestStatus::Idle);
    assert_eq!(r.begin(&vec![a, b]), vec![request(b)]);
}

#[test]
fn unawaited_response_is_kept_for_later_calls() {
    let mut r = requestor();
    let a = HBFI::new("a", "namable_id0");
    assert!(r.receive(&response(a, 9)));
    assert_eq!(r.cached(&a), Some(response(a, 9).nw));
    assert_eq!(r.begin(&vec![a]), vec![]);
    assert_eq!(r.finish(&vec![a]), vec![Some(response(a, 9).nw)]);
}

#[test]
fn malformed_response_is_ignored() {
    let mut r = requestor();
    let a = HBFI::new("a", "namable_id0");
    r.begin(&vec![a]);
    let bad = LinkPacket {
        reply_to: ReplyTo::Mpsc(2),
        nw: NarrowWaistPacket::Response { hbfi: a, data: Data { len: 2000, data: [0; 1024] }, offset: 0, total: 1 },
    };
    assert!(!r.receive(&bad));
    assert_eq!(r.cached(&a), None);
    assert_eq!(r.status(&a), RequestStatus::Sent);
}

#[test]
fn later_response_replaces_the_cached_one() {
    let mut r = requestor();
    let a = HBFI::new("a", "namable_id0");
    r.receive(&response(a, 1));
    r.receive(&response(a, 2));
    assert_eq!(r.cached(&a), Some(response(a, 2).nw));
    assert_eq!(r.cached(&a.offset(1)), None);
}
