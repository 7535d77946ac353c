use rvet::cli::PacketFormat;
use rvet::reader::{
    decode, next_action, peek_sufficient, read_step, BufReader, Decoded, DecoderConfig, DefaultHandler,
    EarlyWorkerExit, PacketHeader, ReadAction, Route, SingleHart, ThreadDispatch, BUFFER_SIZE,
};
use rvet::stat::{EncapHeader, EncapNormalHeader, EncapNullHeader, SmiHeader};
use rvet::util::All;

#[test]
fn buf_reader_fill_and_consume() {
    let mut r = BufReader::new();
    assert_eq!(r.fill_request(), Some(BUFFER_SIZE));
    r.fill_complete(b"abcdef");
    assert_eq!(r.fill_request(), None);
    assert_eq!(r.available(), b"abcdef");
    r.consume(2);
    assert_eq!(r.available(), b"cdef");
    assert_eq!(r.peeked(3), b"cde");
    assert_eq!(r.peeked(10), b"cdef");
    r.consume(4);
    assert_eq!(r.fill_request(), Some(6));
}

#[test]
fn buf_reader_peek_moves_rest_to_front() {
    let mut r = BufReader::new();
    r.fill_complete(b"0123456789");
    r.consume(7);
    assert_eq!(r.peek_request(2), None);
    assert_eq!(r.peek_request(5), Some(3));
    assert_eq!(r.peeked(3), b"789");
    r.peek_complete(3, b"ab");
    assert_eq!(r.available(), b"789ab");
    assert_eq!(r.peeked(5), b"789ab");
}

#[test]
fn read_decisions() {
    let header = PacketHeader::Smi(SmiHeader { trace_type: 1, hart: 2, time_tag: false });
    assert_eq!(
        next_action(10, Decoded::Packet { left: 4, header }),
        ReadAction::Handle { amount: 6, header }
    );
    assert_eq!(next_action(10, Decoded::Insufficient { need: 5 }), ReadAction::Peek { total: 15 });
    assert_eq!(next_action(10, Decoded::Insufficient { need: usize::MAX }), ReadAction::Peek { total: usize::MAX });
    assert_eq!(next_action(10, Decoded::Failed), ReadAction::Fail);
    assert!(peek_sufficient(15, 15));
    assert!(!peek_sufficient(14, 15));
}

fn encap_config(hart_index_width: u8) -> DecoderConfig {
    DecoderConfig::new(PacketFormat::Encap, hart_index_width, 0).unwrap()
}

#[test]
fn decoder_configs() {
    assert_eq!(
        DecoderConfig::new(PacketFormat::Encap, 16, 8),
        Some(DecoderConfig { format: PacketFormat::Encap, hart_index_width: 16, timestamp_width: 8 })
    );
    assert_eq!(DecoderConfig::new(PacketFormat::Encap, 17, 0), None);
    assert_eq!(DecoderConfig::new(PacketFormat::Encap, 0, 9), None);
    assert!(DecoderConfig::new(PacketFormat::Smi, 64, 200).is_some());
    assert_eq!(DecoderConfig::new(PacketFormat::Smi, 65, 0), None);
}

#[test]
fn decode_encap_headers() {
    let cfg = encap_config(8);
    assert_eq!(
        decode(&cfg, &[0x00, 0xaa]),
        Decoded::Packet { left: 1, header: PacketHeader::Encap(EncapHeader::Null(EncapNullHeader { flow: 0, align: false })) }
    );
    assert_eq!(
        decode(&cfg, &[0xa0]),
        Decoded::Packet { left: 0, header: PacketHeader::Encap(EncapHeader::Null(EncapNullHeader { flow: 1, align: true })) }
    );
    assert_eq!(
        decode(&cfg, &[0x01, 0x05, 0xaa, 0x00]),
        Decoded::Packet {
            left: 1,
            header: PacketHeader::Encap(EncapHeader::Normal(EncapNormalHeader { flow: 0, src_id: 5, timestamp: false })),
        }
    );
    assert_eq!(decode(&cfg, &[0x01, 0x05]), Decoded::Insufficient { need: 1 });
    assert_eq!(decode(&cfg, &[]), Decoded::Insufficient { need: 1 });
}

#[test]
fn decode_smi_headers() {
    let cfg = DecoderConfig::new(PacketFormat::Smi, 8, 0).unwrap();
    assert_eq!(
        decode(&cfg, &[0x22, 0x07, 0xaa, 0xbb]),
        Decoded::Packet { left: 0, header: PacketHeader::Smi(SmiHeader { trace_type: 1, hart: 7, time_tag: false }) }
    );
    assert_eq!(decode(&cfg, &[0x02, 0x07, 0xaa]), Decoded::Insufficient { need: 1 });
}

#[test]
fn read_steps_on_buffer() {
    let cfg = encap_config(8);
    let mut r = BufReader::new();
    r.fill_complete(&[0x01, 0x05, 0xaa, 0x01, 0x06]);
    let header = PacketHeader::Encap(EncapHeader::Normal(EncapNormalHeader { flow: 0, src_id: 5, timestamp: false }));
    assert_eq!(read_step(&r, &cfg), ReadAction::Handle { amount: 3, header });
    r.consume(3);
    assert_eq!(read_step(&r, &cfg), ReadAction::Peek { total: 3 });
}

#[test]
fn single_hart_filter() {
    let h = SingleHart::new(All, 3);
    assert!(h.handle_encap(&EncapHeader::Normal(EncapNormalHeader { flow: 0, src_id: 3, timestamp: false })));
    assert!(!h.handle_encap(&EncapHeader::Normal(EncapNormalHeader { flow: 0, src_id: 2, timestamp: false })));
    assert!(!h.handle_encap(&EncapHeader::Null(EncapNullHeader { flow: 0, align: false })));
    assert!(h.handle_smi(&SmiHeader { trace_type: 0, hart: 3, time_tag: true }));
    assert!(!h.handle_smi(&SmiHeader { trace_type: 0, hart: 4, time_tag: true }));
}

#[test]
fn thread_dispatch_routes() {
    let mut d = ThreadDispatch::new(All, vec![]);
    assert_eq!(d.dispatch(7), Route::New(0));
    d.add_worker(7);
    assert_eq!(d.dispatch(9), Route::New(1));
    d.add_worker(9);
    assert_eq!(d.dispatch(7), Route::Existing(0));
    assert_eq!(d.handle_smi(&SmiHeader { trace_type: 0, hart: 9, time_tag: false }), Route::Existing(1));
    assert_eq!(
        d.handle_encap(&EncapHeader::Null(EncapNullHeader { flow: 0, align: false })),
        Route::Skip
    );
    let mut f = ThreadDispatch::new(All, vec![2, 4]);
    assert_eq!(f.dispatch(3), Route::Skip);
    assert_eq!(f.dispatch(4), Route::New(0));
    f.add_worker(4);
    assert_eq!(
        f.handle_encap(&EncapHeader::Normal(EncapNormalHeader { flow: 1, src_id: 2, timestamp: true })),
        Route::New(1)
    );
}

#[test]
fn default_handler_and_exit() {
    let mut h = DefaultHandler;
    assert_eq!(h.handle_encap(&EncapHeader::Null(EncapNullHeader { flow: 0, align: true })), None);
    assert_eq!(h.handle_smi(&SmiHeader { trace_type: 0, hart: 0, time_tag: false }), None);
    assert_eq!(EarlyWorkerExit.message(), "Worker thread existted prematurely");
}

#[test]
fn peek_keeps_unread_bytes() {
    let mut r = BufReader::new();
    r.fill_complete(b"packet-head");
    r.consume(7);
    let before = r.available().to_vec();
    let read_base = r.peek_request(8).unwrap();
    r.peek_complete(read_base, b"tail");
    let mut expected = before.clone();
    expected.extend_from_slice(b"tail");
    assert_eq!(r.available(), expected.as_slice());
}

#[test]
fn dispatch_stays_with_worker() {
    let mut d = ThreadDispatch::new(All, vec![]);
    assert_eq!(d.dispatch(5), Route::New(0));
    d.add_worker(5);
    assert_eq!(d.dispatch(6), Route::New(1));
    d.add_worker(6);
    for _ in 0..3 {
        assert_eq!(d.dispatch(5), Route::Existing(0));
        assert_eq!(d.dispatch(6), Route::Existing(1));
    }
    assert_eq!(d.dispatch(1), Route::New(2));
}

#[test]
fn dispatch_without_worker_routes_anew() {
    let d = ThreadDispatch::new(All, vec![]);
    assert_eq!(d.dispatch(5), Route::New(0));
    assert_eq!(d.dispatch(5), Route::New(0));
}
