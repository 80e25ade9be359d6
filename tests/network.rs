use de_kzg::channel::{frame_body_len, Channel, Exchange, Stats};
use de_kzg::error::NetError;
use de_kzg::frame::{decode_frame, encode_frame};
use de_kzg::topology::{parse_host_list, setup_plan, SetupStep, Topology};

const HOSTS: &str = "127.0.0.1:8000\n\n  127.0.0.1:8001  \r\n\t\n127.0.0.1:8002";

fn ready_channel(self_id: usize, n: usize) -> Channel {
    let mut text = String::new();
    for i in 0..n {
        text.push_str(&format!("10.0.0.{}:9000\n", i));
    }
    let mut t = Topology::from_host_list(&text.into_bytes(), self_id).unwrap();
    for step in t.setup_plan() {
        match step {
            SetupStep::Connect(p) | SetupStep::Accept(p) => t.record_link(p),
            _ => {}
        }
    }
    assert!(t.finish_setup());
    Channel::new(t)
}

#[test]
fn host_list_skips_blank_lines_and_trims() {
    let entries = parse_host_list(&HOSTS.as_bytes().to_vec());
    assert_eq!(
        entries,
        vec![
            b"127.0.0.1:8000".to_vec(),
            b"127.0.0.1:8001".to_vec(),
            b"127.0.0.1:8002".to_vec()
        ]
    );
    assert!(parse_host_list(&Vec::new()).is_empty());
    assert!(parse_host_list(&b"\n \n\t".to_vec()).is_empty());
}

#[test]
fn topology_rejects_party_id_out_of_range() {
    let text = HOSTS.as_bytes().to_vec();
    assert!(matches!(
        Topology::from_host_list(&text, 3),
        Err(NetError::PartyIdOutOfRange)
    ));
    assert!(matches!(
        Topology::from_host_list(&Vec::new(), 0),
        Err(NetError::PartyIdOutOfRange)
    ));
    let t = Topology::from_host_list(&text, 2).unwrap();
    assert_eq!(t.n_parties(), 3);
    assert_eq!(t.party_id(), 2);
    assert!(!t.am_master());
    assert!(!t.is_init());
    assert_eq!(t.live_links(), 0);
}

#[test]
fn setup_plan_follows_rounds() {
    assert_eq!(
        setup_plan(2, 4),
        vec![
            SetupStep::Accept(0),
            SetupStep::Accept(1),
            SetupStep::AwaitPrev(1),
            SetupStep::Connect(3),
            SetupStep::SignalNext(3)
        ]
    );
    assert_eq!(
        setup_plan(0, 3),
        vec![SetupStep::Connect(1), SetupStep::Connect(2), SetupStep::SignalNext(1)]
    );
    assert_eq!(setup_plan(0, 1), vec![]);
    assert_eq!(
        setup_plan(3, 4),
        vec![
            SetupStep::Accept(0),
            SetupStep::Accept(1),
            SetupStep::Accept(2),
            SetupStep::AwaitPrev(2)
        ]
    );
}

#[test]
fn mesh_is_complete_after_setup() {
    for n in 1..6 {
        for id in 0..n {
            let ch = ready_channel(id, n);
            assert!(ch.is_init());
            assert_eq!(ch.topology.live_links(), n - 1);
        }
    }
}

#[test]
fn setup_is_incomplete_with_a_missing_link() {
    let text = b"a:1\nb:2\nc:3\n".to_vec();
    let mut t = Topology::from_host_list(&text, 1).unwrap();
    t.record_link(0);
    assert!(!t.finish_setup());
    assert!(!t.is_init());
    t.record_link(2);
    assert!(t.finish_setup());
    t.deinit();
    assert!(!t.is_init());
    assert_eq!(t.live_links(), 0);
}

#[test]
fn exchange_orders_are_complementary() {
    let a = ready_channel(1, 3);
    let b = ready_channel(2, 3);
    assert_eq!(a.exchange_with(0), Exchange::ReadThenWrite);
    assert_eq!(a.exchange_with(1), Exchange::Local);
    assert_eq!(a.exchange_with(2), Exchange::WriteThenRead);
    assert_eq!(b.exchange_with(1), Exchange::ReadThenWrite);
}

#[test]
fn broadcast_views_agree_and_count_traffic() {
    let n = 4;
    let payloads: Vec<Vec<u8>> = (0..n).map(|i| vec![i as u8; 5]).collect();
    let mut views = Vec::new();
    for id in 0..n {
        let mut ch = ready_channel(id as usize, n);
        ch.reset_stats();
        let mut incoming = payloads.clone();
        incoming[id] = Vec::new();
        let v = ch.finish_broadcast(&payloads[id], incoming).unwrap();
        let s = ch.stats();
        assert_eq!(s.bytes_sent, 15);
        assert_eq!(s.bytes_recv, 15);
        assert_eq!(s.broadcasts, 1);
        views.push(v);
    }
    for v in &views {
        assert_eq!(v, &payloads);
    }
    let mut ch = ready_channel(0, n);
    assert!(matches!(
        ch.finish_broadcast(&payloads[0], vec![]),
        Err(NetError::WrongLength)
    ));
    assert_eq!(ch.stats(), Stats::default());
}

#[test]
fn gather_then_scatter_round_trip() {
    let n = 3;
    let payloads: Vec<Vec<u8>> = vec![b"zero".to_vec(), b"one".to_vec(), Vec::new()];
    let mut master = ready_channel(0, n);
    let mut bodies = vec![Vec::new(); n];
    for id in 1..n {
        let mut w = ready_channel(id, n);
        let f = w.to_master_frame(&payloads[id]).unwrap();
        assert_eq!(w.stats().bytes_sent, 8 + payloads[id].len());
        assert_eq!(w.stats().to_master, 1);
        let len = frame_body_len(&f[..8].to_vec()).unwrap();
        assert_eq!(len, payloads[id].len());
        bodies[id] = f[8..8 + len].to_vec();
    }
    let all = master.finish_gather(&payloads[0], bodies).unwrap();
    assert_eq!(all, payloads);
    assert_eq!(master.stats().bytes_recv, 8 + 3 + 8);
    assert!(matches!(master.to_master_frame(&payloads[0]), Err(NetError::WrongRole)));

    let seq: Vec<Vec<u8>> = vec![b"a".to_vec(), b"bb".to_vec(), b"ccc".to_vec()];
    assert!(master.check_scatter_role(true).is_ok());
    let (frames, mine) = master.scatter_frames(Some(seq.clone())).unwrap();
    assert_eq!(mine, seq[0]);
    assert_eq!(master.stats().bytes_sent, (8 + 2) + (8 + 3));
    for id in 1..n {
        let mut w = ready_channel(id, n);
        assert!(matches!(w.check_scatter_role(true), Err(NetError::WrongRole)));
        assert!(w.check_scatter_role(false).is_ok());
        let body = decode_frame(&frames[id]).unwrap();
        let got = w.finish_recv(body).unwrap();
        assert_eq!(got, seq[id]);
        assert_eq!(w.stats().from_master, 1);
        assert!(matches!(w.scatter_frames(Some(seq.clone())), Err(NetError::WrongRole)));
    }
    assert!(matches!(master.scatter_frames(None), Err(NetError::WrongRole)));
    assert!(matches!(
        master.scatter_frames(Some(vec![Vec::new()])),
        Err(NetError::WrongLength)
    ));
    assert!(matches!(master.finish_recv(Vec::new()), Err(NetError::WrongRole)));
}

#[test]
fn stats_reset_to_default() {
    let mut ch = ready_channel(1, 2);
    ch.finish_broadcast(&vec![1, 2, 3], vec![Vec::new(), vec![4, 5, 6]]).unwrap();
    assert_ne!(ch.stats(), Stats::default());
    ch.reset_stats();
    assert_eq!(ch.stats(), Stats::default());
    assert_eq!(ch.stats().bytes_sent, 0);
}

#[test]
fn frame_layout_is_little_endian_length_then_payload() {
    let f = encode_frame(&vec![7u8; 258]);
    assert_eq!(&f[..8], &[2, 1, 0, 0, 0, 0, 0, 0]);
    assert_eq!(f.len(), 266);
    assert_eq!(decode_frame(&f), Some(vec![7u8; 258]));
    assert_eq!(decode_frame(&f[..265].to_vec()), None);
    assert_eq!(decode_frame(&vec![0u8; 7]), None);
    assert_eq!(decode_frame(&vec![0u8; 8]), Some(Vec::new()));
    assert!(matches!(frame_body_len(&vec![0u8; 7]), Err(NetError::BadFrame)));
    assert_eq!(frame_body_len(&vec![0xff, 0, 0, 0, 0, 0, 0, 1]).unwrap(), 0x0100_0000_0000_00ff);
}
