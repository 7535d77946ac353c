use rvet::stat::{
    EncapHandler, EncapHeader, EncapNormalHeader, EncapNullHeader, EncapStat, HandlerError, SmiHandler, SmiHeader, Tally,
};
use rvet::util::{All, Selector};

fn normal(flow: u8, src_id: u16, timestamp: bool) -> EncapNormalHeader {
    EncapNormalHeader { flow, src_id, timestamp }
}

#[test]
fn tally_counts_in_order() {
    let mut t: Tally<SmiHeader> = Tally::new();
    assert!(t.is_empty());
    let a = SmiHeader { trace_type: 1, hart: 2, time_tag: false };
    let b = SmiHeader { trace_type: 0, hart: 9, time_tag: true };
    let c = SmiHeader { trace_type: 1, hart: 2, time_tag: true };
    for h in [a, b, a, c, a, b] {
        t.add(h);
    }
    assert_eq!(t.entries().to_vec(), vec![(b, 2), (a, 3), (c, 1)]);
}

#[test]
fn encap_stat_splits_null_and_normal() {
    let mut s = EncapStat::new();
    s.add(EncapHeader::Normal(normal(0, 5, false)));
    s.add(EncapHeader::Null(EncapNullHeader { flow: 1, align: true }));
    s.add(EncapHeader::Normal(normal(0, 3, true)));
    s.add(EncapHeader::Normal(normal(0, 5, false)));
    s.add(EncapHeader::Null(EncapNullHeader { flow: 1, align: false }));
    assert_eq!(s.normal.entries().to_vec(), vec![(normal(0, 3, true), 1), (normal(0, 5, false), 2)]);
    assert_eq!(
        s.null.entries().to_vec(),
        vec![(EncapNullHeader { flow: 1, align: false }, 1), (EncapNullHeader { flow: 1, align: true }, 1)]
    );
}

#[test]
fn stat_handlers() {
    let h = EncapHeader::Null(EncapNullHeader { flow: 2, align: false });
    let smi = SmiHeader { trace_type: 3, hart: 1, time_tag: false };
    assert_eq!(EncapHandler.handle_encap(h), Ok(Some(h)));
    assert_eq!(EncapHandler.handle_smi(smi), Err(HandlerError::UnexpectedSmi));
    assert_eq!(SmiHandler.handle_smi(smi), Ok(Some(smi)));
    assert_eq!(SmiHandler.handle_encap(h), Err(HandlerError::UnexpectedEncap));
    assert_eq!(HandlerError::UnexpectedSmi.message(), "SMI stat handler cannot handle SMI packet");
    assert_eq!(HandlerError::UnexpectedEncap.message(), "SMI stat handler cannot handle encap packet");
}

#[test]
fn selectors() {
    let n = normal(0, 4, false);
    let smi = SmiHeader { trace_type: 0, hart: 4, time_tag: false };
    assert!(4u64.matches(&n));
    assert!(!5u64.matches(&n));
    assert!(4u64.matches(&smi));
    assert!(Vec::<u64>::new().matches(&n));
    assert!(vec![1u64, 4].matches(&smi));
    assert!(!vec![1u64, 2].matches(&n));
    assert!(Selector::<SmiHeader>::matches(&All, &smi));
}

#[test]
fn tally_get() {
    let mut t: Tally<u64> = Tally::new();
    assert_eq!(t.get(&5), 0);
    t.add(5);
    t.add(3);
    t.add(5);
    assert_eq!(t.get(&5), 2);
    assert_eq!(t.get(&3), 1);
    assert_eq!(t.get(&4), 0);
    t.add_amount(4, u64::MAX);
    t.add(4);
    assert_eq!(t.get(&4), u64::MAX);
}

#[test]
fn tally_counts_every_occurrence() {
    let keys = [3u64, 1, 3, 3, 7, 1, 9, 3];
    let mut t: Tally<u64> = Tally::new();
    for k in keys {
        t.add(k);
    }
    for k in 0..10u64 {
        let n = keys.iter().filter(|x| **x == k).count() as u64;
        assert_eq!(t.get(&k), n);
    }
    assert_eq!(t.entries().to_vec(), vec![(1, 2), (3, 4), (7, 1), (9, 1)]);
}
