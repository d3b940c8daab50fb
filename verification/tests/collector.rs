use batch_exec::collector::{Collector, Limit};

#[test]
fn collector_fills_up_to_its_limit() {
    let mut c = Collector::new(Limit::Limit(2));
    assert!(c.is_empty());
    assert!(!c.full());
    c.push("a".to_string());
    assert!(!c.is_empty());
    assert!(!c.full());
    c.push("b".to_string());
    assert!(c.full());
    assert_eq!(c.refs(), vec!["a", "b"]);
    c.clear();
    assert!(c.is_empty());
    assert!(!c.full());
    assert_eq!(c.refs(), Vec::<&str>::new());
}

#[test]
fn collector_without_limit_is_never_full() {
    let mut c = Collector::new(Limit::Unlimited);
    for i in 0..100 {
        c.push(format!("{}", i));
        assert!(!c.full());
    }
    assert_eq!(c.refs().len(), 100);
    assert_eq!(c.refs()[99], "99");
}

#[test]
fn limit_hint_and_conversion() {
    assert_eq!(Limit::Unlimited.hint(), 64);
    assert_eq!(Limit::Limit(7).hint(), 7);
    assert!(matches!(Limit::from(0), Limit::Unlimited));
    assert!(matches!(Limit::from(3), Limit::Limit(3)));
}
