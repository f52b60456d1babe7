use dashdust::network::{NetCounters, NetSample};

fn sample(name: &str, rx: u64, tx: u64) -> NetSample {
    NetSample { name: name.to_string(), rx, tx }
}

#[test]
fn first_reading_reports_no_growth() {
    let mut c = NetCounters::new();
    let report = c.observe(&vec![sample("eth0", 1000, 500), sample("lo", 0, 0)]);
    assert_eq!(report.len(), 1);
    assert_eq!(report[0].name, "eth0");
    assert_eq!(report[0].rx_bytes, 1000);
    assert_eq!(report[0].tx_bytes, 500);
    assert_eq!(report[0].rx_delta, 0);
    assert_eq!(report[0].tx_delta, 0);
    assert_eq!(c.lookup(&"eth0".to_string()), Some((1000, 500)));
    assert_eq!(c.lookup(&"lo".to_string()), Some((0, 0)));
    assert_eq!(c.lookup(&"wlan0".to_string()), None);
}

#[test]
fn growth_since_previous_reading() {
    let mut c = NetCounters::new();
    c.observe(&vec![sample("eth0", 1000, 500), sample("wlan0", 10, 20)]);
    let report = c.observe(&vec![sample("eth0", 4000, 900), sample("wlan0", 10, 25)]);
    assert_eq!(report.len(), 2);
    assert_eq!((report[0].rx_delta, report[0].tx_delta), (3000, 400));
    assert_eq!((report[1].rx_delta, report[1].tx_delta), (0, 5));
}

#[test]
fn counter_going_back_reports_no_growth() {
    let mut c = NetCounters::new();
    c.observe(&vec![sample("eth0", 5000, 5000)]);
    let report = c.observe(&vec![sample("eth0", 100, 7000)]);
    assert_eq!((report[0].rx_delta, report[0].tx_delta), (0, 2000));
    assert_eq!(c.lookup(&"eth0".to_string()), Some((100, 7000)));
}

#[test]
fn repeated_reading_reports_no_growth() {
    let mut c = NetCounters::new();
    let s = vec![sample("a", 1, 2), sample("b", 3, 4)];
    c.observe(&s);
    let report = c.observe(&s);
    assert_eq!(report.len(), 2);
    assert!(report.iter().all(|d| d.rx_delta == 0 && d.tx_delta == 0));
}

#[test]
fn record_replaces_earlier_reading() {
    let mut c = NetCounters::new();
    c.record("x".to_string(), 1, 1);
    c.record("y".to_string(), 2, 2);
    c.record("x".to_string(), 9, 8);
    assert_eq!(c.lookup(&"x".to_string()), Some((9, 8)));
    assert_eq!(c.lookup(&"y".to_string()), Some((2, 2)));
}
