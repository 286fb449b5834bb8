use mitos_system_monitor::history::History;

#[test]
fn series_starts_full() {
    let history = History::new(0.0f64);
    assert_eq!(history.samples(), vec![0.0; 120]);
}

#[test]
fn series_holds_the_latest_samples() {
    let mut history = History::new(0.0f64);
    for i in 0..130 {
        history.record(i as f64);
    }
    let samples = history.samples();
    assert_eq!(samples.len(), 120);
    assert_eq!(samples[0], 10.0);
    assert_eq!(samples[119], 129.0);
    history.record(55.5);
    assert_eq!(history.samples()[0], 11.0);
    assert_eq!(history.samples()[119], 55.5);
}
