use ocrop::dashboard::{App, KeyCode, KeyEvent, KeyEventKind, SystemEvent, TerminalEvent};
use ocrop::process::{FloatBits, Process, ProcessSnapShot, Processes, SnapShotCollector};

fn bits(x: f64) -> FloatBits {
    FloatBits(x.to_bits())
}

fn proc_(pid: u64, threads: u64, pss: u64) -> Process {
    Process::new(pid, format!("p{pid}"), pss * 2, pss, bits(1.5), bits(0.25), threads)
}

#[test]
fn process_new_keeps_fields() {
    let p = Process::new(7, "init".to_string(), 10, 5, bits(2.0), bits(3.0), 4);
    assert_eq!(p.pid, 7);
    assert_eq!(p.name, "init");
    assert_eq!(p.rss, 10);
    assert_eq!(p.pss, 5);
    assert_eq!(f64::from_bits(p.avg_cpu_usage.0), 2.0);
    assert_eq!(f64::from_bits(p.instant_cpu_usage.0), 3.0);
    assert_eq!(p.threads, 4);
}

#[test]
fn new_snapshot_is_empty() {
    let s = Processes::new("machine".to_string());
    assert_eq!(s.id, "machine");
    assert!(s.processes.is_empty());
    assert_eq!(s.total_threads, 0);
    assert_eq!(s.total_pss, 0);
    assert_eq!(s.total_avg_cpu, FloatBits::zero());
    assert!(s.time_stamp.nanos < 1_000_000_000);
    assert!(s.time_stamp.secs > 0);
    assert!(!s.time_stamp.before_epoch);
}

#[test]
fn finalize_sums_threads_and_pss() {
    let mut s = Processes::new("m".to_string());
    s.add_process(proc_(1, 3, 100));
    s.add_process(proc_(2, 5, 50));
    s.add_process(proc_(3, 1, 7));
    assert_eq!(s.processes.len(), 3);
    assert_eq!(s.total_threads, 0);
    s.finalize();
    assert_eq!(s.total_threads, 9);
    assert_eq!(s.total_pss, 157);
    assert_eq!(s.processes[1].pid, 2);
    // adding one more raises the totals by its values
    s.add_process(proc_(4, 2, 3));
    s.finalize();
    assert_eq!(s.total_threads, 11);
    assert_eq!(s.total_pss, 160);
}

#[test]
fn finalize_of_empty_snapshot_is_zero() {
    let mut s = Processes::default();
    s.total_threads = 99;
    s.finalize();
    assert_eq!(s.total_threads, 0);
    assert_eq!(s.total_pss, 0);
}

#[test]
fn collector_gives_back_each_snapshot_once() {
    let mut c = SnapShotCollector::new();
    let snap = ProcessSnapShot { ultime: bits(10.0), stime: bits(5.0), uptime: bits(100.0) };
    assert_eq!(c.get(1), ProcessSnapShot::default());
    c.add(1, snap);
    c.add(2, ProcessSnapShot::default());
    assert_eq!(c.get(1), snap);
    assert_eq!(c.get(1), ProcessSnapShot::default());
    let later = ProcessSnapShot { ultime: bits(11.0), stime: bits(5.0), uptime: bits(101.0) };
    c.add(1, snap);
    c.add(1, later);
    assert_eq!(c.get(1), later);
}

#[test]
fn default_snapshot_is_all_zero_times() {
    let d = ProcessSnapShot::default();
    assert_eq!(f64::from_bits(d.ultime.0), 0.0);
    assert_eq!(f64::from_bits(d.stime.0), 0.0);
    assert_eq!(f64::from_bits(d.uptime.0), 0.0);
}

fn key(code: KeyCode, kind: KeyEventKind) -> SystemEvent {
    SystemEvent::KeyEvent(TerminalEvent::Key(KeyEvent { code, kind }))
}

#[test]
fn dashboard_quits_on_q_press_only() {
    let mut app = App::new();
    assert!(!app.is_exiting());
    app.handle_event(key(KeyCode::Char('x'), KeyEventKind::Press));
    app.handle_event(key(KeyCode::Char('q'), KeyEventKind::Release));
    app.handle_event(key(KeyCode::Char('q'), KeyEventKind::Repeat));
    app.handle_event(SystemEvent::KeyEvent(TerminalEvent::Other));
    app.handle_event(key(KeyCode::Other, KeyEventKind::Press));
    assert!(!app.is_exiting());
    app.handle_event(key(KeyCode::Char('q'), KeyEventKind::Press));
    assert!(app.is_exiting());
}

fn snapshot(id: &str, threads: u64) -> Processes {
    let mut s = Processes::new(id.to_string());
    s.add_process(proc_(1, threads, 1));
    s.finalize();
    s
}

#[test]
fn dashboard_keeps_one_snapshot_per_machine() {
    let mut app = App::new();
    assert!(app.selected().is_none());
    assert!(app.machines().is_empty());
    app.handle_event(SystemEvent::ProcessEvent(snapshot("a", 1)));
    app.handle_event(SystemEvent::ProcessEvent(snapshot("b", 2)));
    assert_eq!(app.machines().len(), 2);
    // a new snapshot of machine a replaces only a's
    app.handle_event(SystemEvent::ProcessEvent(snapshot("a", 3)));
    assert_eq!(app.machines().len(), 2);
    assert_eq!(app.machines()[0].id, "a");
    assert_eq!(app.machines()[0].total_threads, 3);
    assert_eq!(app.machines()[1].id, "b");
    assert_eq!(app.machines()[1].total_threads, 2);
    assert_eq!(app.selected_index(), 0);
    assert_eq!(app.selected().unwrap().id, "a");
    assert!(!app.is_exiting());
}

#[test]
fn dashboard_switches_tabs_with_wraparound() {
    let mut app = App::new();
    app.handle_event(key(KeyCode::Tab, KeyEventKind::Press));
    assert_eq!(app.selected_index(), 0);
    for id in ["a", "b", "c"] {
        app.handle_event(SystemEvent::ProcessEvent(snapshot(id, 1)));
    }
    app.handle_event(key(KeyCode::Tab, KeyEventKind::Press));
    assert_eq!(app.selected().unwrap().id, "b");
    app.handle_event(key(KeyCode::Right, KeyEventKind::Press));
    assert_eq!(app.selected_index(), 2);
    app.handle_event(key(KeyCode::Right, KeyEventKind::Press));
    assert_eq!(app.selected_index(), 0);
    app.handle_event(key(KeyCode::BackTab, KeyEventKind::Press));
    assert_eq!(app.selected_index(), 2);
    app.handle_event(key(KeyCode::Left, KeyEventKind::Press));
    assert_eq!(app.selected_index(), 1);
    app.handle_event(key(KeyCode::Tab, KeyEventKind::Release));
    assert_eq!(app.selected_index(), 1);
    app.handle_key_event(KeyEvent { code: KeyCode::Tab, kind: KeyEventKind::Release });
    assert_eq!(app.selected_index(), 2);
    app.exit();
    assert!(app.is_exiting());
    app.handle_event(SystemEvent::ProcessEvent(snapshot("d", 1)));
    assert!(app.is_exiting());
    assert_eq!(app.selected_index(), 2);
}
