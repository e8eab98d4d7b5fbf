use auto_water::config::{Config, DEFAULT_DURATION_SECS, DEFAULT_INTERVAL_SECS};
use auto_water::link::{link_step, LinkAction, LinkEvent, LinkKeeper};
use auto_water::pump::{watering_action, WateringAction, WateringCommand, WateringEvent, WateringTask};
use auto_water::types::Response;

#[test]
fn default_config() {
    let c = Config::default();
    assert_eq!(c.watering_interval_secs, 48 * 60 * 60);
    assert_eq!(c.pump_duration_secs, 5);
    assert_eq!(DEFAULT_INTERVAL_SECS, 172800);
    assert_eq!(DEFAULT_DURATION_SECS, 5);
}

#[test]
fn stored_values_replace_defaults() {
    let c = Config::default().with_stored(Some(60), None);
    assert_eq!(c.watering_interval_secs, 60);
    assert_eq!(c.pump_duration_secs, 5);
    let c = c.with_stored(None, Some(9));
    assert_eq!(c.watering_interval_secs, 60);
    assert_eq!(c.pump_duration_secs, 9);
}

#[test]
fn watering_decision() {
    assert!(matches!(watering_action(true, 5), WateringAction::RunPump(5)));
    assert!(matches!(watering_action(false, 5), WateringAction::Skip));
}

#[test]
fn link_decisions() {
    assert!(matches!(link_step(LinkEvent::Status(false)), LinkAction::Connect));
    assert!(matches!(link_step(LinkEvent::Status(true)), LinkAction::Wait(10)));
    assert!(matches!(link_step(LinkEvent::Attempt(false)), LinkAction::Wait(5)));
    assert!(matches!(link_step(LinkEvent::Attempt(true)), LinkAction::Check));
}

#[test]
fn response_constructors() {
    let r = Response::ok("text/html", b"x");
    assert_eq!(r.status, "200 OK");
    assert_eq!(r.content_type, "text/html");
    assert_eq!(r.body, b"x");
    let nf = Response::not_found();
    assert_eq!(nf.status, "404 Not Found");
    assert_eq!(nf.content_type, "text/plain");
    assert_eq!(nf.body, b"Not Found");
}

#[test]
fn watering_task_cycles() {
    let mut t = WateringTask::new();
    assert!(matches!(t.step(WateringEvent::FloatRead(true)), WateringCommand::Skip));
    assert!(matches!(
        t.step(WateringEvent::ConfigRead { interval_secs: 60, duration_secs: 7 }),
        WateringCommand::Sleep(60)
    ));
    assert!(matches!(t.step(WateringEvent::FloatRead(true)), WateringCommand::RunPump(7)));
    assert!(matches!(
        t.step(WateringEvent::ConfigRead { interval_secs: 30, duration_secs: 2 }),
        WateringCommand::Sleep(30)
    ));
    assert!(matches!(t.step(WateringEvent::FloatRead(false)), WateringCommand::Skip));
    assert!(t.pending_duration.is_none());
}

#[test]
fn link_keeper_run() {
    let mut k = LinkKeeper::new();
    assert!(matches!(k.observe(false), LinkAction::Connect));
    assert!(matches!(k.observe(false), LinkAction::Wait(5)));
    assert!(matches!(k.observe(false), LinkAction::Connect));
    assert!(matches!(k.observe(true), LinkAction::Check));
    assert!(matches!(k.observe(true), LinkAction::Wait(10)));
    assert!(matches!(k.observe(true), LinkAction::Wait(10)));
}
