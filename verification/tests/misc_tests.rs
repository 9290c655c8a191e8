use dsa_sim::flight::{retire_arrived, InFlight, FLIGHT_MS};
use dsa_sim::chance::{random_chance, random_int, roll_hits};
use dsa_sim::dispatch::{message_handler, next_message_handler, report_failure, HandlerOutcome};
use dsa_sim::rhai_lib::{rhai_log, rhai_send};

#[test]
fn send_accepts_and_log_is_attributed_to_the_tool() {
    let (accepted, console) = rhai_send(("b".to_string(), "hi".to_string()), "a".to_string());
    assert!(accepted);
    assert_eq!(console, "fnction called");
    let e = rhai_log("hello");
    assert_eq!(e.node, "dsa");
    assert_eq!(e.message, "hello");
}

#[test]
fn log_detail_is_json() {
    let e = rhai_log("say \"hi\"");
    let v: serde_json::Value = serde_json::from_str(&e.detail_json()).unwrap();
    assert_eq!(v["node"], "dsa");
    assert_eq!(v["message"], "say \"hi\"");
    assert_eq!(e.detail_json(), r#"{"message":"say \"hi\"","node":"dsa"}"#);
}

#[test]
fn log_detail_escapes_control_characters() {
    let e = rhai_log("a\u{1}\tb\\c\u{b}é");
    assert_eq!(e.detail_json(), "{\"message\":\"a\\u0001\\tb\\\\c\\u000bé\",\"node\":\"dsa\"}");
}

#[test]
fn random_int_stays_in_range() {
    assert_eq!(random_int(5, 5), 5);
    assert_eq!(random_int(5, -3), 5);
    for _ in 0..100 {
        let v = random_int(-2, 3);
        assert!((-2..3).contains(&v));
    }
    assert_eq!(random_int(7, 8), 7);
}

#[test]
fn random_chance_extremes() {
    for _ in 0..100 {
        assert!(!random_chance(0));
        assert!(random_chance(100));
        assert!(!random_chance(-5));
    }
}

#[test]
fn message_handlers_tried_in_order() {
    assert_eq!(message_handler(0), ("on_msg", false));
    assert_eq!(message_handler(1), ("on_message", false));
    assert_eq!(message_handler(2), ("on_msg", true));
    assert_eq!(message_handler(3), ("on_message", true));
    let missing = |f: &str| HandlerOutcome::NotFound(f.to_string());
    assert_eq!(next_message_handler(0, &missing("on_msg (Dynamic)")), Some(1));
    assert_eq!(next_message_handler(0, &missing("on_message (Dynamic)")), Some(2));
    assert_eq!(next_message_handler(1, &missing("on_message (Dynamic)")), Some(2));
    assert_eq!(next_message_handler(2, &missing("on_msg (String, Dynamic)")), Some(3));
    assert_eq!(next_message_handler(3, &missing("on_message (String, Dynamic)")), None);
    assert_eq!(next_message_handler(1, &missing("helper")), None);
    assert_eq!(next_message_handler(0, &HandlerOutcome::Done), None);
    assert_eq!(next_message_handler(0, &HandlerOutcome::Failed), None);
    assert!(report_failure(&HandlerOutcome::Failed));
    assert!(!report_failure(&missing("on_msg")));
}

#[test]
fn random_int_reaches_both_ends() {
    let mut seen = [false; 2];
    for _ in 0..400 {
        seen[random_int(0, 2) as usize] = true;
    }
    assert!(seen[0] && seen[1]);
}

#[test]
fn compile_result_reports_outcome() {
    let ok = dsa_sim::ingest::CompileResult::from_outcome(Ok(()));
    assert!(ok.result());
    assert_eq!(ok.error_log(), "");
    let bad = dsa_sim::ingest::CompileResult::from_outcome(Err("Node type not found for type x".to_string()));
    assert!(!bad.result());
    assert_eq!(bad.error_log(), "Node type not found for type x");
}

#[test]
fn console_line_names_the_node_in_brackets() {
    assert_eq!(rhai_log("hello").console_line(), "[dsa] hello");
    let e = dsa_sim::logging::LogEvent { node: "lb".to_string(), message: "".to_string() };
    assert_eq!(e.console_line(), "[lb] ");
}

#[test]
fn messages_arrive_after_their_travel_time_in_order() {
    let mut msgs: Vec<InFlight<&str>> = vec![InFlight::launch("a"), InFlight::launch("b")];
    msgs[1].elapsed_ms = 1000;
    let mut steps = Vec::new();
    for _ in 0..5 {
        let (mut still, arrived) = retire_arrived(msgs);
        for m in still.iter_mut() {
            m.advance(1000);
        }
        steps.push(arrived);
        msgs = still;
    }
    assert_eq!(steps, vec![vec![], vec![], vec!["b"], vec!["a"], vec![]]);
    let mut m = InFlight::launch(());
    m.advance(FLIGHT_MS - 5);
    assert!(m.has_arrived());
    let mut m = InFlight::launch(());
    m.advance(FLIGHT_MS - 11);
    assert!(!m.has_arrived());
    m.advance(u64::MAX);
    assert_eq!(m.elapsed_ms, FLIGHT_MS);
    let (still, arrived) = retire_arrived(vec![
        InFlight { duration_ms: 100, elapsed_ms: 95, message: 1 },
        InFlight { duration_ms: 100, elapsed_ms: 50, message: 2 },
        InFlight { duration_ms: 100, elapsed_ms: 110, message: 3 },
        InFlight { duration_ms: 100, elapsed_ms: 111, message: 4 },
    ]);
    assert_eq!(arrived, vec![1, 3]);
    assert_eq!(still.iter().map(|m| m.message).collect::<Vec<_>>(), vec![2, 4]);
}

#[test]
fn a_roll_hits_below_the_percent() {
    assert!(roll_hits(0, 1));
    assert!(!roll_hits(1, 1));
    assert!(roll_hits(49, 50));
    assert!(!roll_hits(50, 50));
    assert!(!roll_hits(0, 0));
    assert!(roll_hits(99, 100));
}
