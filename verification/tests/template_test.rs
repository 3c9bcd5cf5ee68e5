use cdn_ip_tester::supervisor::{step, LaunchFault, TunnelAction, TunnelEvent, TunnelState};
use cdn_ip_tester::template::{Inbound, Outbound, Rule, SingBoxConfig};

#[test]
fn a_batch_adds_a_listener_an_outbound_and_a_rule_for_each_member() {
    let template = SingBoxConfig::new();
    let outbound = Outbound { tag: None, server: None, other: Vec::new() };
    let ips = vec!["104.16.0.1".to_string(), "104.16.0.2".to_string(), "2606:4700::1".to_string()];
    let config = template.generate(&outbound, &ips, "127.0.0.2".to_string(), 31000);
    assert_eq!(config.inbounds.len(), 3);
    assert_eq!(config.outbounds.len(), 3);
    assert_eq!(config.rules.len(), 3);
    for i in 0..3 {
        let inbound = &config.inbounds[i];
        assert_eq!(inbound.kind, "socks");
        assert_eq!(inbound.tag, format!("inbound-{}", i));
        assert_eq!(inbound.listen, "127.0.0.2");
        assert_eq!(inbound.listen_port, 31000 + i as u16);
        assert!(inbound.tcp_fast_open);
        assert!(inbound.users.is_empty());
        let out = &config.outbounds[i];
        assert_eq!(out.tag, Some(format!("outbound-{}", i)));
        assert_eq!(out.server, Some(ips[i].clone()));
        let rule = &config.rules[i];
        assert_eq!(rule.inbound, vec![format!("inbound-{}", i)]);
        assert_eq!(rule.outbound, format!("outbound-{}", i));
    }
}

#[test]
fn the_entries_of_the_template_come_first() {
    let mut template = SingBoxConfig::new();
    template.inbounds.push(Inbound::new("dns-in".to_string(), "127.0.0.1".to_string(), 53));
    template.outbounds.push(Outbound { tag: Some("direct".to_string()), server: None, other: Vec::new() });
    template.rules.push(Rule::new("dns-in".to_string(), "direct".to_string()));
    let outbound = Outbound {
        tag: Some("template".to_string()),
        server: Some("example".to_string()),
        other: vec![("type".to_string(), "\"vless\"".to_string())],
    };
    let ips: Vec<String> = (0..12).map(|i| format!("10.0.0.{}", i)).collect();
    let config = template.generate(&outbound, &ips, "::1".to_string(), 65524);
    assert_eq!(config.inbounds.len(), 13);
    assert_eq!(config.inbounds[0].tag, "dns-in");
    assert_eq!(config.inbounds[0].listen_port, 53);
    assert_eq!(config.outbounds[0].tag, Some("direct".to_string()));
    assert_eq!(config.outbounds[0].server, None);
    assert_eq!(config.rules[0].outbound, "direct");
    assert_eq!(config.inbounds[11].tag, "inbound-10");
    assert_eq!(config.inbounds[12].tag, "inbound-11");
    assert_eq!(config.inbounds[12].listen_port, 65535);
    assert_eq!(config.inbounds[12].listen, "::1");
    assert_eq!(config.outbounds[12].tag, Some("outbound-11".to_string()));
    assert_eq!(config.outbounds[12].server, Some("10.0.0.11".to_string()));
    assert_eq!(config.outbounds[12].other, outbound.other);
    assert!(config.outbounds[0].other.is_empty());
    assert_eq!(config.rules[12].inbound, vec!["inbound-11".to_string()]);
    assert_eq!(template.inbounds.len(), 1);
}

#[test]
fn an_empty_batch_adds_nothing() {
    let template = SingBoxConfig::new();
    let outbound = Outbound { tag: None, server: None, other: Vec::new() };
    let config = template.generate(&outbound, &Vec::new(), "127.0.0.2".to_string(), 65535);
    assert!(config.inbounds.is_empty());
    assert!(config.outbounds.is_empty());
    assert!(config.rules.is_empty());
}

#[test]
fn entries_are_made_of_their_parts() {
    let inbound = Inbound::new("t".to_string(), "l".to_string(), 9);
    assert_eq!(inbound.kind, "socks");
    assert_eq!(inbound.tag, "t");
    assert_eq!(inbound.listen, "l");
    assert_eq!(inbound.listen_port, 9);
    let copy = inbound.duplicate();
    assert_eq!(copy.tag, "t");
    let outbound = Outbound {
        tag: Some("old".to_string()),
        server: None,
        other: vec![("uuid".to_string(), "\"0000\"".to_string()), ("port".to_string(), "443".to_string())],
    };
    let made = outbound.generate("new".to_string(), "1.2.3.4".to_string());
    assert_eq!(made.tag, Some("new".to_string()));
    assert_eq!(made.server, Some("1.2.3.4".to_string()));
    assert_eq!(made.other, outbound.other);
    assert_eq!(outbound.duplicate().other, outbound.other);
    assert_eq!(outbound.duplicate().tag, Some("old".to_string()));
    let rule = Rule::new("in".to_string(), "out".to_string());
    assert_eq!(rule.inbound, vec!["in".to_string()]);
    assert_eq!(rule.outbound, "out");
    assert_eq!(rule.duplicate().outbound, "out");
}

fn run(events: &[TunnelEvent]) -> (TunnelState, Vec<TunnelAction>) {
    let mut state = TunnelState::Idle;
    let mut actions = Vec::new();
    for event in events {
        let (next, action) = step(state, *event);
        state = next;
        actions.push(action);
    }
    (state, actions)
}

#[test]
fn a_process_that_writes_a_first_byte_is_ready_and_is_ended_once() {
    let (state, actions) = run(&[
        TunnelEvent::Start,
        TunnelEvent::Spawned,
        TunnelEvent::FirstByte,
        TunnelEvent::Stop,
        TunnelEvent::Stop,
        TunnelEvent::Killed,
        TunnelEvent::Stop,
    ]);
    assert_eq!(state, TunnelState::Stopped);
    assert_eq!(
        actions,
        vec![
            TunnelAction::Spawn,
            TunnelAction::AwaitFirstByte,
            TunnelAction::Proceed,
            TunnelAction::Kill,
            TunnelAction::Nothing,
            TunnelAction::Nothing,
            TunnelAction::Nothing,
        ]
    );
}

#[test]
fn a_process_without_a_first_byte_fails_after_its_output_was_read() {
    let (state, actions) = run(&[
        TunnelEvent::Start,
        TunnelEvent::Spawned,
        TunnelEvent::ReadFailed,
        TunnelEvent::Exited,
        TunnelEvent::Drained,
        TunnelEvent::Stop,
    ]);
    assert_eq!(state, TunnelState::Stopped);
    assert_eq!(
        actions,
        vec![
            TunnelAction::Spawn,
            TunnelAction::AwaitFirstByte,
            TunnelAction::AwaitExit,
            TunnelAction::Drain,
            TunnelAction::Fail(LaunchFault::FirstByte),
            TunnelAction::Nothing,
        ]
    );
}

#[test]
fn every_step_of_a_start_can_fail() {
    assert_eq!(
        run(&[TunnelEvent::Start, TunnelEvent::SpawnFailed]),
        (TunnelState::Failed, vec![TunnelAction::Spawn, TunnelAction::Fail(LaunchFault::Spawn)])
    );
    assert_eq!(
        step(TunnelState::Exiting, TunnelEvent::WaitFailed),
        (TunnelState::Aborted, TunnelAction::Fail(LaunchFault::Wait))
    );
    assert_eq!(
        step(TunnelState::Aborted, TunnelEvent::Stop),
        (TunnelState::Stopping, TunnelAction::Kill)
    );
    assert_eq!(
        step(TunnelState::Failed, TunnelEvent::Stop),
        (TunnelState::Stopped, TunnelAction::Nothing)
    );
    assert_eq!(
        step(TunnelState::Draining, TunnelEvent::DrainFailed),
        (TunnelState::Failed, TunnelAction::Fail(LaunchFault::Drain))
    );
}

#[test]
fn a_fault_of_the_cleanup_is_a_warning() {
    assert_eq!(
        step(TunnelState::Stopping, TunnelEvent::KillFailed),
        (TunnelState::Stopped, TunnelAction::Warn)
    );
    assert_eq!(
        step(TunnelState::Starting, TunnelEvent::Stop),
        (TunnelState::Stopping, TunnelAction::Kill)
    );
    assert_eq!(
        step(TunnelState::Exiting, TunnelEvent::Stop),
        (TunnelState::Stopping, TunnelAction::Kill)
    );
    assert_eq!(
        step(TunnelState::Idle, TunnelEvent::Stop),
        (TunnelState::Stopped, TunnelAction::Nothing)
    );
    assert_eq!(
        step(TunnelState::Spawning, TunnelEvent::Stop),
        (TunnelState::Stopped, TunnelAction::Nothing)
    );
}

#[test]
fn an_event_that_is_not_awaited_changes_nothing() {
    assert_eq!(
        step(TunnelState::Ready, TunnelEvent::Spawned),
        (TunnelState::Ready, TunnelAction::Nothing)
    );
    assert_eq!(
        step(TunnelState::Idle, TunnelEvent::FirstByte),
        (TunnelState::Idle, TunnelAction::Nothing)
    );
    assert_eq!(
        step(TunnelState::Stopped, TunnelEvent::Start),
        (TunnelState::Stopped, TunnelAction::Nothing)
    );
}
