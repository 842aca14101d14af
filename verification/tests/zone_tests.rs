use helios_build::illumos::{milestone_status, ServiceCheck};
use helios_build::zone::{
    missing_packages, render_build_script, teardown_actions, teardown_step,
    zonecfg_create_script, zonecfg_lofs_script, TeardownAction, ZoneError, ZoneState,
};

const ALL_STATES: [ZoneState; 5] = [
    ZoneState::Configured,
    ZoneState::Incomplete,
    ZoneState::Installed,
    ZoneState::Mounted,
    ZoneState::Running,
];

#[test]
fn teardown_reaches_absence_from_every_state() {
    for s in ALL_STATES {
        let mut cur = Some(s);
        for a in teardown_actions(s) {
            cur = teardown_step(cur, a).unwrap();
        }
        assert_eq!(cur, None, "teardown from {:?} must end absent", s);
    }
}

#[test]
fn teardown_tables() {
    assert_eq!(
        teardown_actions(ZoneState::Mounted),
        vec![
            TeardownAction::Unmount,
            TeardownAction::Halt,
            TeardownAction::Uninstall,
            TeardownAction::Delete
        ]
    );
    assert_eq!(
        teardown_actions(ZoneState::Running),
        vec![TeardownAction::Halt, TeardownAction::Uninstall, TeardownAction::Delete]
    );
    assert_eq!(
        teardown_actions(ZoneState::Installed),
        vec![TeardownAction::Uninstall, TeardownAction::Delete]
    );
    assert_eq!(
        teardown_actions(ZoneState::Incomplete),
        vec![TeardownAction::Uninstall, TeardownAction::Delete]
    );
    assert_eq!(teardown_actions(ZoneState::Configured), vec![TeardownAction::Delete]);
}

#[test]
fn inadmissible_teardown_step_is_rejected() {
    assert_eq!(
        teardown_step(Some(ZoneState::Running), TeardownAction::Delete).unwrap_err(),
        ZoneError::UnknownState
    );
    assert_eq!(teardown_step(None, TeardownAction::Halt).unwrap_err(), ZoneError::UnknownState);
}

#[test]
fn zone_state_vocabulary() {
    assert_eq!(ZoneState::parse("configured").unwrap(), ZoneState::Configured);
    assert_eq!(ZoneState::parse("incomplete").unwrap(), ZoneState::Incomplete);
    assert_eq!(ZoneState::parse("installed").unwrap(), ZoneState::Installed);
    assert_eq!(ZoneState::parse("mounted").unwrap(), ZoneState::Mounted);
    assert_eq!(ZoneState::parse("running").unwrap(), ZoneState::Running);
    assert_eq!(ZoneState::parse("shutting_down").unwrap_err(), ZoneError::UnknownState);
}

#[test]
fn create_script_text() {
    assert_eq!(
        zonecfg_create_script("/zones/helios", "helios", "lipkg"),
        "create -b; set zonepath=/zones/helios; set zonename=helios; set brand=lipkg; commit; "
    );
}

#[test]
fn lofs_script_text() {
    assert_eq!(
        zonecfg_lofs_script("/ws", "/ws"),
        "add fs; set dir = /ws; set special = /ws; set type = lofs; \
         set options = [rw,nodevices]; end; commit; "
    );
}

#[test]
fn build_script_text() {
    let env = vec![
        ("MACH".to_string(), "i386".to_string()),
        ("WS".to_string(), "/ws".to_string()),
    ];
    assert_eq!(
        render_build_script(&env, "/ws/build.sh all"),
        "#!/bin/sh\nset -o errexit\nset -o pipefail\nset -o xtrace\n\
         export MACH='i386'\nexport WS='/ws'\n/ws/build.sh all\n"
    );
}

#[test]
fn milestone_polling_decisions() {
    assert_eq!(milestone_status("ON -").unwrap(), ServiceCheck::Ready);
    assert_eq!(milestone_status("ON   -").unwrap(), ServiceCheck::Ready);
    assert_eq!(milestone_status("OFF -").unwrap(), ServiceCheck::NotReady);
    assert_eq!(milestone_status("ON *").unwrap(), ServiceCheck::NotReady);
    assert_eq!(milestone_status("ON").unwrap(), ServiceCheck::NotReady);
    assert_eq!(milestone_status("").unwrap(), ServiceCheck::NotReady);
    assert_eq!(
        milestone_status("ON -\nON -").unwrap_err(),
        ZoneError::UnexpectedServiceOutput
    );
}

#[test]
fn missing_subset_keeps_order() {
    let required: Vec<String> =
        vec!["a".to_string(), "b".to_string(), "c".to_string(), "b".to_string()];
    let installed: Vec<String> = vec!["b".to_string()];
    assert_eq!(missing_packages(&required, &installed), vec!["a".to_string(), "c".to_string()]);
    assert!(missing_packages(&required, &required).is_empty());
}
