use port_manager::elevate::{ensure_elevated_or_relaunch, Platform, RelaunchContext, RelaunchPlan, SessionEnv};

fn no_session() -> SessionEnv {
    SessionEnv { display: None, wayland_display: None, xauthority: None, xdg_runtime_dir: None, dbus_session_bus_address: None }
}

fn ctx(platform: Platform, elevated: bool, child: bool, exe: Option<&str>, args: &[&str], session: SessionEnv) -> RelaunchContext {
    RelaunchContext {
        platform,
        elevated,
        elevated_child: child,
        exe: exe.map(|e| e.to_string()),
        args: args.iter().map(|a| a.to_string()).collect(),
        session,
    }
}

fn spawn_parts(plan: RelaunchPlan) -> (String, Vec<String>) {
    match plan {
        RelaunchPlan::Spawn { program, args } => (program, args),
        _ => panic!("expected a spawn plan"),
    }
}

#[test]
fn linux_relaunch_through_pkexec() {
    let session = SessionEnv { display: Some(":0".to_string()), dbus_session_bus_address: Some("unix:path=/run/bus".to_string()), ..no_session() };
    let (program, args) = spawn_parts(ensure_elevated_or_relaunch(&ctx(Platform::Linux, false, false, Some("/opt/pm"), &["-v"], session)));
    assert_eq!(program, "pkexec");
    assert_eq!(
        args,
        vec!["env", "PORT_MANAGER_ELEVATED_CHILD=1", "DISPLAY=:0", "DBUS_SESSION_BUS_ADDRESS=unix:path=/run/bus", "/opt/pm", "-v"]
    );
}

#[test]
fn stays_when_elevated_or_child_or_no_exe() {
    assert!(matches!(ensure_elevated_or_relaunch(&ctx(Platform::Linux, true, false, Some("/x"), &[], no_session())), RelaunchPlan::Stay));
    assert!(matches!(ensure_elevated_or_relaunch(&ctx(Platform::Linux, false, true, Some("/x"), &[], no_session())), RelaunchPlan::Stay));
    assert!(matches!(ensure_elevated_or_relaunch(&ctx(Platform::MacOs, false, false, None, &[], no_session())), RelaunchPlan::Stay));
    assert!(matches!(ensure_elevated_or_relaunch(&ctx(Platform::Other, false, false, Some("/x"), &[], no_session())), RelaunchPlan::Stay));
}

#[test]
fn macos_relaunch_through_osascript() {
    let (program, args) = spawn_parts(ensure_elevated_or_relaunch(&ctx(
        Platform::MacOs,
        false,
        false,
        Some("/Applications/Port Manager.app/Contents/MacOS/pm"),
        &["it's"],
        no_session(),
    )));
    assert_eq!(program, "osascript");
    assert_eq!(args[0], "-e");
    assert_eq!(
        args[1],
        "do shell script \"PORT_MANAGER_ELEVATED_CHILD=1 '/Applications/Port Manager.app/Contents/MacOS/pm' 'it'\\\\''s' >/dev/null 2>&1 &\" with administrator privileges"
    );
}

#[test]
fn windows_relaunch_through_runas() {
    match ensure_elevated_or_relaunch(&ctx(Platform::Windows, false, true, Some("C:\\pm.exe"), &["a b", "c"], no_session())) {
        RelaunchPlan::RunAs { file, parameters } => {
            assert_eq!(file, "C:\\pm.exe");
            assert_eq!(parameters, Some("\"a b\" c".to_string()));
        }
        _ => panic!("expected runas"),
    }
    match ensure_elevated_or_relaunch(&ctx(Platform::Windows, false, false, Some("C:\\pm.exe"), &[], no_session())) {
        RelaunchPlan::RunAs { parameters, .. } => assert_eq!(parameters, None),
        _ => panic!("expected runas"),
    }
    assert!(matches!(ensure_elevated_or_relaunch(&ctx(Platform::Windows, true, false, Some("C:\\pm.exe"), &[], no_session())), RelaunchPlan::Stay));
}
