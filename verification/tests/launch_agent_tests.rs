use grav_tray_rs::launch_agent::{
    install_and_start, install_next, output_message, plist_contents, uninstall_and_stop,
    uninstall_next, xml_escape, Install, LaunchEvent, LaunchStep, ProcessOutput, Uninstall, LABEL,
};

#[test]
fn launch_agent_escapes_executable_path() {
    assert_eq!(
        xml_escape("/Applications/Me & You/<tray>"),
        "/Applications/Me &amp; You/&lt;tray&gt;"
    );
}

#[test]
fn escapes_quotes_and_leaves_other_text() {
    assert_eq!(xml_escape("\"it's\" > é"), "&quot;it&apos;s&quot; &gt; é");
    assert_eq!(xml_escape(""), "");
    assert_eq!(xml_escape("&amp;"), "&amp;amp;");
}

#[test]
fn plist_runs_the_executable_at_login() {
    let plist = plist_contents("/Users/me/.cargo/bin/grav-tray-rs");
    let expected = format!(
        r#"<?xml version="1.0" encoding="UTF-8"?>
<!DOCTYPE plist PUBLIC "-//Apple//DTD PLIST 1.0//EN" "http://www.apple.com/DTDs/PropertyList-1.0.dtd">
<plist version="1.0">
<dict>
    <key>Label</key>
    <string>{LABEL}</string>
    <key>ProgramArguments</key>
    <array>
        <string>/Users/me/.cargo/bin/grav-tray-rs</string>
    </array>
    <key>ProcessType</key>
    <string>Interactive</string>
    <key>RunAtLoad</key>
    <true/>
</dict>
</plist>
"#
    );
    assert_eq!(plist, expected);
    assert!(plist_contents("/a<b").contains("<string>/a&lt;b</string>"));
}

fn output(success: bool, stderr: &str) -> ProcessOutput {
    ProcessOutput { success, status: "exit status: 5".to_owned(), stderr: stderr.to_owned() }
}

#[test]
fn output_messages_prefer_stderr() {
    assert_eq!(output_message(&output(false, "  Bootstrap failed: 5\n")), "Bootstrap failed: 5");
    assert_eq!(output_message(&output(false, " \n\t")), "exit status exit status: 5");
}

fn args(step: &LaunchStep) -> Vec<String> {
    match step {
        LaunchStep::Launchctl(args) => args.clone(),
        _ => panic!("expected a launchctl step"),
    }
}

#[test]
fn install_bootstraps_the_written_plist() {
    let (state, step) = install_and_start(501);
    assert!(matches!(step, LaunchStep::WritePlist));
    let (state, step) = install_next(state, LaunchEvent::PlistWritten(Ok("/p.plist".to_owned())));
    assert_eq!(args(&step), vec!["bootstrap", "gui/501", "/p.plist"]);
    let (state, step) = install_next(state, LaunchEvent::LaunchctlFinished(Ok(output(true, ""))));
    assert!(matches!(state, Install::Finished));
    assert!(matches!(step, LaunchStep::Done(Ok(()))));
}

#[test]
fn install_falls_back_to_kickstart() {
    let (state, _) = install_and_start(0);
    let (state, _) = install_next(state, LaunchEvent::PlistWritten(Ok("/p".to_owned())));
    let (state, step) = install_next(state, LaunchEvent::LaunchctlFinished(Ok(output(false, "already loaded"))));
    assert_eq!(args(&step), vec!["kickstart".to_owned(), "-k".to_owned(), format!("gui/0/{LABEL}")]);
    let (_, step) = install_next(state, LaunchEvent::LaunchctlFinished(Ok(output(false, ""))));
    match step {
        LaunchStep::Done(Err(e)) => assert_eq!(
            e,
            "launchctl could not start Grav Tray.\nbootstrap: already loaded\nkickstart: exit status exit status: 5"
        ),
        _ => panic!("expected a failure"),
    }
}

#[test]
fn install_reports_io_errors() {
    let (state, _) = install_and_start(1);
    let (_, step) = install_next(state, LaunchEvent::PlistWritten(Err("denied".to_owned())));
    assert!(matches!(step, LaunchStep::Done(Err(ref e)) if e == "denied"));
    let (state, _) = install_and_start(1);
    let (state, _) = install_next(state, LaunchEvent::PlistWritten(Ok("/p".to_owned())));
    let (_, step) = install_next(state, LaunchEvent::LaunchctlFinished(Err("no launchctl".to_owned())));
    assert!(matches!(step, LaunchStep::Done(Err(ref e)) if e == "no launchctl"));
}

#[test]
fn uninstall_boots_out_then_removes() {
    let (state, step) = uninstall_and_stop(501);
    assert_eq!(args(&step), vec!["bootout".to_owned(), format!("gui/501/{LABEL}")]);
    let (state, step) = uninstall_next(state, LaunchEvent::LaunchctlFinished(Ok(output(true, ""))));
    assert!(matches!(step, LaunchStep::RemovePlist(None)));
    let (state, step) = uninstall_next(state, LaunchEvent::PlistRemoved(Ok(())));
    assert!(matches!(state, Uninstall::Finished));
    assert!(matches!(step, LaunchStep::Done(Ok(()))));
}

#[test]
fn uninstall_warns_only_when_the_plist_remains() {
    let (state, _) = uninstall_and_stop(501);
    let (state, step) = uninstall_next(state, LaunchEvent::LaunchctlFinished(Ok(output(false, "Boot-out failed"))));
    assert!(matches!(step, LaunchStep::CheckInstalled));
    let (state, step) = uninstall_next(state, LaunchEvent::InstalledChecked(true));
    assert!(matches!(step, LaunchStep::RemovePlist(Some(ref w)) if w == "launchctl: Boot-out failed"));
    let (_, step) = uninstall_next(state, LaunchEvent::PlistRemoved(Err("busy".to_owned())));
    assert!(matches!(step, LaunchStep::Done(Err(ref e)) if e == "busy"));

    let (state, _) = uninstall_and_stop(501);
    let (state, _) = uninstall_next(state, LaunchEvent::LaunchctlFinished(Ok(output(false, "not loaded"))));
    let (_, step) = uninstall_next(state, LaunchEvent::InstalledChecked(false));
    assert!(matches!(step, LaunchStep::RemovePlist(None)));
}

fn read_back(escaped: &str) -> String {
    escaped
        .replace("&lt;", "<")
        .replace("&gt;", ">")
        .replace("&quot;", "\"")
        .replace("&apos;", "'")
        .replace("&amp;", "&")
}

#[test]
fn escaped_paths_read_back_unchanged() {
    for path in ["/Applications/Me & You/<tray>", "/a/&amp;/\"q\"/'s'", "plain", ""] {
        let escaped = xml_escape(path);
        assert!(!escaped.contains(['<', '>', '"', '\'']));
        assert_eq!(read_back(&escaped), path);
    }
}
