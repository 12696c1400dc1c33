//! The per-user LaunchAgent that starts the tray at login: its property list,
//! and the `launchctl` conversations that install and remove it.

use vstd::prelude::*;
use crate::text::{chars_of, decimal, decimal_string, string_from_chars, trim, trimmed};

verus! {

/// The LaunchAgent's label, also the base name of its property list.
pub const LABEL: &'static str = "com.aabelkhiria.grav-tray-rs";

/// What installing or removing the agent answers off macOS.
pub const UNSUPPORTED_PLATFORM: &'static str = "grav-tray-rs is a native macOS menu bar application.";

/// The XML text that stands for one character.
pub open spec fn escape_char(c: char) -> Seq<char> {
    if c == '&' {
        "&amp;"@
    } else if c == '<' {
        "&lt;"@
    } else if c == '>' {
        "&gt;"@
    } else if c == '"' {
        "&quot;"@
    } else if c == '\'' {
        "&apos;"@
    } else {
        seq![c]
    }
}

/// `s` with each of `& < > " '` replaced by its XML entity.
pub open spec fn xml_escaped(s: Seq<char>) -> Seq<char>
    decreases s.len(),
{
    if s.len() == 0 {
        seq![]
    } else {
        xml_escaped(s.drop_last()) + escape_char(s.last())
    }
}

/// Whether `c` is one of the characters XML text must not hold raw.
pub open spec fn is_markup(c: char) -> bool {
    c == '<' || c == '>' || c == '"' || c == '\''
}

fn push_all(out: &mut Vec<char>, piece: &str)
    ensures
        final(out)@ == old(out)@ + piece@,
{
    let cs = chars_of(piece);
    let mut i: usize = 0;
    while i < cs.len()
        invariant
            i <= cs@.len(),
            cs@ == piece@,
            out@ == old(out)@ + cs@.subrange(0, i as int),
        decreases cs@.len() - i,
    {
        out.push(cs[i]);
        proof {
            assert(cs@.subrange(0, i + 1) =~= cs@.subrange(0, i as int).push(cs@[i as int]));
        }
        i += 1;
    }
    proof {
        assert(cs@.subrange(0, i as int) =~= cs@);
    }
}

/// Escaping one character never yields a markup character.
pub proof fn lemma_escape_char_is_clean(c: char)
    ensures
        forall|k: int| 0 <= k < escape_char(c).len() ==> !is_markup(#[trigger] escape_char(c)[k]),
{
    reveal_strlit("&amp;");
    reveal_strlit("&lt;");
    reveal_strlit("&gt;");
    reveal_strlit("&quot;");
    reveal_strlit("&apos;");
    assert("&amp;"@ =~= seq!['&', 'a', 'm', 'p', ';']);
    assert("&lt;"@ =~= seq!['&', 'l', 't', ';']);
    assert("&gt;"@ =~= seq!['&', 'g', 't', ';']);
    assert("&quot;"@ =~= seq!['&', 'q', 'u', 'o', 't', ';']);
    assert("&apos;"@ =~= seq!['&', 'a', 'p', 'o', 's', ';']);
}

/// `value` with `&`, `<`, `>`, `"` and `'` written as XML entities; the
/// result holds none of `< > " '`.
pub fn xml_escape(value: &str) -> (r: String)
    ensures
        r@ == xml_escaped(value@),
        forall|i: int| 0 <= i < r@.len() ==> !is_markup(#[trigger] r@[i]),
{
    let cs = chars_of(value);
    let mut out: Vec<char> = Vec::new();
    let mut i: usize = 0;
    while i < cs.len()
        invariant
            i <= cs@.len(),
            cs@ == value@,
            out@ == xml_escaped(cs@.subrange(0, i as int)),
            forall|j: int| 0 <= j < out@.len() ==> !is_markup(#[trigger] out@[j]),
        decreases cs@.len() - i,
    {
        let c = cs[i];
        let ghost before = out@;
        if c == '&' {
            push_all(&mut out, "&amp;");
        } else if c == '<' {
            push_all(&mut out, "&lt;");
        } else if c == '>' {
            push_all(&mut out, "&gt;");
        } else if c == '"' {
            push_all(&mut out, "&quot;");
        } else if c == '\'' {
            push_all(&mut out, "&apos;");
        } else {
            out.push(c);
        }
        proof {
            assert(cs@.subrange(0, i + 1).drop_last() =~= cs@.subrange(0, i as int));
            assert(out@ =~= before + escape_char(c));
            lemma_escape_char_is_clean(c);
            assert forall|j: int| 0 <= j < out@.len() implies !is_markup(#[trigger] out@[j]) by {
                if j >= before.len() {
                    assert(out@[j] == escape_char(c)[j - before.len()]);
                }
            }
        }
        i += 1;
    }
    proof {
        assert(cs@.subrange(0, i as int) =~= cs@);
    }
    string_from_chars(&out)
}

/// What an XML reader makes of text holding only the five predefined entities.
pub open spec fn xml_unescaped(t: Seq<char>) -> Seq<char>
    decreases t.len(),
{
    if t.len() == 0 {
        seq![]
    } else if t.len() >= 5 && t.subrange(0, 5) == "&amp;"@ {
        seq!['&'] + xml_unescaped(t.subrange(5, t.len() as int))
    } else if t.len() >= 4 && t.subrange(0, 4) == "&lt;"@ {
        seq!['<'] + xml_unescaped(t.subrange(4, t.len() as int))
    } else if t.len() >= 4 && t.subrange(0, 4) == "&gt;"@ {
        seq!['>'] + xml_unescaped(t.subrange(4, t.len() as int))
    } else if t.len() >= 6 && t.subrange(0, 6) == "&quot;"@ {
        seq!['"'] + xml_unescaped(t.subrange(6, t.len() as int))
    } else if t.len() >= 6 && t.subrange(0, 6) == "&apos;"@ {
        seq!['\''] + xml_unescaped(t.subrange(6, t.len() as int))
    } else {
        seq![t[0]] + xml_unescaped(t.subrange(1, t.len() as int))
    }
}

proof fn lemma_escaped_front(s: Seq<char>)
    requires
        s.len() > 0,
    ensures
        xml_escaped(s) == escape_char(s[0]) + xml_escaped(s.drop_first()),
    decreases s.len(),
{
    if s.len() == 1 {
        assert(s.drop_last() =~= Seq::<char>::empty());
        assert(s.drop_first() =~= Seq::<char>::empty());
        assert(xml_escaped(s.drop_first()) =~= Seq::<char>::empty());
        assert(xml_escaped(s) =~= escape_char(s[0]));
    } else {
        lemma_escaped_front(s.drop_last());
        assert(s.drop_last().drop_first() =~= s.drop_first().drop_last());
        assert(s.drop_last()[0] == s[0]);
        assert(s.drop_first().last() == s.last());
        assert(xml_escaped(s) =~= escape_char(s[0]) + xml_escaped(s.drop_first()));
    }
}

proof fn lemma_unescape_piece(c: char, t: Seq<char>)
    ensures
        xml_unescaped(escape_char(c) + t) == seq![c] + xml_unescaped(t),
{
    reveal_strlit("&amp;");
    reveal_strlit("&lt;");
    reveal_strlit("&gt;");
    reveal_strlit("&quot;");
    reveal_strlit("&apos;");
    let amp: Seq<char> = seq!['&', 'a', 'm', 'p', ';'];
    let lt: Seq<char> = seq!['&', 'l', 't', ';'];
    let gt: Seq<char> = seq!['&', 'g', 't', ';'];
    let quot: Seq<char> = seq!['&', 'q', 'u', 'o', 't', ';'];
    let apos: Seq<char> = seq!['&', 'a', 'p', 'o', 's', ';'];
    assert("&amp;"@ =~= amp);
    assert("&lt;"@ =~= lt);
    assert("&gt;"@ =~= gt);
    assert("&quot;"@ =~= quot);
    assert("&apos;"@ =~= apos);
    let u = escape_char(c) + t;
    let n = escape_char(c).len() as int;
    assert(u.subrange(n, u.len() as int) =~= t);
    assert(u.subrange(0, n) =~= escape_char(c));
    if c == '&' {
    } else if c == '<' {
        assert(u[1] == 'l');
        if u.len() >= 5 {
            assert(u.subrange(0, 5)[1] != amp[1]);
        }
    } else if c == '>' {
        assert(u[1] == 'g');
        if u.len() >= 5 {
            assert(u.subrange(0, 5)[1] != amp[1]);
        }
        assert(u.subrange(0, 4)[1] != lt[1]);
    } else if c == '"' {
        assert(u[1] == 'q');
        assert(u.subrange(0, 5)[1] != amp[1]);
        assert(u.subrange(0, 4)[1] != lt[1]);
        assert(u.subrange(0, 4)[1] != gt[1]);
    } else if c == '\'' {
        assert(u[2] == 'p');
        assert(u.subrange(0, 5)[2] != amp[2]);
        assert(u.subrange(0, 4)[1] != lt[1]);
        assert(u.subrange(0, 4)[1] != gt[1]);
        assert(u.subrange(0, 6)[1] != quot[1]);
    } else {
        assert(u[0] == c);
        if u.len() >= 5 {
            assert(u.subrange(0, 5)[0] != amp[0]);
        }
        if u.len() >= 4 {
            assert(u.subrange(0, 4)[0] != lt[0]);
            assert(u.subrange(0, 4)[0] != gt[0]);
        }
        if u.len() >= 6 {
            assert(u.subrange(0, 6)[0] != quot[0]);
            assert(u.subrange(0, 6)[0] != apos[0]);
        }
    }
}

/// Escaping loses nothing: an XML reader reads back exactly the escaped text.
pub proof fn escaping_is_reversible(s: Seq<char>)
    ensures
        xml_unescaped(xml_escaped(s)) == s,
    decreases s.len(),
{
    if s.len() == 0 {
        assert(xml_escaped(s) =~= Seq::<char>::empty());
    } else {
        lemma_escaped_front(s);
        escaping_is_reversible(s.drop_first());
        lemma_unescape_piece(s[0], xml_escaped(s.drop_first()));
        assert(seq![s[0]] + s.drop_first() =~= s);
    }
}

/// The property list text before the label.
pub const PLIST_HEAD: &'static str = "<?xml version=\"1.0\" encoding=\"UTF-8\"?>
<!DOCTYPE plist PUBLIC \"-//Apple//DTD PLIST 1.0//EN\" \"http://www.apple.com/DTDs/PropertyList-1.0.dtd\">
<plist version=\"1.0\">
<dict>
    <key>Label</key>
    <string>";

/// The property list text between the label and the executable path.
pub const PLIST_MIDDLE: &'static str = "</string>
    <key>ProgramArguments</key>
    <array>
        <string>";

/// The property list text after the executable path.
pub const PLIST_TAIL: &'static str = "</string>
    </array>
    <key>ProcessType</key>
    <string>Interactive</string>
    <key>RunAtLoad</key>
    <true/>
</dict>
</plist>
";

/// The property list that runs `executable` at login, interactively.
pub open spec fn plist_text(executable: Seq<char>) -> Seq<char> {
    PLIST_HEAD@ + LABEL@ + PLIST_MIDDLE@ + xml_escaped(executable) + PLIST_TAIL@
}

/// The LaunchAgent property list for `executable` (its path, escaped).
pub fn plist_contents(executable: &str) -> (r: String)
    ensures
        r@ == plist_text(executable@),
{
    let mut text = String::from_str(PLIST_HEAD);
    text.append(LABEL);
    text.append(PLIST_MIDDLE);
    text.append(xml_escape(executable).as_str());
    text.append(PLIST_TAIL);
    text
}

/// What a finished `launchctl` run reported.
pub struct ProcessOutput {
    /// Whether it exited with status zero.
    pub success: bool,
    /// Its exit status as `ExitStatus` displays it.
    pub status: String,
    /// Its standard error, decoded lossily as UTF-8.
    pub stderr: String,
}

/// The explanation a failed run gives: its trimmed standard error, or its
/// exit status when that is empty.
pub open spec fn message_of(output: ProcessOutput) -> Seq<char> {
    if trim(output.stderr@).len() == 0 {
        "exit status "@ + output.status@
    } else {
        trim(output.stderr@)
    }
}

/// The explanation of a `launchctl` run, for an error message.
pub fn output_message(output: &ProcessOutput) -> (r: String)
    ensures
        r@ == message_of(*output),
{
    let stderr = trimmed(output.stderr.as_str());
    if stderr.as_str().is_empty() {
        let mut text = String::from_str("exit status ");
        text.append(output.status.as_str());
        text
    } else {
        stderr
    }
}

/// The views of a list of strings.
pub open spec fn views(v: Seq<String>) -> Seq<Seq<char>> {
    v.map_values(|s: String| s@)
}

/// The launchd domain of the user's GUI session.
pub open spec fn gui_domain(uid: u32) -> Seq<char> {
    "gui/"@ + decimal(uid as nat)
}

/// The agent's service target in the user's GUI session.
pub open spec fn gui_service(uid: u32) -> Seq<char> {
    gui_domain(uid) + "/"@ + LABEL@
}

fn gui_domain_string(uid: u32) -> (r: String)
    ensures
        r@ == gui_domain(uid),
{
    let mut text = String::from_str("gui/");
    text.append(decimal_string(uid as u64).as_str());
    text
}

fn gui_service_string(uid: u32) -> (r: String)
    ensures
        r@ == gui_service(uid),
{
    let mut text = gui_domain_string(uid);
    text.append("/");
    text.append(LABEL);
    text
}

/// What the caller reports back to the installer or uninstaller.
pub enum LaunchEvent {
    /// The property list was written at this path, or could not be.
    PlistWritten(Result<String, String>),
    /// `launchctl` finished, or could not be started.
    LaunchctlFinished(Result<ProcessOutput, String>),
    /// Whether the property list exists.
    InstalledChecked(bool),
    /// The property list was removed (or was already absent), or could not be.
    PlistRemoved(Result<(), String>),
}

/// What the caller does next.
pub enum LaunchStep {
    /// Write the property list for the running executable.
    WritePlist,
    /// Run `launchctl` with these arguments.
    Launchctl(Vec<String>),
    /// Find out whether the property list exists.
    CheckInstalled,
    /// Print the warning, if any, to standard error, then remove the property list.
    RemovePlist(Option<String>),
    /// The conversation is over, with this outcome.
    Done(Result<(), String>),
}

/// Where an installation stands.
pub enum Install {
    WritingPlist { uid: u32 },
    Bootstrapping { uid: u32 },
    Kickstarting { uid: u32, bootstrap: ProcessOutput },
    Finished,
}

/// Whether `event` is the report that `state` waits for.
pub open spec fn install_accepts(state: Install, event: LaunchEvent) -> bool {
    match state {
        Install::WritingPlist { .. } => event is PlistWritten,
        Install::Bootstrapping { .. } => event is LaunchctlFinished,
        Install::Kickstarting { .. } => event is LaunchctlFinished,
        Install::Finished => false,
    }
}

/// The failure that both `launchctl` attempts end in.
pub open spec fn install_failure(bootstrap: ProcessOutput, kickstart: ProcessOutput) -> Seq<char> {
    "launchctl could not start Grav Tray.\nbootstrap: "@ + message_of(bootstrap) + "\nkickstart: "@
        + message_of(kickstart)
}

/// Starts installing the agent for user `uid`: the property list is written first.
pub fn install_and_start(uid: u32) -> (r: (Install, LaunchStep))
    ensures
        r.0 == (Install::WritingPlist { uid }),
        r.1 is WritePlist,
{
    (Install::WritingPlist { uid }, LaunchStep::WritePlist)
}

/// The installer's next state and step once `event` is reported: after the
/// property list, `launchctl bootstrap gui/<uid> <path>`; if that fails,
/// `launchctl kickstart -k gui/<uid>/<label>`; an error from writing or from
/// starting `launchctl` ends the installation with that error.
pub fn install_next(state: Install, event: LaunchEvent) -> (r: (Install, LaunchStep))
    requires
        install_accepts(state, event),
    ensures
        match (state, event) {
            (Install::WritingPlist { uid }, LaunchEvent::PlistWritten(Err(e))) =>
                r.0 is Finished && r.1 == LaunchStep::Done(Err(e)),
            (Install::WritingPlist { uid }, LaunchEvent::PlistWritten(Ok(path))) =>
                {
                    &&& r.0 == (Install::Bootstrapping { uid })
                    &&& r.1 matches LaunchStep::Launchctl(args) && views(args@) == seq!["bootstrap"@, gui_domain(uid), path@]
                },
            (Install::Bootstrapping { uid }, LaunchEvent::LaunchctlFinished(Err(e))) =>
                r.0 is Finished && r.1 == LaunchStep::Done(Err(e)),
            (Install::Bootstrapping { uid }, LaunchEvent::LaunchctlFinished(Ok(out))) =>
                if out.success {
                    r.0 is Finished && r.1 == LaunchStep::Done(Ok(()))
                } else {
                    &&& r.0 == (Install::Kickstarting { uid, bootstrap: out })
                    &&& r.1 matches LaunchStep::Launchctl(args) && views(args@) == seq!["kickstart"@, "-k"@, gui_service(uid)]
                },
            (Install::Kickstarting { uid, bootstrap }, LaunchEvent::LaunchctlFinished(Err(e))) =>
                r.0 is Finished && r.1 == LaunchStep::Done(Err(e)),
            (Install::Kickstarting { uid, bootstrap }, LaunchEvent::LaunchctlFinished(Ok(out))) =>
                r.0 is Finished && if out.success {
                    r.1 == LaunchStep::Done(Ok(()))
                } else {
                    r.1 matches LaunchStep::Done(Err(e)) && e@ == install_failure(bootstrap, out)
                },
            _ => false,
        },
{
    match state {
        Install::WritingPlist { uid } => match event {
            LaunchEvent::PlistWritten(Err(e)) => (Install::Finished, LaunchStep::Done(Err(e))),
            LaunchEvent::PlistWritten(Ok(path)) => {
                let mut args: Vec<String> = Vec::new();
                args.push(String::from_str("bootstrap"));
                args.push(gui_domain_string(uid));
                args.push(path);
                proof {
                    assert(views(args@) =~= seq!["bootstrap"@, gui_domain(uid), path@]);
                }
                (Install::Bootstrapping { uid }, LaunchStep::Launchctl(args))
            },
            _ => (Install::Finished, LaunchStep::Done(Ok(()))),
        },
        Install::Bootstrapping { uid } => match event {
            LaunchEvent::LaunchctlFinished(Err(e)) => (Install::Finished, LaunchStep::Done(Err(e))),
            LaunchEvent::LaunchctlFinished(Ok(out)) => {
                if out.success {
                    (Install::Finished, LaunchStep::Done(Ok(())))
                } else {
                    let mut args: Vec<String> = Vec::new();
                    args.push(String::from_str("kickstart"));
                    args.push(String::from_str("-k"));
                    args.push(gui_service_string(uid));
                    proof {
                        assert(views(args@) =~= seq!["kickstart"@, "-k"@, gui_service(uid)]);
                    }
                    (Install::Kickstarting { uid, bootstrap: out }, LaunchStep::Launchctl(args))
                }
            },
            _ => (Install::Finished, LaunchStep::Done(Ok(()))),
        },
        Install::Kickstarting { uid, bootstrap } => match event {
            LaunchEvent::LaunchctlFinished(Err(e)) => (Install::Finished, LaunchStep::Done(Err(e))),
            LaunchEvent::LaunchctlFinished(Ok(out)) => {
                if out.success {
                    (Install::Finished, LaunchStep::Done(Ok(())))
                } else {
                    let mut text = String::from_str("launchctl could not start Grav Tray.\nbootstrap: ");
                    text.append(output_message(&bootstrap).as_str());
                    text.append("\nkickstart: ");
                    text.append(output_message(&out).as_str());
                    (Install::Finished, LaunchStep::Done(Err(text)))
                }
            },
            _ => (Install::Finished, LaunchStep::Done(Ok(()))),
        },
        Install::Finished => (Install::Finished, LaunchStep::Done(Ok(()))),
    }
}

/// Where a removal stands.
pub enum Uninstall {
    BootingOut,
    CheckingInstalled { bootout: ProcessOutput },
    Removing,
    Finished,
}

/// Whether `event` is the report that `state` waits for.
pub open spec fn uninstall_accepts(state: Uninstall, event: LaunchEvent) -> bool {
    match state {
        Uninstall::BootingOut => event is LaunchctlFinished,
        Uninstall::CheckingInstalled { .. } => event is InstalledChecked,
        Uninstall::Removing => event is PlistRemoved,
        Uninstall::Finished => false,
    }
}

/// Starts removing the agent of user `uid`: `launchctl bootout gui/<uid>/<label>`.
pub fn uninstall_and_stop(uid: u32) -> (r: (Uninstall, LaunchStep))
    ensures
        r.0 is BootingOut,
        r.1 matches LaunchStep::Launchctl(args) && views(args@) == seq!["bootout"@, gui_service(uid)],
{
    let mut args: Vec<String> = Vec::new();
    args.push(String::from_str("bootout"));
    args.push(gui_service_string(uid));
    proof {
        assert(views(args@) =~= seq!["bootout"@, gui_service(uid)]);
    }
    (Uninstall::BootingOut, LaunchStep::Launchctl(args))
}

/// The uninstaller's next state and step once `event` is reported. A service
/// that was not loaded is already stopped: a failed `bootout` is only
/// reported (as `launchctl: <message>`) when the property list still exists;
/// the property list is removed either way, and that removal's outcome is the
/// outcome. An error starting `launchctl` ends the removal with that error.
pub fn uninstall_next(state: Uninstall, event: LaunchEvent) -> (r: (Uninstall, LaunchStep))
    requires
        uninstall_accepts(state, event),
    ensures
        match (state, event) {
            (Uninstall::BootingOut, LaunchEvent::LaunchctlFinished(Err(e))) =>
                r.0 is Finished && r.1 == LaunchStep::Done(Err(e)),
            (Uninstall::BootingOut, LaunchEvent::LaunchctlFinished(Ok(out))) =>
                if out.success {
                    r.0 is Removing && r.1 == LaunchStep::RemovePlist(None)
                } else {
                    r.0 == (Uninstall::CheckingInstalled { bootout: out }) && r.1 is CheckInstalled
                },
            (Uninstall::CheckingInstalled { bootout }, LaunchEvent::InstalledChecked(installed)) =>
                r.0 is Removing && if installed {
                    r.1 matches LaunchStep::RemovePlist(Some(w)) && w@ == "launchctl: "@ + message_of(bootout)
                } else {
                    r.1 == LaunchStep::RemovePlist(None)
                },
            (Uninstall::Removing, LaunchEvent::PlistRemoved(result)) =>
                r.0 is Finished && r.1 == LaunchStep::Done(result),
            _ => false,
        },
{
    match state {
        Uninstall::BootingOut => match event {
            LaunchEvent::LaunchctlFinished(Err(e)) => (Uninstall::Finished, LaunchStep::Done(Err(e))),
            LaunchEvent::LaunchctlFinished(Ok(out)) => {
                if out.success {
                    (Uninstall::Removing, LaunchStep::RemovePlist(None))
                } else {
                    (Uninstall::CheckingInstalled { bootout: out }, LaunchStep::CheckInstalled)
                }
            },
            _ => (Uninstall::Finished, LaunchStep::Done(Ok(()))),
        },
        Uninstall::CheckingInstalled { bootout } => match event {
            LaunchEvent::InstalledChecked(installed) => {
                if installed {
                    let mut warning = String::from_str("launchctl: ");
                    warning.append(output_message(&bootout).as_str());
                    (Uninstall::Removing, LaunchStep::RemovePlist(Some(warning)))
                } else {
                    (Uninstall::Removing, LaunchStep::RemovePlist(None))
                }
            },
            _ => (Uninstall::Finished, LaunchStep::Done(Ok(()))),
        },
        Uninstall::Removing => match event {
            LaunchEvent::PlistRemoved(result) => (Uninstall::Finished, LaunchStep::Done(result)),
            _ => (Uninstall::Finished, LaunchStep::Done(Ok(()))),
        },
        Uninstall::Finished => (Uninstall::Finished, LaunchStep::Done(Ok(()))),
    }
}

} // verus!
