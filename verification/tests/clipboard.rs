use recall::clipboard::{clipboard_step, first_probe, ClipboardProbe, ClipboardStep, ClipboardTool};

fn pick_tool(present: [bool; 4]) -> Option<ClipboardTool> {
    let mut probe = first_probe();
    loop {
        let p = match probe {
            ClipboardProbe::MacOs => present[0],
            ClipboardProbe::Wayland => present[1],
            ClipboardProbe::XclipInstalled => present[2],
            ClipboardProbe::XselInstalled => present[3],
        };
        match clipboard_step(probe, p) {
            ClipboardStep::Use(t) => return Some(t),
            ClipboardStep::Check(next) => probe = next,
            ClipboardStep::NoneFound => return None,
        }
    }
}

#[test]
fn preference_order() {
    assert_eq!(pick_tool([true, true, true, true]), Some(ClipboardTool::Pbcopy));
    assert_eq!(pick_tool([false, true, true, true]), Some(ClipboardTool::WlCopy));
    assert_eq!(pick_tool([false, false, true, true]), Some(ClipboardTool::Xclip));
    assert_eq!(pick_tool([false, false, false, true]), Some(ClipboardTool::Xsel));
    assert_eq!(pick_tool([false, false, false, false]), None);
}

#[test]
fn tool_commands() {
    assert_eq!(ClipboardTool::Pbcopy.program(), "pbcopy");
    assert_eq!(ClipboardTool::WlCopy.program(), "wl-copy");
    assert_eq!(ClipboardTool::Xclip.program(), "xclip");
    assert_eq!(ClipboardTool::Xsel.program(), "xsel");
    assert!(ClipboardTool::Pbcopy.args().is_empty());
    assert!(ClipboardTool::WlCopy.args().is_empty());
    assert_eq!(ClipboardTool::Xclip.args(), vec!["-selection", "clipboard"]);
    assert_eq!(ClipboardTool::Xsel.args(), vec!["--clipboard", "--input"]);
}
