//! Choosing the clipboard tool: macOS's `pbcopy`, then Wayland's
//! `wl-copy`, then `xclip`, then `xsel`, the first that is available.

use vstd::prelude::*;

verus! {

/// A clipboard tool.
#[derive(PartialEq, Eq, Structural, Clone, Copy, Debug)]
pub enum ClipboardTool {
    Pbcopy,
    WlCopy,
    Xclip,
    Xsel,
}

/// What the caller checks next: whether this is macOS, whether a Wayland
/// display is set, or whether `xclip` or `xsel` is installed.
#[derive(PartialEq, Eq, Structural, Clone, Copy, Debug)]
pub enum ClipboardProbe {
    MacOs,
    Wayland,
    XclipInstalled,
    XselInstalled,
}

/// The next step of the choice: use a tool, check something more, or give
/// up because no tool is available.
#[derive(PartialEq, Eq, Structural, Clone, Copy, Debug)]
pub enum ClipboardStep {
    Use(ClipboardTool),
    Check(ClipboardProbe),
    NoneFound,
}

/// The first thing to check.
pub fn first_probe() -> (r: ClipboardProbe)
    ensures
        r == ClipboardProbe::MacOs,
{
    ClipboardProbe::MacOs
}

/// The step after checking `probe` and finding it `present` or not: a
/// present probe picks its tool; an absent one moves on to the next probe in
/// the order macOS, Wayland, xclip, xsel, and after xsel there is none.
pub fn clipboard_step(probe: ClipboardProbe, present: bool) -> (r: ClipboardStep)
    ensures
        present ==> r == ClipboardStep::Use(tool_of(probe)),
        !present ==> r == (match probe {
            ClipboardProbe::MacOs => ClipboardStep::Check(ClipboardProbe::Wayland),
            ClipboardProbe::Wayland => ClipboardStep::Check(ClipboardProbe::XclipInstalled),
            ClipboardProbe::XclipInstalled => ClipboardStep::Check(ClipboardProbe::XselInstalled),
            ClipboardProbe::XselInstalled => ClipboardStep::NoneFound,
        }),
{
    if present {
        return ClipboardStep::Use(
            match probe {
                ClipboardProbe::MacOs => ClipboardTool::Pbcopy,
                ClipboardProbe::Wayland => ClipboardTool::WlCopy,
                ClipboardProbe::XclipInstalled => ClipboardTool::Xclip,
                ClipboardProbe::XselInstalled => ClipboardTool::Xsel,
            },
        );
    }
    match probe {
        ClipboardProbe::MacOs => ClipboardStep::Check(ClipboardProbe::Wayland),
        ClipboardProbe::Wayland => ClipboardStep::Check(ClipboardProbe::XclipInstalled),
        ClipboardProbe::XclipInstalled => ClipboardStep::Check(ClipboardProbe::XselInstalled),
        ClipboardProbe::XselInstalled => ClipboardStep::NoneFound,
    }
}

/// The tool that a present probe stands for.
pub open spec fn tool_of(probe: ClipboardProbe) -> ClipboardTool {
    match probe {
        ClipboardProbe::MacOs => ClipboardTool::Pbcopy,
        ClipboardProbe::Wayland => ClipboardTool::WlCopy,
        ClipboardProbe::XclipInstalled => ClipboardTool::Xclip,
        ClipboardProbe::XselInstalled => ClipboardTool::Xsel,
    }
}

impl ClipboardTool {
    /// The program to run.
    pub fn program(&self) -> (r: &'static str)
        ensures
            r@ == match *self {
                ClipboardTool::Pbcopy => "pbcopy"@,
                ClipboardTool::WlCopy => "wl-copy"@,
                ClipboardTool::Xclip => "xclip"@,
                ClipboardTool::Xsel => "xsel"@,
            },
    {
        match self {
            ClipboardTool::Pbcopy => "pbcopy",
            ClipboardTool::WlCopy => "wl-copy",
            ClipboardTool::Xclip => "xclip",
            ClipboardTool::Xsel => "xsel",
        }
    }

    /// Its arguments, so that it reads the text to copy from standard input.
    pub fn args(&self) -> (r: Vec<&'static str>)
        ensures
            r@.map_values(|s: &str| s@) == match *self {
                ClipboardTool::Xclip => seq!["-selection"@, "clipboard"@],
                ClipboardTool::Xsel => seq!["--clipboard"@, "--input"@],
                _ => Seq::<Seq<char>>::empty(),
            },
    {
        let r: Vec<&'static str> = match self {
            ClipboardTool::Xclip => vec!["-selection", "clipboard"],
            ClipboardTool::Xsel => vec!["--clipboard", "--input"],
            _ => Vec::new(),
        };
        assert(r@.map_values(|s: &str| s@) =~= match *self {
            ClipboardTool::Xclip => seq!["-selection"@, "clipboard"@],
            ClipboardTool::Xsel => seq!["--clipboard"@, "--input"@],
            _ => Seq::<Seq<char>>::empty(),
        });
        r
    }
}

} // verus!
