//! Command-line arguments: what each flag means, and which shell
//! configuration files to scan.

use vstd::prelude::*;

use crate::config::strings_view;

verus! {

/// Which shell configuration to scan.
#[derive(PartialEq, Eq, Structural, Clone, Copy, Debug)]
pub enum ShellMode {
    Auto,
    Zsh,
    Bash,
    Both,
}

/// The parsed arguments: a configuration file, a shell, and explicit shell
/// configuration files.
pub struct Args {
    pub config: Option<String>,
    pub shell: ShellMode,
    pub shell_configs: Vec<String>,
}

/// The characters of `Args`.
pub struct ArgsView {
    pub config: Option<Seq<char>>,
    pub shell: ShellMode,
    pub shell_configs: Seq<Seq<char>>,
}

impl View for Args {
    type V = ArgsView;

    open spec fn view(&self) -> ArgsView {
        ArgsView {
            config: match self.config {
                Some(c) => Some(c@),
                None => None,
            },
            shell: self.shell,
            shell_configs: strings_view(self.shell_configs@),
        }
    }
}

/// What the arguments ask for: a run with these settings, the help text, or
/// the version.
pub enum CliOutcome {
    Run(Args),
    Help,
    Version,
}

pub enum CliOutcomeView {
    Run(ArgsView),
    Help,
    Version,
}

/// A rejected command line: a flag without its value, an unknown shell, or
/// an unknown argument.
pub enum CliError {
    MissingValue(String),
    UnknownShell(String),
    UnknownArgument(String),
}

pub enum CliErrorView {
    MissingValue(Seq<char>),
    UnknownShell(Seq<char>),
    UnknownArgument(Seq<char>),
}

impl View for CliOutcome {
    type V = CliOutcomeView;

    open spec fn view(&self) -> CliOutcomeView {
        match self {
            CliOutcome::Run(a) => CliOutcomeView::Run(a@),
            CliOutcome::Help => CliOutcomeView::Help,
            CliOutcome::Version => CliOutcomeView::Version,
        }
    }
}

impl View for CliError {
    type V = CliErrorView;

    open spec fn view(&self) -> CliErrorView {
        match self {
            CliError::MissingValue(f) => CliErrorView::MissingValue(f@),
            CliError::UnknownShell(s) => CliErrorView::UnknownShell(s@),
            CliError::UnknownArgument(a) => CliErrorView::UnknownArgument(a@),
        }
    }
}

pub open spec fn result_view(r: Result<CliOutcome, CliError>) -> Result<CliOutcomeView, CliErrorView> {
    match r {
        Ok(o) => Ok(o@),
        Err(e) => Err(e@),
    }
}

/// The meaning of the arguments from `raw[i]` on, with `acc` the settings
/// so far: flags are read left to right, `--help`/`-h` and
/// `--version`/`-V` end the reading at once, `--config`, `--shell` and
/// `--shell-config` take the next argument as their value (a later
/// `--config` or `--shell` replaces an earlier one; `--shell-config` adds a
/// file), and anything else is an unknown argument.
pub open spec fn spec_parse_from(raw: Seq<Seq<char>>, i: int, acc: ArgsView) -> Result<
    CliOutcomeView,
    CliErrorView,
>
    decreases raw.len() - i,
{
    if i < 0 || i >= raw.len() {
        Ok(CliOutcomeView::Run(acc))
    } else {
        let a = raw[i];
        if a == "--help"@ || a == "-h"@ {
            Ok(CliOutcomeView::Help)
        } else if a == "--version"@ || a == "-V"@ {
            Ok(CliOutcomeView::Version)
        } else if a == "--config"@ {
            if i + 1 < raw.len() {
                spec_parse_from(raw, i + 2, ArgsView { config: Some(raw[i + 1]), ..acc })
            } else {
                Err(CliErrorView::MissingValue("--config"@))
            }
        } else if a == "--shell"@ {
            if i + 1 < raw.len() {
                let v = raw[i + 1];
                if v == "zsh"@ {
                    spec_parse_from(raw, i + 2, ArgsView { shell: ShellMode::Zsh, ..acc })
                } else if v == "bash"@ {
                    spec_parse_from(raw, i + 2, ArgsView { shell: ShellMode::Bash, ..acc })
                } else if v == "both"@ {
                    spec_parse_from(raw, i + 2, ArgsView { shell: ShellMode::Both, ..acc })
                } else {
                    Err(CliErrorView::UnknownShell(v))
                }
            } else {
                Err(CliErrorView::MissingValue("--shell"@))
            }
        } else if a == "--shell-config"@ {
            if i + 1 < raw.len() {
                spec_parse_from(
                    raw,
                    i + 2,
                    ArgsView { shell_configs: acc.shell_configs.push(raw[i + 1]), ..acc },
                )
            } else {
                Err(CliErrorView::MissingValue("--shell-config"@))
            }
        } else {
            Err(CliErrorView::UnknownArgument(a))
        }
    }
}

/// The meaning of the command line `raw` (without the program name).
pub open spec fn spec_parse_args(raw: Seq<Seq<char>>) -> Result<CliOutcomeView, CliErrorView> {
    spec_parse_from(
        raw,
        0,
        ArgsView { config: None, shell: ShellMode::Auto, shell_configs: Seq::empty() },
    )
}

/// Whether `s` holds exactly the characters of `lit`.
fn is(s: &String, lit: &str) -> (r: bool)
    ensures
        r == (s@ == lit@),
{
    *s == String::from_str(lit)
}

/// The value after a flag: the argument at `i`, or the error that `flag`
/// has none.
pub fn require_value(raw: &Vec<String>, i: usize, flag: &str) -> (r: Result<String, CliError>)
    ensures
        match r {
            Ok(v) => i < raw@.len() && v@ == raw@[i as int]@,
            Err(e) => i >= raw@.len() && e@ == CliErrorView::MissingValue(flag@),
        },
{
    if i < raw.len() {
        Ok(raw[i].clone())
    } else {
        Err(CliError::MissingValue(String::from_str(flag)))
    }
}

} // verus!

verus! {

/// Reads the command line `raw` (without the program name): see
/// `spec_parse_from`.
pub fn parse_args(raw: &Vec<String>) -> (r: Result<CliOutcome, CliError>)
    ensures
        result_view(r) == spec_parse_args(strings_view(raw@)),
{
    let ghost rv = strings_view(raw@);
    let mut args = Args { config: None, shell: ShellMode::Auto, shell_configs: Vec::new() };
    assert(args@.shell_configs =~= Seq::<Seq<char>>::empty());
    let mut i: usize = 0;
    while i < raw.len()
        invariant
            rv == strings_view(raw@),
            i <= raw@.len() + 1,
            spec_parse_args(rv) == spec_parse_from(rv, i as int, args@),
        decreases raw@.len() + 2 - i,
    {
        let a = &raw[i];
        assert(rv[i as int] == a@);
        if is(a, "--help") || is(a, "-h") {
            return Ok(CliOutcome::Help);
        } else if is(a, "--version") || is(a, "-V") {
            return Ok(CliOutcome::Version);
        } else if is(a, "--config") {
            let value = require_value(raw, i + 1, "--config")?;
            assert(rv[i + 1] == value@);
            args.config = Some(value);
        } else if is(a, "--shell") {
            let value = require_value(raw, i + 1, "--shell")?;
            assert(rv[i + 1] == value@);
            if is(&value, "zsh") {
                args.shell = ShellMode::Zsh;
            } else if is(&value, "bash") {
                args.shell = ShellMode::Bash;
            } else if is(&value, "both") {
                args.shell = ShellMode::Both;
            } else {
                return Err(CliError::UnknownShell(value));
            }
        } else if is(a, "--shell-config") {
            let value = require_value(raw, i + 1, "--shell-config")?;
            assert(rv[i + 1] == value@);
            let ghost before = args@.shell_configs;
            args.shell_configs.push(value);
            assert(args@.shell_configs =~= before.push(rv[i + 1]));
        } else {
            return Err(CliError::UnknownArgument(a.clone()));
        }
        i = i + 2;
    }
    Ok(CliOutcome::Run(args))
}

} // verus!

verus! {

/// `s` ends with `suffix`.
pub open spec fn ends_with(s: Seq<char>, suffix: Seq<char>) -> bool {
    suffix.len() <= s.len() && s.skip(s.len() - suffix.len()) == suffix
}

/// The shell configuration files to scan: the explicit ones when there are
/// any; otherwise `~/.zshrc`, `~/.bashrc` or both by the shell mode, and for
/// `Auto` `~/.bashrc` when `$SHELL` ends with `/bash`, else `~/.zshrc`.
pub open spec fn spec_shell_configs(args: ArgsView, home: Seq<char>, shell: Seq<char>) -> Seq<Seq<char>> {
    let zsh = home + "/.zshrc"@;
    let bash = home + "/.bashrc"@;
    if args.shell_configs.len() > 0 {
        args.shell_configs
    } else {
        match args.shell {
            ShellMode::Zsh => seq![zsh],
            ShellMode::Bash => seq![bash],
            ShellMode::Both => seq![zsh, bash],
            ShellMode::Auto => if ends_with(shell, "/bash"@) {
                seq![bash]
            } else {
                seq![zsh]
            },
        }
    }
}

/// `home` followed by `file`.
fn join_home(home: &str, file: &str) -> (r: String)
    ensures
        r@ == home@ + file@,
{
    let mut s = String::from_str(home);
    s.append(file);
    s
}

/// Whether `s` ends with `suffix`.
fn str_ends_with(s: &str, suffix: &str) -> (r: bool)
    ensures
        r == ends_with(s@, suffix@),
{
    let sc = crate::text::chars_of(s);
    let xc = crate::text::chars_of(suffix);
    if xc.len() > sc.len() {
        return false;
    }
    let tail = crate::text::sub_chars(&sc, sc.len() - xc.len(), sc.len());
    crate::text::chars_equal(&tail, &xc)
}

/// The shell configuration files to scan, given `$HOME` and `$SHELL` (empty
/// when unset).
pub fn resolve_shell_configs(args: &Args, home: &str, shell: &str) -> (r: Vec<String>)
    ensures
        strings_view(r@) == spec_shell_configs(args@, home@, shell@),
        args@.shell_configs.len() > 0 ==> strings_view(r@) == args@.shell_configs,
        args@.shell_configs.len() == 0 && args@.shell == ShellMode::Zsh ==> strings_view(r@)
            == seq![home@ + "/.zshrc"@],
        args@.shell_configs.len() == 0 && args@.shell == ShellMode::Bash ==> strings_view(r@)
            == seq![home@ + "/.bashrc"@],
        args@.shell_configs.len() == 0 && args@.shell == ShellMode::Both ==> strings_view(r@)
            == seq![home@ + "/.zshrc"@, home@ + "/.bashrc"@],
{
    proof {
        lemma_shell_configs(args@, home@, shell@);
    }
    if args.shell_configs.len() > 0 {
        let mut out: Vec<String> = Vec::new();
        let mut k: usize = 0;
        while k < args.shell_configs.len()
            invariant
                k <= args.shell_configs@.len(),
                out@.len() == k,
                strings_view(out@) == strings_view(args.shell_configs@).take(k as int),
            decreases args.shell_configs@.len() - k,
        {
            let ghost before = out@;
            out.push(args.shell_configs[k].clone());
            assert forall|j: int| 0 <= j <= k implies strings_view(out@)[j] == strings_view(
                args.shell_configs@,
            )[j] by {
                if j < k {
                    assert(strings_view(before)[j] == strings_view(args.shell_configs@).take(
                        k as int,
                    )[j]);
                }
            }
            assert(strings_view(out@) =~= strings_view(args.shell_configs@).take(k + 1));
            k = k + 1;
        }
        assert(strings_view(args.shell_configs@).take(k as int) =~= strings_view(
            args.shell_configs@,
        ));
        return out;
    }
    let r = match args.shell {
        ShellMode::Zsh => vec![join_home(home, "/.zshrc")],
        ShellMode::Bash => vec![join_home(home, "/.bashrc")],
        ShellMode::Both => vec![join_home(home, "/.zshrc"), join_home(home, "/.bashrc")],
        ShellMode::Auto => {
            if str_ends_with(shell, "/bash") {
                vec![join_home(home, "/.bashrc")]
            } else {
                vec![join_home(home, "/.zshrc")]
            }
        },
    };
    assert(strings_view(r@) =~= spec_shell_configs(args@, home@, shell@));
    r
}

} // verus!

verus! {

/// Which files are scanned: explicit files win; otherwise `--shell zsh`
/// scans `~/.zshrc`, `--shell bash` scans `~/.bashrc`, `--shell both` scans
/// both in that order, and only the automatic mode looks at `$SHELL`
/// (`~/.bashrc` when it names bash, else `~/.zshrc`).
pub proof fn lemma_shell_configs(args: ArgsView, home: Seq<char>, shell: Seq<char>)
    ensures
        ({
            let r = spec_shell_configs(args, home, shell);
            let zsh = home + "/.zshrc"@;
            let bash = home + "/.bashrc"@;
            &&& args.shell_configs.len() > 0 ==> r == args.shell_configs
            &&& args.shell_configs.len() == 0 ==> match args.shell {
                ShellMode::Zsh => r == seq![zsh],
                ShellMode::Bash => r == seq![bash],
                ShellMode::Both => r == seq![zsh, bash],
                ShellMode::Auto => r == seq![if ends_with(shell, "/bash"@) {
                    bash
                } else {
                    zsh
                }],
            }
        }),
{
}

/// `$SHELL` matters only in the automatic mode: with an explicit shell mode
/// (or explicit files) any two values of `$SHELL` give the same files.
pub proof fn lemma_shell_ignored_unless_auto(
    args: ArgsView,
    home: Seq<char>,
    shell1: Seq<char>,
    shell2: Seq<char>,
)
    requires
        args.shell != ShellMode::Auto || args.shell_configs.len() > 0,
    ensures
        spec_shell_configs(args, home, shell1) == spec_shell_configs(args, home, shell2),
{
    lemma_shell_configs(args, home, shell1);
    lemma_shell_configs(args, home, shell2);
}

} // verus!

verus! {

/// The default settings: no configuration file, the automatic shell mode,
/// no explicit shell configuration files.
pub open spec fn default_args() -> ArgsView {
    ArgsView { config: None, shell: ShellMode::Auto, shell_configs: Seq::empty() }
}

/// What each flag means, said directly, for every value. No arguments run
/// with the defaults; `--help`/`-h` and `--version`/`-V` first ask for the
/// help and the version whatever follows; `--config P` sets the
/// configuration file to `P`; `--shell V` sets the shell mode for `zsh`,
/// `bash` and `both` and rejects any other `V` as an unknown shell;
/// `--shell-config` given twice keeps both files in order; a flag that takes
/// a value but has none is rejected naming the flag; any other first
/// argument is rejected as unknown.
pub proof fn lemma_flags(raw: Seq<Seq<char>>, v: Seq<char>, p: Seq<char>, q: Seq<char>)
    ensures
        spec_parse_args(Seq::empty()) == Ok::<CliOutcomeView, CliErrorView>(
            CliOutcomeView::Run(default_args()),
        ),
        raw.len() > 0 && (raw[0] == "--help"@ || raw[0] == "-h"@) ==> spec_parse_args(raw) == Ok::<
            CliOutcomeView,
            CliErrorView,
        >(CliOutcomeView::Help),
        raw.len() > 0 && (raw[0] == "--version"@ || raw[0] == "-V"@) ==> spec_parse_args(raw)
            == Ok::<CliOutcomeView, CliErrorView>(CliOutcomeView::Version),
        spec_parse_args(seq!["--config"@, p]) == Ok::<CliOutcomeView, CliErrorView>(
            CliOutcomeView::Run(ArgsView { config: Some(p), ..default_args() }),
        ),
        spec_parse_args(seq!["--shell"@, v]) == if v == "zsh"@ {
            Ok::<CliOutcomeView, CliErrorView>(
                CliOutcomeView::Run(ArgsView { shell: ShellMode::Zsh, ..default_args() }),
            )
        } else if v == "bash"@ {
            Ok(CliOutcomeView::Run(ArgsView { shell: ShellMode::Bash, ..default_args() }))
        } else if v == "both"@ {
            Ok(CliOutcomeView::Run(ArgsView { shell: ShellMode::Both, ..default_args() }))
        } else {
            Err(CliErrorView::UnknownShell(v))
        },
        spec_parse_args(seq!["--shell-config"@, p, "--shell-config"@, q]) == Ok::<
            CliOutcomeView,
            CliErrorView,
        >(CliOutcomeView::Run(ArgsView { shell_configs: seq![p, q], ..default_args() })),
        spec_parse_args(seq!["--config"@]) == Err::<CliOutcomeView, CliErrorView>(
            CliErrorView::MissingValue("--config"@),
        ),
        spec_parse_args(seq!["--shell"@]) == Err::<CliOutcomeView, CliErrorView>(
            CliErrorView::MissingValue("--shell"@),
        ),
        spec_parse_args(seq!["--shell-config"@]) == Err::<CliOutcomeView, CliErrorView>(
            CliErrorView::MissingValue("--shell-config"@),
        ),
        raw.len() > 0 && raw[0] != "--help"@ && raw[0] != "-h"@ && raw[0] != "--version"@
            && raw[0] != "-V"@ && raw[0] != "--config"@ && raw[0] != "--shell"@ && raw[0]
            != "--shell-config"@ ==> spec_parse_args(raw) == Err::<CliOutcomeView, CliErrorView>(
            CliErrorView::UnknownArgument(raw[0]),
        ),
{
    reveal_strlit("--help");
    reveal_strlit("-h");
    reveal_strlit("--version");
    reveal_strlit("-V");
    reveal_strlit("--config");
    reveal_strlit("--shell");
    reveal_strlit("--shell-config");
    reveal_strlit("zsh");
    reveal_strlit("bash");
    reveal_strlit("both");
    assert("-h"@[1] != "-V"@[1]);
    assert("bash"@[1] != "both"@[1]);
    assert("--help"@.len() == 6 && "--version"@.len() == 9 && "--config"@.len() == 8);
    assert("--shell"@.len() == 7 && "--shell-config"@.len() == 14 && "-h"@.len() == 2);
    let two = seq!["--shell-config"@, p, "--shell-config"@, q];
    let d = default_args();
    let c1 = seq!["--config"@, p];
    assert(spec_parse_from(c1, 2, ArgsView { config: Some(p), ..d }) == Ok::<
        CliOutcomeView,
        CliErrorView,
    >(CliOutcomeView::Run(ArgsView { config: Some(p), ..d })));
    let s1 = seq!["--shell"@, v];
    assert(spec_parse_from(s1, 2, ArgsView { shell: ShellMode::Zsh, ..d }) == Ok::<
        CliOutcomeView,
        CliErrorView,
    >(CliOutcomeView::Run(ArgsView { shell: ShellMode::Zsh, ..d })));
    assert(spec_parse_from(s1, 2, ArgsView { shell: ShellMode::Bash, ..d }) == Ok::<
        CliOutcomeView,
        CliErrorView,
    >(CliOutcomeView::Run(ArgsView { shell: ShellMode::Bash, ..d })));
    assert(spec_parse_from(s1, 2, ArgsView { shell: ShellMode::Both, ..d }) == Ok::<
        CliOutcomeView,
        CliErrorView,
    >(CliOutcomeView::Run(ArgsView { shell: ShellMode::Both, ..d })));
    assert(spec_parse_from(two, 4, ArgsView { shell_configs: d.shell_configs.push(p).push(q), ..d })
        == Ok::<CliOutcomeView, CliErrorView>(
        CliOutcomeView::Run(ArgsView { shell_configs: d.shell_configs.push(p).push(q), ..d }),
    ));
    assert(d.shell_configs.push(p).push(q) =~= seq![p, q]);
    assert(spec_parse_from(two, 2, ArgsView { shell_configs: d.shell_configs.push(p), ..d })
        == spec_parse_from(two, 4, ArgsView { shell_configs: d.shell_configs.push(p).push(q), ..d }));
}

/// A later `--config` or `--shell` replaces an earlier one: the command
/// line reads as if only the last had been given.
pub proof fn lemma_later_flag_wins(v: Seq<char>, p: Seq<char>, q: Seq<char>)
    ensures
        spec_parse_args(seq!["--config"@, p, "--config"@, q]) == spec_parse_args(
            seq!["--config"@, q],
        ),
        spec_parse_args(seq!["--shell"@, "zsh"@, "--shell"@, v]) == spec_parse_args(
            seq!["--shell"@, v],
        ),
{
    reveal_strlit("--help");
    reveal_strlit("-h");
    reveal_strlit("--version");
    reveal_strlit("-V");
    reveal_strlit("--config");
    reveal_strlit("--shell");
    reveal_strlit("zsh");
    reveal_strlit("bash");
    reveal_strlit("both");
    assert("bash"@[1] != "both"@[1]);
    assert("--help"@.len() == 6 && "--version"@.len() == 9 && "--config"@.len() == 8);
    assert("--shell"@.len() == 7 && "-h"@.len() == 2 && "-V"@.len() == 2);
    let d = default_args();
    assert(ArgsView { config: Some(q), ..ArgsView { config: Some(p), ..d } } == ArgsView {
        config: Some(q),
        ..d
    });
    let c2 = seq!["--config"@, p, "--config"@, q];
    let c1 = seq!["--config"@, q];
    assert(spec_parse_from(c2, 4, ArgsView { config: Some(q), ..d }) == spec_parse_from(
        c1,
        2,
        ArgsView { config: Some(q), ..d },
    ));
    assert(spec_parse_from(c2, 2, ArgsView { config: Some(p), ..d }) == spec_parse_from(
        c2,
        4,
        ArgsView { config: Some(q), ..d },
    ));
    let s2 = seq!["--shell"@, "zsh"@, "--shell"@, v];
    let s1 = seq!["--shell"@, v];
    let z = ArgsView { shell: ShellMode::Zsh, ..d };
    assert(ArgsView { shell: ShellMode::Bash, ..z } == ArgsView { shell: ShellMode::Bash, ..d });
    assert(ArgsView { shell: ShellMode::Both, ..z } == ArgsView { shell: ShellMode::Both, ..d });
    assert(ArgsView { shell: ShellMode::Zsh, ..z } == z);
    assert(spec_parse_from(s2, 4, ArgsView { shell: ShellMode::Zsh, ..z }) == spec_parse_from(
        s1,
        2,
        ArgsView { shell: ShellMode::Zsh, ..d },
    ));
    assert(spec_parse_from(s2, 4, ArgsView { shell: ShellMode::Bash, ..z }) == spec_parse_from(
        s1,
        2,
        ArgsView { shell: ShellMode::Bash, ..d },
    ));
    assert(spec_parse_from(s2, 4, ArgsView { shell: ShellMode::Both, ..z }) == spec_parse_from(
        s1,
        2,
        ArgsView { shell: ShellMode::Both, ..d },
    ));
    assert(spec_parse_from(s2, 2, z) == spec_parse_from(s1, 0, d));
}

/// `ends_with` is the suffix relation: `s` ends with `x` exactly when `s` is
/// some text followed by `x`.
pub proof fn lemma_ends_with(s: Seq<char>, x: Seq<char>, pre: Seq<char>)
    ensures
        ends_with(pre + x, x),
        ends_with(s, x) ==> s == s.take(s.len() - x.len()) + x,
{
    assert((pre + x).skip(pre.len() as int) =~= x);
    if ends_with(s, x) {
        assert(s =~= s.take(s.len() - x.len()) + s.skip(s.len() - x.len()));
    }
}

} // verus!
