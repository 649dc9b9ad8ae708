//! Where a shell completion script is installed. Which directories to look
//! for, in which order, and which to create is decided here; looking and
//! creating is the caller's part.

use vstd::prelude::*;

verus! {

/// A shell that a completion script can be generated for.
#[derive(Clone, Copy, Debug, PartialEq, Eq, Structural)]
pub enum Shell {
    Bash,
    Elvish,
    Fish,
    PowerShell,
    Zsh,
    /// Any other shell: none has a place for its completions.
    Other,
}

/// A directory that completions may be installed in.
#[derive(Clone, Copy, Debug, PartialEq, Eq, Structural)]
pub enum Place {
    /// The directory of oh-my-zsh's custom plugins.
    Plugins,
    /// The directory of the command's own plugin below `Plugins`.
    Plugin,
    /// The user's own completion directory for a shell.
    User(Shell),
    /// The system's completion directory for a shell.
    Global(Shell),
}

/// What to do next.
#[derive(Clone, Copy, Debug, PartialEq, Eq, Structural)]
pub enum Step {
    /// Find out whether the directory exists, and ask again with the answer
    /// added.
    Probe(Place),
    /// Create the directory and install there.
    Create(Place),
    /// Install in the directory, which exists.
    Use(Place),
    /// The shell has no place that could be used.
    Unsupported,
}

impl Shell {
    /// The shell has a completion directory of the user's own.
    pub open spec fn has_user_place(self) -> bool {
        self != Shell::Other
    }

    /// The shell has a completion directory of the system.
    pub open spec fn has_global_place(self) -> bool {
        self != Shell::Other && self != Shell::Elvish
    }
}

impl Place {
    /// The directory as a path, below the home directory where `in_home`
    /// says so; on Windows PowerShell keeps its completions elsewhere.
    pub open spec fn path_spec(self, windows: bool) -> Seq<char> {
        match self {
            Place::Plugins => ".oh-my-zsh/custom/plugins"@,
            Place::Plugin => ".oh-my-zsh/custom/plugins"@,
            Place::User(Shell::PowerShell) | Place::Global(Shell::PowerShell) => if windows {
                "Documents\\PowerShell\\completions"@
            } else {
                ".config/powershell/completions"@
            },
            Place::User(Shell::Bash) => ".bash_completion.d"@,
            Place::User(Shell::Elvish) => ".elvish"@,
            Place::User(Shell::Fish) => ".config/fish/completions"@,
            Place::User(Shell::Zsh) => ".zsh/completions"@,
            Place::Global(Shell::Bash) => "/etc/bash_completion.d"@,
            Place::Global(Shell::Fish) => "/usr/share/fish/completions"@,
            Place::Global(Shell::Zsh) => "/usr/share/zsh/site-functions"@,
            Place::User(Shell::Other) | Place::Global(Shell::Other) | Place::Global(Shell::Elvish) => ""@,
        }
    }

    /// The path is to be taken below the user's home directory.
    pub open spec fn in_home_spec(self) -> bool {
        match self {
            Place::Plugins | Place::Plugin | Place::User(_) => true,
            Place::Global(shell) => shell == Shell::PowerShell,
        }
    }

    /// The directory as a path.
    pub fn path(self, windows: bool) -> (path: &'static str)
        ensures
            path@ == self.path_spec(windows),
    {
        match self {
            Place::Plugins => ".oh-my-zsh/custom/plugins",
            Place::Plugin => ".oh-my-zsh/custom/plugins",
            Place::User(Shell::PowerShell) | Place::Global(Shell::PowerShell) => if windows {
                "Documents\\PowerShell\\completions"
            } else {
                ".config/powershell/completions"
            },
            Place::User(Shell::Bash) => ".bash_completion.d",
            Place::User(Shell::Elvish) => ".elvish",
            Place::User(Shell::Fish) => ".config/fish/completions",
            Place::User(Shell::Zsh) => ".zsh/completions",
            Place::Global(Shell::Bash) => "/etc/bash_completion.d",
            Place::Global(Shell::Fish) => "/usr/share/fish/completions",
            Place::Global(Shell::Zsh) => "/usr/share/zsh/site-functions",
            Place::User(Shell::Other) | Place::Global(Shell::Other) | Place::Global(Shell::Elvish) => "",
        }
    }

    /// Whether the path is to be taken below the user's home directory.
    pub fn in_home(self) -> (in_home: bool)
        ensures
            in_home == self.in_home_spec(),
    {
        match self {
            Place::Plugins | Place::Plugin | Place::User(_) => true,
            Place::Global(shell) => match shell {
                Shell::PowerShell => true,
                _ => false,
            },
        }
    }

    /// Whether the directory is named after the command: its name is to be
    /// added to the path.
    pub fn takes_command_name(self) -> (named: bool)
        ensures
            named == (self == Place::Plugin),
    {
        match self {
            Place::Plugin => true,
            _ => false,
        }
    }
}

/// The step after the answers to the probes so far, for a shell without a
/// plugin directory to look for first: the user's directory if it exists,
/// else the system's if it exists, else the user's, created.
pub open spec fn plain_step(shell: Shell, answers: Seq<bool>) -> Step {
    if !shell.has_user_place() {
        Step::Unsupported
    } else if answers.len() == 0 {
        Step::Probe(Place::User(shell))
    } else if answers[0] {
        Step::Use(Place::User(shell))
    } else if !shell.has_global_place() {
        Step::Unsupported
    } else if answers.len() == 1 {
        Step::Probe(Place::Global(shell))
    } else if answers[1] {
        Step::Use(Place::Global(shell))
    } else {
        Step::Create(Place::User(shell))
    }
}

/// The step after the answers to the probes so far. For zsh the directory
/// of oh-my-zsh's plugins is looked for first, and where it exists the
/// command gets a plugin of its own there.
pub open spec fn step_spec(shell: Shell, answers: Seq<bool>) -> Step {
    if shell == Shell::Zsh {
        if answers.len() == 0 {
            Step::Probe(Place::Plugins)
        } else if answers[0] {
            Step::Create(Place::Plugin)
        } else {
            plain_step(shell, answers.skip(1))
        }
    } else {
        plain_step(shell, answers)
    }
}

fn plain_completion_step(shell: Shell, answers: &[bool], from: usize) -> (step: Step)
    requires
        from <= answers.len(),
    ensures
        step == plain_step(shell, answers@.skip(from as int)),
{
    let asked = answers.len() - from;
    let has_global = match shell {
        Shell::Other | Shell::Elvish => false,
        _ => true,
    };
    match shell {
        Shell::Other => {
            return Step::Unsupported;
        },
        _ => {},
    }
    if asked == 0 {
        Step::Probe(Place::User(shell))
    } else if answers[from] {
        Step::Use(Place::User(shell))
    } else if !has_global {
        Step::Unsupported
    } else if asked == 1 {
        Step::Probe(Place::Global(shell))
    } else if answers[from + 1] {
        Step::Use(Place::Global(shell))
    } else {
        Step::Create(Place::User(shell))
    }
}

/// Determine the appropriate directory for storing shell completions, one
/// step at a time: says what to do after the probes so far were answered
/// by `answers`.
pub fn get_shell_completion_dir(shell: Shell, answers: &[bool]) -> (step: Step)
    ensures
        step == step_spec(shell, answers@),
{
    match shell {
        Shell::Zsh => {
            if answers.len() == 0 {
                Step::Probe(Place::Plugins)
            } else if answers[0] {
                Step::Create(Place::Plugin)
            } else {
                plain_completion_step(shell, answers, 1)
            }
        },
        _ => {
            assert(answers@.skip(0) =~= answers@);
            plain_completion_step(shell, answers, 0)
        },
    }
}

/// However the probes are answered, three answers settle the directory.
pub proof fn theorem_completion_settles(shell: Shell, answers: Seq<bool>)
    requires
        answers.len() >= 3,
    ensures
        !(step_spec(shell, answers) is Probe),
{
}

} // verus!
