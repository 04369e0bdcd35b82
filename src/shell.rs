use vstd::prelude::*;
use crate::text::{chars_eq_str, chars_of, push_str_chars};

verus! {

/// The shells for which a hook script is available.
#[derive(PartialEq, Eq, Structural, Clone, Copy, Debug)]
pub enum Shell {
    Bash,
    Zsh,
    Fish,
    Nu,
}

pub const BASH_HEAD: &'static str = r###"
emplace_postexec_invoke_exec () {
    # quit when the previous command failed
    [ -z "$?" ] && exit $?

    local hist=`history 1`

    local this_command=`HISTTIMEFORMAT= echo $hist | sed -e "s/^[ ]*[0-9]*[ ]*//"`;
    "###;

pub const BASH_MID: &'static str = r###" catch "$this_command"
}
PROMPT_COMMAND="emplace_postexec_invoke_exec;$PROMPT_COMMAND"

export EMPLACE_CONFIG=""###;

pub const BASH_TAIL: &'static str = r###""

# Add an empty line so new shells won't display the last installable command
echo "# emplace" >> $HISTFILE
"###;

pub const ZSH_HEAD: &'static str = r###"
emplace_precmd() {
    # quit when the previous command failed
    [ -z "$?" ] && exit

    local hist=`history -1`

    local this_command=`HISTTIMEFORMAT= echo $hist | sed -e "s/^[ ]*[0-9]*[ ]*//"`;
    "###;

pub const ZSH_MID: &'static str = r###" catch "$this_command"
}
# Don't hook them double in nested shells
if [[ ${precmd_functions[(ie)emplace_precmd]} -gt ${#precmd_functions} ]]; then
    precmd_functions+=(emplace_precmd)
fi

export EMPLACE_CONFIG=""###;

pub const ZSH_TAIL: &'static str = BASH_TAIL;

pub const FISH_HEAD: &'static str = r###"
function emplace_postcmd --on-event fish_postexec
    # quit when the previous command failed
    if test $status -gt 0
        return
    end

    "###;

pub const FISH_MID: &'static str = r###" catch "$argv"
end

set -x EMPLACE_CONFIG ""###;

pub const FISH_TAIL: &'static str = r###""
"###;

pub const NU_HEAD: &'static str = r###"
EMPLACE_CONFIG=""###;

pub const NU_MID: &'static str = r###"" "###;

pub const NU_TAIL: &'static str = r###" catch $(history | last); echo >
"###;

/// The hook script that makes `shell` hand each finished command line to
/// the executable `exe`, with the configuration at `config`.
pub open spec fn hook_script(shell: Shell, exe: Seq<char>, config: Seq<char>) -> Seq<char> {
    match shell {
        Shell::Bash => BASH_HEAD@ + exe + BASH_MID@ + config + BASH_TAIL@,
        Shell::Zsh => ZSH_HEAD@ + exe + ZSH_MID@ + config + ZSH_TAIL@,
        Shell::Fish => FISH_HEAD@ + exe + FISH_MID@ + config + FISH_TAIL@,
        Shell::Nu => NU_HEAD@ + config + NU_MID@ + exe + NU_TAIL@,
    }
}

impl Shell {
    /// The shell with the name `name`: `bash`, `zsh`, `fish` or `nu`.
    pub fn from_name(name: &str) -> (r: Option<Shell>)
        ensures
            r == (if name@ == "bash"@ {
                Some(Shell::Bash)
            } else if name@ == "zsh"@ {
                Some(Shell::Zsh)
            } else if name@ == "fish"@ {
                Some(Shell::Fish)
            } else if name@ == "nu"@ {
                Some(Shell::Nu)
            } else {
                None
            }),
    {
        let cs = chars_of(name);
        if chars_eq_str(&cs, "bash") {
            Some(Shell::Bash)
        } else if chars_eq_str(&cs, "zsh") {
            Some(Shell::Zsh)
        } else if chars_eq_str(&cs, "fish") {
            Some(Shell::Fish)
        } else if chars_eq_str(&cs, "nu") {
            Some(Shell::Nu)
        } else {
            None
        }
    }

    /// The hook script for this shell.
    pub fn script(self, exe: &str, config: &str) -> (r: String)
        ensures
            r@ == hook_script(self, exe@, config@),
    {
        let mut s = String::new();
        match self {
            Shell::Bash => {
                push_str_chars(&mut s, BASH_HEAD);
                push_str_chars(&mut s, exe);
                push_str_chars(&mut s, BASH_MID);
                push_str_chars(&mut s, config);
                push_str_chars(&mut s, BASH_TAIL);
            },
            Shell::Zsh => {
                push_str_chars(&mut s, ZSH_HEAD);
                push_str_chars(&mut s, exe);
                push_str_chars(&mut s, ZSH_MID);
                push_str_chars(&mut s, config);
                push_str_chars(&mut s, ZSH_TAIL);
            },
            Shell::Fish => {
                push_str_chars(&mut s, FISH_HEAD);
                push_str_chars(&mut s, exe);
                push_str_chars(&mut s, FISH_MID);
                push_str_chars(&mut s, config);
                push_str_chars(&mut s, FISH_TAIL);
            },
            Shell::Nu => {
                push_str_chars(&mut s, NU_HEAD);
                push_str_chars(&mut s, config);
                push_str_chars(&mut s, NU_MID);
                push_str_chars(&mut s, exe);
                push_str_chars(&mut s, NU_TAIL);
            },
        }
        assert(s@ =~= hook_script(self, exe@, config@));
        s
    }
}

} // verus!
