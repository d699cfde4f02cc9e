//! Command-line mode: the commands that follow a colon.
//!
//! Writing a file is left to the caller: `:w` and `:wq` ask for it, and
//! [`save_report`] says what the outcome means.
use vstd::prelude::*;
use crate::action::{opt_request, ExAction, ExRequest};
use crate::input::{Key, KeyEvent, Mods, ALT_BIT, CTRL_BIT};
use crate::selection::Mode;
use crate::strings::{glue, has_prefix, str_eq, strip_prefix, trim, trimmed};

verus! {

/// What a command can change.
#[verifier::ext_equal]
pub struct ExOutcome {
    pub message: Seq<char>,
    pub action: Option<ExRequest>,
    pub quit: bool,
}

/// What a command does; `named` says whether the buffer has a file.
pub open spec fn ex_outcome(v: ExOutcome, named: bool, cmd: Seq<char>) -> ExOutcome {
    let nameless = ExOutcome { message: "no file name (use :w <path>)"@, ..v };
    if has_prefix(cmd, "e "@) {
        let path = trimmed(cmd.skip(2));
        if path.len() == 0 {
            ExOutcome { message: "usage: :e <path>"@, ..v }
        } else {
            ExOutcome { action: Some(ExRequest::OpenFile(path)), ..v }
        }
    } else if cmd == ""@ {
        v
    } else if cmd == "w"@ {
        if named { ExOutcome { action: Some(ExRequest::Save), ..v } } else { nameless }
    } else if cmd == "q"@ {
        ExOutcome { quit: true, ..v }
    } else if cmd == "wq"@ {
        if named { ExOutcome { action: Some(ExRequest::SaveAndQuit), ..v } } else { nameless }
    } else if cmd == "bn"@ || cmd == "bnext"@ {
        ExOutcome { action: Some(ExRequest::NextBuffer), ..v }
    } else if cmd == "bp"@ || cmd == "bprev"@ || cmd == "bprevious"@ {
        ExOutcome { action: Some(ExRequest::PrevBuffer), ..v }
    } else if cmd == "ls"@ || cmd == "buffers"@ {
        ExOutcome { action: Some(ExRequest::ListBuffers), ..v }
    } else {
        ExOutcome { message: "unknown command: :"@ + cmd, ..v }
    }
}

/// Run a command. `named` says whether the buffer has a file. Says whether
/// the command asks to quit at once.
pub fn execute_ex(named: bool, cmd: &str, message: &mut String, action: &mut Option<ExAction>) -> (quit:
    bool)
    ensures
        (ExOutcome {
            message: final(message)@,
            action: opt_request(*final(action)),
            quit,
        }) == ex_outcome(
            ExOutcome {
                message: old(message)@,
                action: opt_request(*old(action)),
                quit: false,
            },
            named,
            cmd@,
        ),
{
    proof {
        reveal_strlit("e ");
    }
    match strip_prefix(cmd, "e ") {
        Some(rest) => {
            let path = trim(rest.as_str());
            if path.as_str().unicode_len() == 0 {
                *message = "usage: :e <path>".to_owned();
            } else {
                *action = Some(ExAction::OpenFile(path));
            }
            return false;
        },
        None => {},
    }
    if str_eq(cmd, "") {
        return false;
    }
    if str_eq(cmd, "w") {
        if named {
            *action = Some(ExAction::Save);
        } else {
            *message = "no file name (use :w <path>)".to_owned();
        }
        return false;
    }
    if str_eq(cmd, "q") {
        return true;
    }
    if str_eq(cmd, "wq") {
        if named {
            *action = Some(ExAction::SaveAndQuit);
        } else {
            *message = "no file name (use :w <path>)".to_owned();
        }
        return false;
    }
    if str_eq(cmd, "bn") || str_eq(cmd, "bnext") {
        *action = Some(ExAction::NextBuffer);
        return false;
    }
    if str_eq(cmd, "bp") || str_eq(cmd, "bprev") || str_eq(cmd, "bprevious") {
        *action = Some(ExAction::PrevBuffer);
        return false;
    }
    if str_eq(cmd, "ls") || str_eq(cmd, "buffers") {
        *action = Some(ExAction::ListBuffers);
        return false;
    }
    *message = glue("unknown command: :", cmd);
    false
}

/// What a finished write means: the message to show, if any, and whether to
/// quit. Quitting follows a write only if it was asked for and succeeded.
pub fn save_report(path: &str, and_quit: bool, outcome: Result<(), String>) -> (r: (
    Option<String>,
    bool,
))
    ensures
        match outcome {
            Ok(_) => if and_quit {
                r.0 is None && r.1
            } else {
                r.0 is Some && r.0.unwrap()@ == "\""@ + path@ + "\" written"@ && !r.1
            },
            Err(e) => r.0 is Some && r.0.unwrap()@ == "write failed: "@ + e@ && !r.1,
        },
{
    match outcome {
        Ok(_) => {
            if and_quit {
                (None, true)
            } else {
                (Some(glue(glue("\"", path).as_str(), "\" written")), false)
            }
        },
        Err(e) => (Some(glue("write failed: ", e.as_str())), false),
    }
}

/// What a key in command-line mode can change.
#[verifier::ext_equal]
pub struct ExPane {
    pub mode: Mode,
    pub input: Seq<char>,
    pub outcome: ExOutcome,
}

/// What a key does in command-line mode.
pub open spec fn ex_step(v: ExPane, named: bool, k: KeyEvent) -> ExPane {
    match k.key {
        Key::Esc => ExPane { mode: Mode::Normal, input: Seq::empty(), ..v },
        Key::Enter => ExPane {
            mode: Mode::Normal,
            input: Seq::empty(),
            outcome: ex_outcome(v.outcome, named, trimmed(v.input)),
        },
        Key::Backspace => if v.input.len() == 0 {
            ExPane { mode: Mode::Normal, ..v }
        } else {
            ExPane { input: v.input.drop_last(), ..v }
        },
        Key::Char(c) => if k.mods.has(Mods(CTRL_BIT)) || k.mods.has(Mods(ALT_BIT)) {
            v
        } else {
            ExPane { input: v.input.push(c), ..v }
        },
        _ => v,
    }
}

/// Handle a key in command-line mode. Says whether the key asks to quit.
pub fn handle_ex(
    mode: &mut Mode,
    ex_input: &mut String,
    ex_message: &mut String,
    ex_action: &mut Option<ExAction>,
    named: bool,
    k: KeyEvent,
) -> (quit: bool)
    ensures
        (ExPane {
            mode: *final(mode),
            input: final(ex_input)@,
            outcome: ExOutcome {
                message: final(ex_message)@,
                action: opt_request(*final(ex_action)),
                quit,
            },
        }) == ex_step(
            ExPane {
                mode: *old(mode),
                input: old(ex_input)@,
                outcome: ExOutcome {
                    message: old(ex_message)@,
                    action: opt_request(*old(ex_action)),
                    quit: false,
                },
            },
            named,
            k,
        ),
{
    match k.key {
        Key::Esc => {
            *mode = Mode::Normal;
            *ex_input = String::new();
            false
        },
        Key::Enter => {
            let cmd = trim(ex_input.as_str());
            *mode = Mode::Normal;
            *ex_input = String::new();
            execute_ex(named, cmd.as_str(), ex_message, ex_action)
        },
        Key::Backspace => {
            if ex_input.pop().is_none() {
                *mode = Mode::Normal;
            }
            false
        },
        Key::Char(c) => {
            if k.mods.contains(Mods(CTRL_BIT)) || k.mods.contains(Mods(ALT_BIT)) {
                return false;
            }
            ex_input.push(c);
            false
        },
        _ => false,
    }
}

// ---------------------------------------------------------------------------
// Laws
// ---------------------------------------------------------------------------

/// The short form of the command that asks for something.
pub open spec fn command_for(request: ExRequest) -> Seq<char> {
    match request {
        ExRequest::Save => seq!['w'],
        ExRequest::SaveAndQuit => seq!['w', 'q'],
        ExRequest::NextBuffer => seq!['b', 'n'],
        ExRequest::PrevBuffer => seq!['b', 'p'],
        ExRequest::ListBuffers => seq!['l', 's'],
        ExRequest::OpenFile(path) => seq!['e', ' '] + path,
        _ => seq!['q'],
    }
}

proof fn lemma_words()
    ensures
        "e "@ == seq!['e', ' '],
        ""@ == Seq::<char>::empty(),
        "w"@ == seq!['w'],
        "q"@ == seq!['q'],
        "wq"@ == seq!['w', 'q'],
        "bn"@ == seq!['b', 'n'],
        "bnext"@ == seq!['b', 'n', 'e', 'x', 't'],
        "bp"@ == seq!['b', 'p'],
        "bprev"@ == seq!['b', 'p', 'r', 'e', 'v'],
        "bprevious"@ == seq!['b', 'p', 'r', 'e', 'v', 'i', 'o', 'u', 's'],
        "ls"@ == seq!['l', 's'],
        "buffers"@ == seq!['b', 'u', 'f', 'f', 'e', 'r', 's'],
{
    reveal_strlit("e ");
    reveal_strlit("");
    reveal_strlit("w");
    reveal_strlit("q");
    reveal_strlit("wq");
    reveal_strlit("bn");
    reveal_strlit("bnext");
    reveal_strlit("bp");
    reveal_strlit("bprev");
    reveal_strlit("bprevious");
    reveal_strlit("ls");
    reveal_strlit("buffers");
    assert("e "@ =~= seq!['e', ' ']);
    assert(""@ =~= Seq::<char>::empty());
    assert("w"@ =~= seq!['w']);
    assert("q"@ =~= seq!['q']);
    assert("wq"@ =~= seq!['w', 'q']);
    assert("bn"@ =~= seq!['b', 'n']);
    assert("bnext"@ =~= seq!['b', 'n', 'e', 'x', 't']);
    assert("bp"@ =~= seq!['b', 'p']);
    assert("bprev"@ =~= seq!['b', 'p', 'r', 'e', 'v']);
    assert("bprevious"@ =~= seq!['b', 'p', 'r', 'e', 'v', 'i', 'o', 'u', 's']);
    assert("ls"@ =~= seq!['l', 's']);
    assert("buffers"@ =~= seq!['b', 'u', 'f', 'f', 'e', 'r', 's']);
}

/// A command asks for what it stands for, without a message and without quitting
/// at once. The commands that write need a file.
pub proof fn commands_ask_for_what_they_say(v: ExOutcome, request: ExRequest, named: bool)
    requires
        request is Save || request is SaveAndQuit || request is NextBuffer || request is PrevBuffer
            || request is ListBuffers,
    ensures
        ({
            let w = ex_outcome(v, named, command_for(request));
            if named || !(request is Save) && !(request is SaveAndQuit) {
                w == ExOutcome { action: Some(request), ..v }
            } else {
                w.action == v.action && w.quit == v.quit && w.message.len() > 0
            }
        }),
{
    lemma_words();
    let cmd = command_for(request);
    assert(cmd[0] != 'e');
    assert(cmd.len() > 1 ==> cmd[1] == command_for(request)[1]);
    reveal_strlit("no file name (use :w <path>)");
    let words = seq![
        "w"@,
        "q"@,
        "wq"@,
        "bn"@,
        "bnext"@,
        "bp"@,
        "bprev"@,
        "bprevious"@,
        "ls"@,
        "buffers"@,
    ];
    assert(forall|i: int| 0 <= i < words.len() ==> (#[trigger] words[i]).len() > 0);
    if request is Save {
        assert(cmd =~= "w"@);
    } else {
        assert(cmd.len() == 2);
        assert("w"@.len() == 1 && "q"@.len() == 1);
        assert("wq"@[0] == 'w' && "bn"@[0] == 'b' && "bn"@[1] == 'n' && "bp"@[0] == 'b' && "bp"@[1]
            == 'p' && "ls"@[0] == 'l');
        assert("bnext"@.len() == 5 && "bprev"@.len() == 5 && "bprevious"@.len() == 9
            && "buffers"@.len() == 7);
    }
}

/// `e` and a file name, with any white space around it, ask to open that file; an
/// empty name is refused.
pub proof fn files_are_opened_by_name(v: ExOutcome, path: Seq<char>, named: bool)
    ensures
        ({
            let w = ex_outcome(v, named, seq!['e', ' '] + path);
            let name = trimmed(path);
            &&& w.quit == v.quit
            &&& name.len() > 0 ==> w.message == v.message && w.action == Some(
                ExRequest::OpenFile(name),
            )
            &&& name.len() == 0 ==> w.action == v.action
        }),
{
    lemma_words();
    let cmd = seq!['e', ' '] + path;
    assert(cmd.take(2) =~= "e "@);
    assert(cmd.skip(2) =~= path);
}

/// Only `q` quits at once.
pub proof fn only_q_quits(v: ExOutcome, cmd: Seq<char>, named: bool)
    requires
        !v.quit,
    ensures
        ex_outcome(v, named, cmd).quit <==> cmd == seq!['q'],
{
    lemma_words();
    assert("q"@[0] == 'q' && "e "@[0] == 'e' && "w"@[0] == 'w');
    if cmd == seq!['q'] {
        assert(cmd.len() == 1 && cmd[0] == 'q');
        assert("wq"@.len() == 2 && ""@.len() == 0);
    }
}

/// A command that no one knows is named in the message and does nothing.
pub proof fn unknown_commands_are_named(v: ExOutcome, cmd: Seq<char>, named: bool)
    requires
        cmd.len() > 0,
        cmd[0] != 'e' && cmd[0] != 'w' && cmd[0] != 'q' && cmd[0] != 'b' && cmd[0] != 'l',
    ensures
        ({
            let w = ex_outcome(v, named, cmd);
            &&& w.action == v.action && w.quit == v.quit
            &&& w.message.len() > cmd.len()
            &&& w.message.skip(w.message.len() - cmd.len()) == cmd
        }),
{
    lemma_words();
    reveal_strlit("unknown command: :");
    let n = "unknown command: :"@.len() as int;
    assert(("unknown command: :"@ + cmd).skip(n) =~= cmd);
    assert("e "@[0] == 'e' && "w"@[0] == 'w' && "q"@[0] == 'q' && "wq"@[0] == 'w' && "bn"@[0] == 'b'
        && "bnext"@[0] == 'b' && "bp"@[0] == 'b' && "bprev"@[0] == 'b' && "bprevious"@[0] == 'b'
        && "ls"@[0] == 'l' && "buffers"@[0] == 'b');
    if has_prefix(cmd, "e "@) {
        assert(cmd.take(2)[0] == cmd[0]);
    }
}

/// What is typed is taken back by backspace; backspace on an empty line, Esc and
/// Enter leave the mode. Only Enter runs what was typed, and the line is empty
/// behind Esc and Enter.
pub proof fn the_command_line_is_edited(v: ExPane, named: bool, c: char)
    ensures
        ({
            let back = KeyEvent { key: Key::Backspace, mods: Mods(0) };
            let typed = ex_step(v, named, KeyEvent { key: Key::Char(c), mods: Mods(0) });
            let esc = ex_step(v, named, KeyEvent { key: Key::Esc, mods: Mods(0) });
            let enter = ex_step(v, named, KeyEvent { key: Key::Enter, mods: Mods(0) });
            &&& typed.input.len() == v.input.len() + 1 && typed.input.last() == c
            &&& typed.mode == v.mode && typed.outcome == v.outcome
            &&& ex_step(typed, named, back) == v
            &&& v.input.len() == 0 ==> ex_step(v, named, back) == ExPane { mode: Mode::Normal, ..v }
            &&& esc == ExPane { mode: Mode::Normal, input: Seq::empty(), outcome: v.outcome }
            &&& enter.mode == Mode::Normal && enter.input.len() == 0
            &&& enter.outcome == ex_outcome(v.outcome, named, trimmed(v.input))
        }),
{
    crate::input::lemma_single_mods();
    assert(v.input.push(c).drop_last() =~= v.input);
}

}
