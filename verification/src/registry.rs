//! The command registry: the typed command set, validation of a parsed
//! document, and the public load / save / reset operations over the document
//! text. Reading and writing the file itself is the caller's concern; the
//! registry only turns text into validated command sets and back.
use vstd::prelude::*;

use crate::docfmt::ClassifyExec;
use crate::docfmt::EntryV;
use crate::docfmt::PState;
use crate::docfmt::SyntaxError;
use crate::docfmt::SyntaxKind;
use crate::docfmt::ValueExec;
use crate::docfmt::classify_line;
use crate::docfmt::doc_parse;
use crate::docfmt::doc_text;
use crate::docfmt::finalize_state;
use crate::docfmt::fresh_entry;
use crate::docfmt::lemma_doc_parse_render;
use crate::docfmt::lemma_render_entries_snoc;
use crate::docfmt::parse_lines;
use crate::docfmt::push_doc_header;
use crate::docfmt::push_entry_text;
use crate::docfmt::split_into_lines;
use crate::docfmt::split_lines;
use crate::textutil::chars_eq;
use crate::textutil::chars_of;
use crate::textutil::string_of;
use crate::textutil::trim_spec;
use crate::textutil::trimmed;

verus! {

/// The fixed whitelist of shell interpreters a command may name.
#[derive(Clone, Copy, Debug, PartialEq, Eq, Structural)]
pub enum Shell {
    Sh,
    Bash,
    Zsh,
    Fish,
}

impl Shell {
    /// The interpreter's name as it stands in the document.
    pub open spec fn name_spec(self) -> Seq<char> {
        match self {
            Shell::Sh => "sh"@,
            Shell::Bash => "bash"@,
            Shell::Zsh => "zsh"@,
            Shell::Fish => "fish"@,
        }
    }

    /// Exec twin of [`Shell::name_spec`].
    pub fn name(&self) -> (r: &'static str)
        ensures
            r@ == self.name_spec(),
    {
        match self {
            Shell::Sh => "sh",
            Shell::Bash => "bash",
            Shell::Zsh => "zsh",
            Shell::Fish => "fish",
        }
    }
}

/// Whether `s` names one of the whitelisted shells.
pub open spec fn is_valid_shell(s: Seq<char>) -> bool {
    s == "sh"@ || s == "bash"@ || s == "zsh"@ || s == "fish"@
}

/// The shell named by `v`, if any.
pub fn shell_from_name(v: &Vec<char>) -> (r: Option<Shell>)
    ensures
        r is Some <==> is_valid_shell(v@),
        r matches Some(sh) ==> sh.name_spec() == v@,
{
    let sh = chars_of("sh");
    let bash = chars_of("bash");
    let zsh = chars_of("zsh");
    let fish = chars_of("fish");
    if chars_eq(v, &sh) {
        Some(Shell::Sh)
    } else if chars_eq(v, &bash) {
        Some(Shell::Bash)
    } else if chars_eq(v, &zsh) {
        Some(Shell::Zsh)
    } else if chars_eq(v, &fish) {
        Some(Shell::Fish)
    } else {
        None
    }
}

/// One entry as it stands in the document, before validation.
pub struct TomlCommand {
    pub shell: String,
    pub command: String,
    pub icon: String,
    pub sn: bool,
}

/// The parsed, not yet validated document.
pub struct CommandsConfig {
    pub commands: Vec<TomlCommand>,
}

/// One validated command: a run identifier, the interpreter, the invocation
/// string handed verbatim to that interpreter, a short tray icon, and whether
/// a successful run is announced.
pub struct UserCommand {
    pub id: String,
    pub shell: Shell,
    pub command: String,
    pub icon: String,
    pub sn: bool,
}

/// The validated, ordered command set a session works with.
pub struct AppCommandsConfig {
    pub commands: Vec<UserCommand>,
}

/// The document entry a [`TomlCommand`] stands for.
pub open spec fn entry_of(c: TomlCommand) -> EntryV {
    EntryV { shell: c.shell@, command: c.command@, icon: c.icon@, sn: c.sn }
}

/// The document entries a parsed command list stands for.
pub open spec fn entries_of(cs: Seq<TomlCommand>) -> Seq<EntryV> {
    cs.map_values(|c: TomlCommand| entry_of(c))
}

/// The document entry a validated [`UserCommand`] is written as.
pub open spec fn uentry_of(u: UserCommand) -> EntryV {
    EntryV { shell: u.shell.name_spec(), command: u.command@, icon: u.icon@, sn: u.sn }
}

/// The document entries a validated command set is written as.
pub open spec fn uentries_of(us: Seq<UserCommand>) -> Seq<EntryV> {
    us.map_values(|u: UserCommand| uentry_of(u))
}

/// Why an entry is rejected.
#[derive(Clone, Copy, Debug, PartialEq, Eq, Structural)]
pub enum ValidationKind {
    /// The invocation is empty (or blank).
    EmptyCommand,
    /// The invocation already occurs earlier in the set.
    DuplicateCommand,
    /// The icon has more than eight scalar values.
    IconTooLong,
    /// The shell is outside the fixed whitelist.
    UnknownShell,
}

/// The first offending entry: its 0-based index and the reason.
#[derive(Clone, Copy, Debug, PartialEq, Eq, Structural)]
pub struct ValidationError {
    pub index: usize,
    pub kind: ValidationKind,
}

/// The first reason entry `i` is rejected, checked in the fixed order:
/// emptiness, uniqueness, icon length, shell whitelist.
pub open spec fn entry_violation(es: Seq<EntryV>, i: int) -> Option<ValidationKind> {
    if trim_spec(es[i].command).len() == 0 {
        Some(ValidationKind::EmptyCommand)
    } else if exists|j: int| 0 <= j < i && es[j].command == es[i].command {
        Some(ValidationKind::DuplicateCommand)
    } else if es[i].icon.len() > 8 {
        Some(ValidationKind::IconTooLong)
    } else if !is_valid_shell(es[i].shell) {
        Some(ValidationKind::UnknownShell)
    } else {
        None
    }
}

/// A set is valid when no entry is rejected.
pub open spec fn entries_valid(es: Seq<EntryV>) -> bool {
    forall|i: int| 0 <= i < es.len() ==> entry_violation(es, i) is None
}

/// The first rejected entry at or after `i`, if any.
pub open spec fn first_violation(es: Seq<EntryV>, i: int) -> Option<ValidationError>
    decreases es.len() - i,
{
    if i < 0 || i >= es.len() {
        None
    } else {
        match entry_violation(es, i) {
            Some(k) => Some(ValidationError { index: i as usize, kind: k }),
            None => first_violation(es, i + 1),
        }
    }
}

/// There is a first rejected entry exactly when the set is not valid.
pub proof fn lemma_first_violation_none(es: Seq<EntryV>, i: int)
    requires
        0 <= i <= es.len(),
    ensures
        first_violation(es, i) is None <==> (forall|j: int|
            i <= j < es.len() ==> entry_violation(es, j) is None),
    decreases es.len() - i,
{
    if i < es.len() {
        lemma_first_violation_none(es, i + 1);
    }
}

/// Skipping clean entries does not change the first violation.
proof fn lemma_first_violation_skip(es: Seq<EntryV>, i: int)
    requires
        0 <= i <= es.len(),
        forall|j: int| 0 <= j < i ==> entry_violation(es, j) is None,
    ensures
        first_violation(es, 0) == first_violation(es, i),
    decreases i,
{
    if i > 0 {
        lemma_first_violation_skip(es, i - 1);
    }
}

/// Check every entry of a parsed document, atomically: either the whole set
/// is valid, or the first offending entry is reported and nothing is kept.
pub fn validate_commands(cfg: &CommandsConfig) -> (r: Result<(), ValidationError>)
    ensures
        r is Ok <==> entries_valid(entries_of(cfg.commands@)),
        r matches Err(e) ==> first_violation(entries_of(cfg.commands@), 0) == Some(e),
{
    let ghost es = entries_of(cfg.commands@);
    let n = cfg.commands.len();
    proof {
        assert(es.len() == n);
    }
    for i in 0..n
        invariant
            n == cfg.commands.len(),
            es == entries_of(cfg.commands@),
            es.len() == n,
            forall|j: int| 0 <= j < i ==> entry_violation(es, j) is None,
    {
        proof {
            assert(es[i as int] == entry_of(cfg.commands@[i as int]));
        }
        let cmd = &cfg.commands[i];
        let cmd_chars = chars_of(cmd.command.as_str());
        let t = trimmed(&cmd_chars);
        if t.len() == 0 {
            proof {
                lemma_first_violation_skip(es, i as int);
            }
            return Err(ValidationError { index: i, kind: ValidationKind::EmptyCommand });
        }
        let mut dup = false;
        for j in 0..i
            invariant
                n == cfg.commands.len(),
                es == entries_of(cfg.commands@),
                es.len() == n,
                i < n,
                cmd_chars@ == es[i as int].command,
                dup <==> exists|q: int| 0 <= q < j && es[q].command == es[i as int].command,
        {
            proof {
                assert(es[j as int] == entry_of(cfg.commands@[j as int]));
            }
            let ghost dup0 = dup;
            let other = chars_of(cfg.commands[j].command.as_str());
            let eqj = chars_eq(&other, &cmd_chars);
            if eqj {
                dup = true;
            }
            proof {
                assert(other@ == es[j as int].command);
                assert(cmd_chars@ == es[i as int].command);
                if dup {
                    if eqj {
                        assert(0 <= j < j + 1 && es[j as int].command == es[i as int].command);
                    } else {
                        let q = choose|q: int|
                            0 <= q < j && es[q].command == es[i as int].command;
                        assert(0 <= q < j + 1 && es[q].command == es[i as int].command);
                    }
                } else {
                    assert(!dup0 && !eqj);
                    assert forall|q: int|
                        0 <= q < j + 1 implies es[q].command != es[i as int].command by {
                        if q < j {
                        } else {
                            assert(es[q].command == other@);
                        }
                    }
                }
            }
        }
        if dup {
            proof {
                lemma_first_violation_skip(es, i as int);
            }
            return Err(ValidationError { index: i, kind: ValidationKind::DuplicateCommand });
        }
        let icon_chars = chars_of(cmd.icon.as_str());
        if icon_chars.len() > 8 {
            proof {
                lemma_first_violation_skip(es, i as int);
            }
            return Err(ValidationError { index: i, kind: ValidationKind::IconTooLong });
        }
        let shell_chars = chars_of(cmd.shell.as_str());
        if shell_from_name(&shell_chars).is_none() {
            proof {
                lemma_first_violation_skip(es, i as int);
            }
            return Err(ValidationError { index: i, kind: ValidationKind::UnknownShell });
        }
        proof {
            assert(entry_violation(es, i as int) is None);
        }
    }
    proof {
        lemma_first_violation_none(es, 0);
    }
    Ok(())
}

/// A fresh identifier for one loaded command.
///
/// Relies on `uuid::Uuid::new_v4` and `Uuid`'s `Display` implementation: the
/// identifier is rendered in the hyphenated form, which is always 36
/// characters. Nothing is promised about the randomly drawn value itself.
#[verifier::external_body]
fn fresh_id() -> (r: String)
    ensures
        r@.len() == 36,
{
    uuid::Uuid::new_v4().to_string()
}

/// An entry being filled while its lines are read.
struct Pending {
    shell: Vec<char>,
    command: Vec<char>,
    icon: Vec<char>,
    sn: bool,
}

impl Pending {
    /// The document entry this pending state stands for.
    closed spec fn view_spec(&self) -> EntryV {
        EntryV { shell: self.shell@, command: self.command@, icon: self.icon@, sn: self.sn }
    }

    /// A just-opened entry, holding the field defaults.
    fn fresh() -> (r: Pending)
        ensures
            r.view_spec() == fresh_entry(),
    {
        let r = Pending { shell: chars_of("sh"), command: Vec::new(), icon: Vec::new(), sn: true };
        proof {
            assert(r.view_spec().command =~= fresh_entry().command);
            assert(r.view_spec().icon =~= fresh_entry().icon);
        }
        r
    }
}

/// The entry an open pending state stands for, if one is open.
closed spec fn opt_pending_view(o: Option<Pending>) -> Option<EntryV> {
    match o {
        Some(p) => Some(p.view_spec()),
        None => None,
    }
}

/// Close a pending entry into the list of finished ones.
fn push_pending(done: &mut Vec<TomlCommand>, p: Pending)
    ensures
        entries_of(final(done)@) == entries_of(old(done)@).push(p.view_spec()),
{
    let ghost v = p.view_spec();
    let c = TomlCommand {
        shell: string_of(&p.shell),
        command: string_of(&p.command),
        icon: string_of(&p.icon),
        sn: p.sn,
    };
    proof {
        assert(entry_of(c) == v);
    }
    done.push(c);
    proof {
        assert(entries_of(done@) =~= entries_of(old(done)@).push(v));
    }
}

/// Parse a document text into its entries, rejecting the first line that
/// steps outside the canonical schema.
pub fn parse_commands(text: &str) -> (r: Result<CommandsConfig, SyntaxError>)
    ensures
        r matches Ok(cfg) ==> doc_parse(text@) == Ok::<Seq<EntryV>, SyntaxError>(
            entries_of(cfg.commands@),
        ),
        r matches Err(e) ==> doc_parse(text@) == Err::<Seq<EntryV>, SyntaxError>(e),
{
    let chars = chars_of(text);
    let lines = split_into_lines(&chars);
    let ghost lsv = lines@.map_values(|l: Vec<char>| l@);
    let ghost init = PState { done: Seq::empty(), cur: None };
    proof {
        assert(lsv == split_lines(text@));
    }
    let nl = lines.len();
    let mut done: Vec<TomlCommand> = Vec::new();
    let mut cur: Option<Pending> = None;
    let key_shell = chars_of("shell");
    let key_command = chars_of("command");
    let key_icon = chars_of("icon");
    let key_sn = chars_of("sn");
    proof {
        assert(entries_of(done@) =~= Seq::<EntryV>::empty());
        assert(lsv.subrange(0, nl as int) =~= lsv);
    }
    for i in 0..nl
        invariant
            nl == lines@.len(),
            lsv == lines@.map_values(|l: Vec<char>| l@),
            lsv == split_lines(text@),
            init == (PState { done: Seq::<EntryV>::empty(), cur: None::<EntryV> }),
            key_shell@ == "shell"@,
            key_command@ == "command"@,
            key_icon@ == "icon"@,
            key_sn@ == "sn"@,
            parse_lines(lsv, 1, init) == parse_lines(
                lsv.subrange(i as int, nl as int),
                i as int + 1,
                PState { done: entries_of(done@), cur: opt_pending_view(cur) },
            ),
    {
        let ghost stv = PState { done: entries_of(done@), cur: opt_pending_view(cur) };
        let ghost rem = lsv.subrange(i as int, nl as int);
        proof {
            assert(rem.len() == nl - i);
            assert(rem[0] == lsv[i as int]);
            assert(lsv[i as int] == lines@[i as int]@);
            assert(rem.drop_first() =~= lsv.subrange(i as int + 1, nl as int));
        }
        let class = classify_line(&lines[i]);
        match class {
            ClassifyExec::Blank => {
                proof {
                    assert(crate::docfmt::apply_line(stv, rem[0], i as int + 1)
                        == Ok::<PState, SyntaxError>(stv));
                }
            },
            ClassifyExec::Comment => {
                proof {
                    assert(crate::docfmt::apply_line(stv, rem[0], i as int + 1)
                        == Ok::<PState, SyntaxError>(stv));
                }
            },
            ClassifyExec::Header => {
                let prev = cur;
                match prev {
                    Some(p) => {
                        push_pending(&mut done, p);
                    },
                    None => {},
                }
                cur = Some(Pending::fresh());
                proof {
                    let stv2 = PState { done: entries_of(done@), cur: opt_pending_view(cur) };
                    assert(stv2.done == finalize_state(stv));
                    assert(stv2.cur == Some(fresh_entry()));
                    assert(crate::docfmt::apply_line(stv, rem[0], i as int + 1)
                        == Ok::<PState, SyntaxError>(stv2));
                }
            },
            ClassifyExec::Malformed => {
                let e = SyntaxError { line: i + 1, kind: SyntaxKind::MalformedLine };
                proof {
                    assert(crate::docfmt::apply_line(stv, rem[0], i as int + 1)
                        == Err::<PState, SyntaxError>(e));
                    assert(parse_lines(rem, i as int + 1, stv) == Err::<Seq<EntryV>, SyntaxError>(
                        e,
                    ));
                }
                return Err(e);
            },
            ClassifyExec::Kv { key, value } => {
                let prev = cur;
                match prev {
                    None => {
                        let e = SyntaxError { line: i + 1, kind: SyntaxKind::EntryExpected };
                        proof {
                            assert(crate::docfmt::apply_line(stv, rem[0], i as int + 1)
                                == Err::<PState, SyntaxError>(e));
                            assert(parse_lines(rem, i as int + 1, stv) == Err::<
                                Seq<EntryV>,
                                SyntaxError,
                            >(e));
                        }
                        return Err(e);
                    },
                    Some(mut p) => {
                        if chars_eq(&key, &key_shell) {
                            match value {
                                ValueExec::VStrE(x) => {
                                    p.shell = x;
                                    cur = Some(p);
                                },
                                ValueExec::VBoolE(_) => {
                                    let e = SyntaxError {
                                        line: i + 1,
                                        kind: SyntaxKind::WrongType,
                                    };
                                    proof {
                                        assert(parse_lines(rem, i as int + 1, stv) == Err::<
                                            Seq<EntryV>,
                                            SyntaxError,
                                        >(e));
                                    }
                                    return Err(e);
                                },
                                ValueExec::VBadE => {
                                    let e = SyntaxError {
                                        line: i + 1,
                                        kind: SyntaxKind::BadValue,
                                    };
                                    proof {
                                        assert(parse_lines(rem, i as int + 1, stv) == Err::<
                                            Seq<EntryV>,
                                            SyntaxError,
                                        >(e));
                                    }
                                    return Err(e);
                                },
                            }
                        } else if chars_eq(&key, &key_command) {
                            match value {
                                ValueExec::VStrE(x) => {
                                    p.command = x;
                                    cur = Some(p);
                                },
                                ValueExec::VBoolE(_) => {
                                    let e = SyntaxError {
                                        line: i + 1,
                                        kind: SyntaxKind::WrongType,
                                    };
                                    proof {
                                        assert(parse_lines(rem, i as int + 1, stv) == Err::<
                                            Seq<EntryV>,
                                            SyntaxError,
                                        >(e));
                                    }
                                    return Err(e);
                                },
                                ValueExec::VBadE => {
                                    let e = SyntaxError {
                                        line: i + 1,
                                        kind: SyntaxKind::BadValue,
                                    };
                                    proof {
                                        assert(parse_lines(rem, i as int + 1, stv) == Err::<
                                            Seq<EntryV>,
                                            SyntaxError,
                                        >(e));
                                    }
                                    return Err(e);
                                },
                            }
                        } else if chars_eq(&key, &key_icon) {
                            match value {
                                ValueExec::VStrE(x) => {
                                    p.icon = x;
                                    cur = Some(p);
                                },
                                ValueExec::VBoolE(_) => {
                                    let e = SyntaxError {
                                        line: i + 1,
                                        kind: SyntaxKind::WrongType,
                                    };
                                    proof {
                                        assert(parse_lines(rem, i as int + 1, stv) == Err::<
                                            Seq<EntryV>,
                                            SyntaxError,
                                        >(e));
                                    }
                                    return Err(e);
                                },
                                ValueExec::VBadE => {
                                    let e = SyntaxError {
                                        line: i + 1,
                                        kind: SyntaxKind::BadValue,
                                    };
                                    proof {
                                        assert(parse_lines(rem, i as int + 1, stv) == Err::<
                                            Seq<EntryV>,
                                            SyntaxError,
                                        >(e));
                                    }
                                    return Err(e);
                                },
                            }
                        } else if chars_eq(&key, &key_sn) {
                            match value {
                                ValueExec::VBoolE(b) => {
                                    p.sn = b;
                                    cur = Some(p);
                                },
                                ValueExec::VStrE(_) => {
                                    let e = SyntaxError {
                                        line: i + 1,
                                        kind: SyntaxKind::WrongType,
                                    };
                                    proof {
                                        assert(parse_lines(rem, i as int + 1, stv) == Err::<
                                            Seq<EntryV>,
                                            SyntaxError,
                                        >(e));
                                    }
                                    return Err(e);
                                },
                                ValueExec::VBadE => {
                                    let e = SyntaxError {
                                        line: i + 1,
                                        kind: SyntaxKind::BadValue,
                                    };
                                    proof {
                                        assert(parse_lines(rem, i as int + 1, stv) == Err::<
                                            Seq<EntryV>,
                                            SyntaxError,
                                        >(e));
                                    }
                                    return Err(e);
                                },
                            }
                        } else {
                            let e = SyntaxError { line: i + 1, kind: SyntaxKind::UnknownKey };
                            proof {
                                assert(parse_lines(rem, i as int + 1, stv) == Err::<
                                    Seq<EntryV>,
                                    SyntaxError,
                                >(e));
                            }
                            return Err(e);
                        }
                        proof {
                            let stv2 = PState {
                                done: entries_of(done@),
                                cur: opt_pending_view(cur),
                            };
                            assert(crate::docfmt::apply_line(stv, rem[0], i as int + 1)
                                == Ok::<PState, SyntaxError>(stv2));
                        }
                    },
                }
            },
        }
    }
    let ghost stv_end = PState { done: entries_of(done@), cur: opt_pending_view(cur) };
    proof {
        assert(lsv.subrange(nl as int, nl as int) =~= Seq::<Seq<char>>::empty());
        assert(parse_lines(lsv, 1, init) == Ok::<Seq<EntryV>, SyntaxError>(
            finalize_state(stv_end),
        ));
    }
    let prev = cur;
    match prev {
        Some(p) => {
            push_pending(&mut done, p);
        },
        None => {},
    }
    proof {
        assert(entries_of(done@) == finalize_state(stv_end));
    }
    Ok(CommandsConfig { commands: done })
}

/// Why a load fails: the document is outside the schema, or an entry breaks
/// a validation rule. Either way no partial command set is returned.
#[derive(Clone, Copy, Debug, PartialEq, Eq, Structural)]
pub enum LoadError {
    Syntax(SyntaxError),
    Validation(ValidationError),
}

/// Parse and validate a commands document, and stamp every entry with a
/// fresh identifier. Fails atomically: a syntax error names the first
/// offending line, a validation error the first offending entry, and no
/// partially valid set is ever returned.
pub fn load_commands(text: &str) -> (r: Result<AppCommandsConfig, LoadError>)
    ensures
        doc_parse(text@) matches Err(e) ==> r == Err::<AppCommandsConfig, LoadError>(
            LoadError::Syntax(e),
        ),
        doc_parse(text@) matches Ok(es) ==> {
            &&& first_violation(es, 0) matches Some(v) ==> r == Err::<
                AppCommandsConfig,
                LoadError,
            >(LoadError::Validation(v))
            &&& first_violation(es, 0) is None ==> {
                &&& r is Ok
                &&& uentries_of(r->Ok_0.commands@) == es
                &&& forall|i: int|
                    0 <= i < r->Ok_0.commands@.len() ==> #[trigger] r->Ok_0.commands@[i].id@.len()
                        == 36
            }
        },
{
    let cfg = match parse_commands(text) {
        Ok(c) => c,
        Err(e) => {
            return Err(LoadError::Syntax(e));
        },
    };
    let ghost es = entries_of(cfg.commands@);
    match validate_commands(&cfg) {
        Ok(()) => {},
        Err(v) => {
            return Err(LoadError::Validation(v));
        },
    }
    proof {
        lemma_first_violation_none(es, 0);
    }
    let n = cfg.commands.len();
    let mut out: Vec<UserCommand> = Vec::new();
    for i in 0..n
        invariant
            n == cfg.commands.len(),
            es == entries_of(cfg.commands@),
            entries_valid(es),
            out@.len() == i,
            forall|k: int| 0 <= k < i ==> uentry_of(#[trigger] out@[k]) == es[k],
            forall|k: int| 0 <= k < i ==> #[trigger] out@[k].id@.len() == 36,
    {
        proof {
            assert(es[i as int] == entry_of(cfg.commands@[i as int]));
            assert(entry_violation(es, i as int) is None);
        }
        let c = &cfg.commands[i];
        let shell_chars = chars_of(c.shell.as_str());
        let sh = match shell_from_name(&shell_chars) {
            Some(sh) => sh,
            None => {
                proof {
                    assert(is_valid_shell(es[i as int].shell));
                    assert(false);
                }
                vstd::pervasive::unreached()
            },
        };
        out.push(
            UserCommand {
                id: fresh_id(),
                shell: sh,
                command: c.command.clone(),
                icon: c.icon.clone(),
                sn: c.sn,
            },
        );
    }
    proof {
        assert(uentries_of(out@) =~= es);
    }
    Ok(AppCommandsConfig { commands: out })
}

/// Serialize a command set back to its document text, wholesale and without
/// validation: what is saved is exactly what the set holds.
pub fn save_commands(config: &AppCommandsConfig) -> (doc: String)
    ensures
        doc@ == doc_text(uentries_of(config.commands@)),
{
    let ghost es = uentries_of(config.commands@);
    let mut out: Vec<char> = Vec::new();
    push_doc_header(&mut out);
    proof {
        assert(crate::docfmt::render_entries(es.take(0)) == Seq::<char>::empty());
        assert(out@ + Seq::<char>::empty() =~= out@);
    }
    let n = config.commands.len();
    for i in 0..n
        invariant
            n == config.commands.len(),
            es == uentries_of(config.commands@),
            out@ == crate::docfmt::doc_header() + crate::docfmt::render_entries(
                es.take(i as int),
            ),
    {
        proof {
            assert(es[i as int] == uentry_of(config.commands@[i as int]));
        }
        let u = &config.commands[i];
        let shell_chars = chars_of(u.shell.name());
        let command_chars = chars_of(u.command.as_str());
        let icon_chars = chars_of(u.icon.as_str());
        push_entry_text(&mut out, &shell_chars, &command_chars, &icon_chars, u.sn);
        proof {
            assert(EntryV {
                shell: shell_chars@,
                command: command_chars@,
                icon: icon_chars@,
                sn: u.sn,
            } == es[i as int]);
            lemma_render_entries_snoc(es.take(i as int), es[i as int]);
            assert(es.take(i as int).push(es[i as int]) =~= es.take(i + 1));
            assert(out@ =~= crate::docfmt::doc_header() + crate::docfmt::render_entries(
                es.take(i + 1),
            ));
        }
    }
    proof {
        assert(es.take(n as int) =~= es);
    }
    string_of(&out)
}

/// The round-trip law: saving any valid command set and loading the text
/// back yields exactly the same entries — so in particular the multiset of
/// invocation strings is preserved. Fresh identifiers are drawn on load; the
/// four persisted fields are untouched.
pub proof fn lemma_save_load_round_trip(es: Seq<EntryV>)
    requires
        entries_valid(es),
    ensures
        doc_parse(doc_text(es)) == Ok::<Seq<EntryV>, SyntaxError>(es),
        first_violation(es, 0) is None,
        doc_parse(doc_text(es))->Ok_0.map_values(|e: EntryV| e.command).to_multiset()
            == es.map_values(|e: EntryV| e.command).to_multiset(),
{
    lemma_doc_parse_render(es);
    lemma_first_violation_none(es, 0);
}

/// The built-in default command set: two harmless commands run by `sh`.
pub open spec fn default_entries() -> Seq<EntryV> {
    seq![
        EntryV { shell: "sh"@, command: "echo $SHELL"@, icon: "$_"@, sn: true },
        EntryV { shell: "sh"@, command: "id"@, icon: "->"@, sn: true },
    ]
}

/// The default command set always validates.
pub proof fn lemma_default_entries_valid()
    ensures
        entries_valid(default_entries()),
{
    reveal_strlit("sh");
    reveal_strlit("echo $SHELL");
    reveal_strlit("id");
    reveal_strlit("$_");
    reveal_strlit("->");
    let es = default_entries();
    assert(!crate::textutil::is_blank_char('e') && !crate::textutil::is_blank_char('L'));
    assert(!crate::textutil::is_blank_char('i') && !crate::textutil::is_blank_char('d'));
    crate::textutil::lemma_trim_spec_noop(es[0].command);
    crate::textutil::lemma_trim_spec_noop(es[1].command);
    assert(es[0].command.len() == 11 && es[1].command.len() == 2);
    assert(entry_violation(es, 0) is None);
    assert(entry_violation(es, 1) is None);
    assert forall|i: int| 0 <= i < es.len() implies entry_violation(es, i) is None by {
        if i == 0 {
        } else {
            assert(i == 1);
        }
    }
}

/// Build the built-in default command set, with fresh identifiers.
pub fn default_commands() -> (r: AppCommandsConfig)
    ensures
        uentries_of(r.commands@) == default_entries(),
        entries_valid(uentries_of(r.commands@)),
{
    let mut v: Vec<UserCommand> = Vec::new();
    v.push(
        UserCommand {
            id: fresh_id(),
            shell: Shell::Sh,
            command: "echo $SHELL".to_owned(),
            icon: "$_".to_owned(),
            sn: true,
        },
    );
    v.push(
        UserCommand {
            id: fresh_id(),
            shell: Shell::Sh,
            command: "id".to_owned(),
            icon: "->".to_owned(),
            sn: true,
        },
    );
    proof {
        assert(uentries_of(v@) =~= default_entries());
        lemma_default_entries_valid();
    }
    AppCommandsConfig { commands: v }
}

/// The document text a reset writes: the default set, rendered.
pub fn default_config_text() -> (r: String)
    ensures
        r@ == doc_text(default_entries()),
{
    let cfg = default_commands();
    save_commands(&cfg)
}

/// Whether a reset has to rewrite the document: always when forced, else
/// only when no document exists yet — resetting twice without force changes
/// nothing.
pub fn config_needs_write(present: bool, force: bool) -> (r: bool)
    ensures
        r == (!present || force),
{
    !present || force
}

} // verus!
